use resume::error::Error;
use resume::run::{parse_index, starting_snapshot};
use resume::snapshots::{
    origin_digest, BranchName, CommitHash, RepositoryOrigin, RepositorySnapshot, Snapshot,
    SnapshotBuilder, SnapshotHash, SnapshotHistory,
};

fn heads(pairs: &[(&str, &str)]) -> RepositorySnapshot {
    let mut snapshot = RepositorySnapshot::new();
    for (branch, head) in pairs {
        snapshot.insert(BranchName::new(branch.to_string()), CommitHash::new(head.to_string()));
    }
    snapshot
}

fn origin(s: &str) -> RepositoryOrigin {
    RepositoryOrigin::new(s.to_string())
}

fn snapshot_with_hash(hash: &str) -> Snapshot {
    Snapshot::from_records(SnapshotHash::new(hash.to_string()), &Vec::new())
}

#[test]
fn hash_ignores_processing_order() {
    let mut first = SnapshotBuilder::new();
    first.add_repository_snapshot(origin("git@b"), heads(&[("main", "111"), ("dev", "222")]));
    first.add_repository_snapshot(origin("git@a"), heads(&[("main", "333")]));
    let mut second = SnapshotBuilder::new();
    second.add_repository_snapshot(origin("git@a"), heads(&[("main", "333")]));
    second.add_repository_snapshot(origin("git@b"), heads(&[("dev", "222"), ("main", "111")]));
    let a = first.build();
    let b = second.build();
    assert_eq!(a.hash(), b.hash());
    assert_eq!(a.hash().as_str().len(), 64);
}

#[test]
fn hash_covers_canonical_bytes() {
    let mut builder = SnapshotBuilder::new();
    builder.add_repository_snapshot(origin("o"), heads(&[("b", "h")]));
    let snapshot = builder.build();
    let expected = blake3::hash(b"obh").to_string();
    assert_eq!(snapshot.hash().as_str(), expected);
}

#[test]
fn empty_snapshot_hash_is_digest_of_nothing() {
    let snapshot = SnapshotBuilder::new().build();
    assert_eq!(
        snapshot.hash().as_str(),
        "af1349b9f5f9a1a6a0404dea36dcc9499bcb25c9adc112b7cc9a93cae41f3262"
    );
}

#[test]
fn origin_digest_is_hex_of_origin() {
    let digest = origin_digest(&origin("git@example.com:user/repository.git"));
    assert_eq!(digest.len(), 64);
    assert_ne!(digest, "git@example.com:user/repository.git");
    assert_eq!(digest, blake3::hash(b"git@example.com:user/repository.git").to_string());
}

#[test]
fn repository_snapshot_sorted_and_replaced() {
    let snapshot = heads(&[("zeta", "1"), ("alpha", "2"), ("zeta", "3")]);
    let names: Vec<&str> = snapshot.entries().iter().map(|(b, _)| b.as_str()).collect();
    assert_eq!(names, vec!["alpha", "zeta"]);
    assert_eq!(
        snapshot.get(&BranchName::new("zeta".to_string())).map(|h| h.as_str()),
        Some("3")
    );
    assert!(snapshot.get(&BranchName::new("beta".to_string())).is_none());
}

#[test]
fn snapshot_get_by_origin() {
    let mut builder = SnapshotBuilder::new();
    builder.add_repository_snapshot(origin("x"), heads(&[("main", "9")]));
    let snapshot = builder.build();
    assert!(snapshot.get(&origin("x")).is_some());
    assert!(snapshot.get(&origin("y")).is_none());
}

#[test]
fn push_same_hash_twice_keeps_length() {
    let mut history = SnapshotHistory::new();
    history.push(snapshot_with_hash("aaa"));
    assert_eq!(history.len(), 1);
    history.push(snapshot_with_hash("aaa"));
    history.push(snapshot_with_hash("aaa"));
    assert_eq!(history.len(), 1);
    history.push(snapshot_with_hash("bbb"));
    assert_eq!(history.len(), 2);
    history.push(snapshot_with_hash("aaa"));
    assert_eq!(history.len(), 3);
}

#[test]
fn lookups_by_index_and_hash() {
    let mut history = SnapshotHistory::new();
    history.push(snapshot_with_hash("h0"));
    history.push(snapshot_with_hash("h1"));
    history.push(snapshot_with_hash("h2"));
    assert_eq!(history.get_by_index(0).unwrap().hash().as_str(), "h2");
    assert_eq!(history.get_by_index(2).unwrap().hash().as_str(), "h0");
    assert!(history.get_by_index(3).is_none());
    assert_eq!(
        history.get_by_hash(&SnapshotHash::new("h1".to_string())).unwrap().hash().as_str(),
        "h1"
    );
    assert!(history.get_by_hash(&SnapshotHash::new("zz".to_string())).is_none());
    assert_eq!(history.last().unwrap().hash().as_str(), "h2");
    assert!(SnapshotHistory::new().last().is_none());
}

#[test]
fn reload_reproduces_history() {
    let mut history = SnapshotHistory::new();
    let mut builder = SnapshotBuilder::new();
    builder.add_repository_snapshot(origin("o"), heads(&[("main", "1")]));
    history.push(builder.build());
    history.push(snapshot_with_hash("other"));
    let mut stored = Vec::new();
    for snapshot in history.snapshots() {
        let mut records = Vec::new();
        for (o, repo) in snapshot.repositories() {
            records.push((o.clone(), repo.entries().clone()));
        }
        stored.push(Snapshot::from_records(snapshot.hash().clone(), &records));
    }
    let reloaded = SnapshotHistory::from_snapshots(stored);
    assert_eq!(reloaded, history);
}

#[test]
fn index_parsing() {
    assert_eq!(parse_index("0"), Some(0));
    assert_eq!(parse_index("+12"), Some(12));
    assert_eq!(parse_index("18446744073709551615"), Some(usize::MAX));
    assert_eq!(parse_index("18446744073709551616"), None);
    assert_eq!(parse_index(""), None);
    assert_eq!(parse_index("+"), None);
    assert_eq!(parse_index("-1"), None);
    assert_eq!(parse_index("af12"), None);
}

#[test]
fn snapshot_reference_errors() {
    let mut history = SnapshotHistory::new();
    history.push(snapshot_with_hash("h0"));
    assert_eq!(
        starting_snapshot(&history, false, Some("5")),
        Err(Error::SnapshotDoesntExist("5".to_string()))
    );
    assert_eq!(
        starting_snapshot(&history, false, Some("nothere")),
        Err(Error::SnapshotDoesntExist("nothere".to_string()))
    );
    let found = starting_snapshot(&history, false, Some("h0")).unwrap().unwrap();
    assert_eq!(found.hash().as_str(), "h0");
    let latest = starting_snapshot(&history, false, None).unwrap().unwrap();
    assert_eq!(latest.hash().as_str(), "h0");
    assert_eq!(starting_snapshot(&history, true, Some("5")), Ok(None));
    assert_eq!(starting_snapshot(&SnapshotHistory::new(), false, None), Ok(None));
}
