use resume::buckets::{BucketNode, HierarchicalBuckets};
use resume::changelog::{ChangeLog, ChangeLogEntry, CommitField};
use resume::error::Error;
use resume::message::ConventionalMessage;
use resume::report::OutputType;
use resume::snapshots::{BranchName, RepositoryOrigin};

fn entry(text: &str) -> ChangeLogEntry {
    ChangeLogEntry::new(
        RepositoryOrigin::new("git@o".to_string()),
        BranchName::new("main".to_string()),
        ConventionalMessage::parse(text).unwrap(),
    )
}

#[test]
fn groups_by_commit_type_in_first_seen_order() {
    let mut log = ChangeLog::new(vec![CommitField::CommitType]);
    log.insert(entry("feat: one")).unwrap();
    log.insert(entry("fix: two")).unwrap();
    log.insert(entry("feat: three")).unwrap();
    let tree = log.index();
    let root = match tree.node(0) {
        BucketNode::Index(m) => m,
        BucketNode::Bucket(_) => panic!("root must be an index"),
    };
    let keys: Vec<&str> = root.keys().map(|k| k.as_str()).collect();
    assert_eq!(keys, vec!["feat", "fix"]);
    let sizes: Vec<usize> = root
        .values()
        .map(|&i| match tree.node(i) {
            BucketNode::Bucket(b) => b.len(),
            BucketNode::Index(_) => panic!("leaf expected"),
        })
        .collect();
    assert_eq!(sizes, vec![2, 1]);
    if let BucketNode::Bucket(b) = tree.node(root["feat"]) {
        assert_eq!(b[0].message().summary, "one");
        assert_eq!(b[1].message().summary, "three");
    }
}

#[test]
fn no_fields_gives_one_flat_bucket() {
    let mut log = ChangeLog::new(vec![]);
    log.insert(entry("feat: one")).unwrap();
    log.insert(entry("fix: two")).unwrap();
    match log.index().node(0) {
        BucketNode::Bucket(b) => assert_eq!(b.len(), 2),
        BucketNode::Index(_) => panic!("flat bucket expected"),
    }
}

#[test]
fn two_level_grouping() {
    let mut log = ChangeLog::new(vec![CommitField::Branch, CommitField::Scope]);
    log.insert(entry("feat(ui): a")).unwrap();
    log.insert(entry("feat: b")).unwrap();
    log.insert(entry("fix(ui): c")).unwrap();
    let tree = log.index();
    let root = match tree.node(0) {
        BucketNode::Index(m) => m,
        BucketNode::Bucket(_) => panic!(),
    };
    assert_eq!(root.len(), 1);
    let scopes = match tree.node(root["main"]) {
        BucketNode::Index(m) => m,
        BucketNode::Bucket(_) => panic!(),
    };
    let keys: Vec<&str> = scopes.keys().map(|k| k.as_str()).collect();
    assert_eq!(keys, vec!["ui", ""]);
    match tree.node(scopes["ui"]) {
        BucketNode::Bucket(b) => assert_eq!(b.len(), 2),
        BucketNode::Index(_) => panic!(),
    }
}

#[test]
fn wrong_key_count_is_invalid_index() {
    let mut tree: HierarchicalBuckets<u32> = HierarchicalBuckets::new(2);
    assert!(matches!(
        tree.insert(vec!["a".to_string()], 1),
        Err(Error::InvalidIndex(_))
    ));
    assert_eq!(tree.insert(vec!["a".to_string(), "b".to_string()], 1), Ok(()));
    assert_eq!(tree.node_len(), 3);
}

#[test]
fn entry_fields() {
    let e = entry("perf(db): faster");
    assert_eq!(e.get(&CommitField::Scope), "db");
    assert_eq!(e.get(&CommitField::Branch), "main");
    assert_eq!(e.get(&CommitField::Origin), "git@o");
    assert_eq!(e.get(&CommitField::CommitType), "perf");
    assert_eq!(entry("perf: faster").get(&CommitField::Scope), "");
}

#[test]
fn field_names() {
    assert_eq!(CommitField::from_str("commit-type"), Ok(CommitField::CommitType));
    assert_eq!(CommitField::from_str("scope"), Ok(CommitField::Scope));
    assert_eq!(CommitField::from_str("branch"), Ok(CommitField::Branch));
    assert_eq!(CommitField::from_str("origin"), Ok(CommitField::Origin));
    assert_eq!(
        CommitField::from_str("author"),
        Err(Error::InvalidSelector("author".to_string()))
    );
    assert_eq!(CommitField::CommitType.name(), "commit-type");
}

#[test]
fn output_types() {
    assert_eq!(OutputType::from_str("yaml"), Ok(OutputType::Yaml));
    assert_eq!(OutputType::from_str("json"), Err(Error::OutputType("json".to_string())));
}
