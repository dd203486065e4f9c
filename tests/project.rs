use resume::config::{default_branch, Configuration, Project};
use resume::project::{extract_messages, CommitRecord, RepositoryRun, Sentinels};
use resume::snapshots::{BranchName, CommitHash, RepositoryOrigin, RepositorySnapshot};

fn commit(id: &str, parents: usize, message: &str) -> CommitRecord {
    CommitRecord {
        id: CommitHash::new(id.to_string()),
        parent_count: parents,
        message: Some(message.to_string()),
    }
}

fn ids(v: &[CommitHash]) -> Vec<String> {
    let mut out: Vec<String> = v.iter().map(|c| c.as_str().to_string()).collect();
    out.sort();
    out
}

#[test]
fn extract_keeps_conventional_and_collects_merges() {
    let commits = vec![
        commit("m1", 2, "Merge branch 'feature'"),
        commit("c1", 1, "feat: one"),
        commit("c2", 1, "not conventional"),
        commit("c3", 1, "fix: two\n\nteam: core"),
    ];
    let (messages, merges) = extract_messages(&commits, &None);
    assert_eq!(messages.len(), 2);
    assert_eq!(messages[0].summary, "one");
    assert_eq!(ids(merges.ids()), vec!["m1"]);
    let (team_only, _) = extract_messages(&commits, &Some("core".to_string()));
    assert_eq!(team_only.len(), 1);
    assert_eq!(team_only[0].summary, "two");
    let (capital, _) = extract_messages(
        &vec![commit("c4", 1, "fix: x\n\nTeam: core")],
        &Some("core".to_string()),
    );
    assert!(capital.is_empty());
}

#[test]
fn sentinels_only_grow_across_branches() {
    let mut previous = RepositorySnapshot::new();
    previous.insert(BranchName::new("main".to_string()), CommitHash::new("old".to_string()));
    let mut run = RepositoryRun::new(
        RepositoryOrigin::new("o".to_string()),
        vec![BranchName::new("main".to_string()), BranchName::new("dev".to_string())],
        None,
        Some(&previous),
    );
    let (branch, hidden) = run.next_walk().unwrap();
    assert_eq!(branch.as_str(), "main");
    assert_eq!(ids(&hidden), vec!["old"]);
    run.record_walk(&vec![commit("m", 2, "Merge"), commit("a", 1, "feat: a")]);
    let (branch, hidden) = run.next_walk().unwrap();
    assert_eq!(branch.as_str(), "dev");
    assert_eq!(ids(&hidden), vec!["m", "old"]);
    run.record_walk(&vec![commit("n", 3, "Merge more")]);
    assert!(run.next_walk().is_none());
    assert_eq!(run.finish().len(), 1);
}

#[test]
fn merged_feature_commit_emitted_once() {
    // main: M merges feature into main; F is the commit unique to feature.
    let mut run = RepositoryRun::new(
        RepositoryOrigin::new("o".to_string()),
        vec![BranchName::new("main".to_string()), BranchName::new("feature".to_string())],
        None,
        None,
    );
    let (_, hidden) = run.next_walk().unwrap();
    assert!(hidden.is_empty());
    run.record_walk(&vec![
        commit("M", 2, "Merge branch 'feature'"),
        commit("F", 1, "feat: feature work"),
        commit("B", 1, "chore: base"),
    ]);
    let (branch, hidden) = run.next_walk().unwrap();
    assert_eq!(branch.as_str(), "feature");
    // Hiding M hides its ancestors, F among them: the walk of feature is empty.
    assert_eq!(ids(&hidden), vec!["M"]);
    run.record_walk(&vec![]);
    let entries = run.finish();
    let count = entries.iter().filter(|e| e.message().summary == "feature work").count();
    assert_eq!(count, 1);
    assert_eq!(entries.len(), 2);
}

#[test]
fn sentinel_set_union() {
    let mut a = Sentinels::new();
    a.insert(CommitHash::new("x".to_string()));
    a.insert(CommitHash::new("x".to_string()));
    let mut b = Sentinels::new();
    b.insert(CommitHash::new("y".to_string()));
    a.extend(&b);
    assert_eq!(ids(a.ids()), vec!["x", "y"]);
    assert!(a.contains(&CommitHash::new("y".to_string())));
    assert!(!a.contains(&CommitHash::new("z".to_string())));
}

#[test]
fn configured_branches_and_defaults() {
    let default = vec![default_branch()];
    assert_eq!(default[0].as_str(), "master");
    let bare = Project {
        name: "repo".to_string(),
        origin: RepositoryOrigin::new("git@example.com:user/repository.git".to_string()),
        branches: None,
        team: None,
    };
    let names = bare.get_branches_name(&default);
    assert_eq!(names.len(), 1);
    assert_eq!(names[0].as_str(), "master");
    let with = Project {
        name: "longer-name".to_string(),
        origin: RepositoryOrigin::new("o".to_string()),
        branches: Some(vec![
            BranchName::new("foo".to_string()),
            BranchName::new("bar".to_string()),
        ]),
        team: Some("X functional".to_string()),
    };
    let names = with.get_branches_name(&default);
    let names: Vec<&str> = names.iter().map(|b| b.as_str()).collect();
    assert_eq!(names, vec!["foo", "bar"]);
    let config = Configuration { default_branch: default_branch(), projects: vec![bare, with] };
    assert_eq!(config.get_branch_name_max_len(), 11);
    let empty = Configuration { default_branch: default_branch(), projects: vec![] };
    assert_eq!(empty.get_branch_name_max_len(), 0);
}
