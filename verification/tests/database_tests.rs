use github_graph::database::IssueDatabase;
use github_graph::fetching::{progress_due, repo_full_name};
use github_graph::model::{issue_times_of, ClosedReason, Issue, IssueKey, IssueTimes, PullRequest, StateChangeKind};

fn key(repo: &str, number: u64) -> IssueKey {
    IssueKey { repo: repo.to_string(), number }
}

fn issue(repo: &str, number: u64, title: &str) -> Issue {
    Issue {
        repo: repo.to_string(),
        author: "someone".to_string(),
        number,
        title: title.to_string(),
        created_at: 1000 + number as i64,
        closed_at: None,
        closed_reason: None,
        pr: None,
    }
}

fn keys(entries: &[(IssueKey, Issue)]) -> Vec<(String, u64)> {
    entries.iter().map(|(k, _)| (k.repo.clone(), k.number)).collect()
}

#[test]
fn insert_then_get_gives_the_issue_back() {
    let mut db = IssueDatabase::new();
    assert_eq!(db.len(), 0);
    db.insert(key("gfx-rs/wgpu", 1), issue("gfx-rs/wgpu", 1, "first"));
    db.insert(key("gfx-rs/naga", 1), issue("gfx-rs/naga", 1, "other repo"));
    assert_eq!(db.len(), 2);
    assert!(db.contains_key(&key("gfx-rs/wgpu", 1)));
    assert!(!db.contains_key(&key("gfx-rs/wgpu", 2)));
    assert_eq!(db.get(&key("gfx-rs/wgpu", 1)).unwrap().title, "first");
    assert_eq!(db.get(&key("gfx-rs/naga", 1)).unwrap().title, "other repo");
    assert!(db.get(&key("gfx-rs/naga", 2)).is_none());
}

#[test]
fn insert_replaces_the_issue_under_the_same_key() {
    let mut db = IssueDatabase::new();
    db.insert(key("r", 7), issue("r", 7, "old"));
    db.insert(key("r", 7), issue("r", 7, "new"));
    assert_eq!(db.len(), 1);
    assert_eq!(db.get(&key("r", 7)).unwrap().title, "new");
}

#[test]
fn loading_keeps_the_last_entry_of_a_key() {
    let db = IssueDatabase::from_serialized(vec![
        (key("r", 1), issue("r", 1, "a")),
        (key("r", 2), issue("r", 2, "b")),
        (key("r", 1), issue("r", 1, "c")),
    ]);
    assert_eq!(db.len(), 2);
    assert_eq!(db.get(&key("r", 1)).unwrap().title, "c");
    assert_eq!(db.get(&key("r", 2)).unwrap().title, "b");
}

#[test]
fn saving_orders_entries_by_repository_then_number() {
    let mut db = IssueDatabase::new();
    for (repo, number) in [("gfx-rs/wgpu", 5), ("gfx-rs/naga", 9), ("gfx-rs/wgpu", 2), ("a", 100), ("Zed", 3), ("é", 1), ("z", 1)] {
        db.insert(key(repo, number), issue(repo, number, "t"));
    }
    let entries = db.into_serialized();
    assert_eq!(
        keys(&entries),
        vec![
            ("Zed".to_string(), 3),
            ("a".to_string(), 100),
            ("gfx-rs/naga".to_string(), 9),
            ("gfx-rs/wgpu".to_string(), 2),
            ("gfx-rs/wgpu".to_string(), 5),
            ("z".to_string(), 1),
            ("é".to_string(), 1),
        ]
    );
    let mut std_sorted = keys(&entries);
    std_sorted.sort();
    assert_eq!(keys(&entries), std_sorted);
}

#[test]
fn saving_and_loading_gives_the_same_database() {
    let mut db = IssueDatabase::new();
    db.insert(key("b", 2), issue("b", 2, "two"));
    db.insert(key("a", 1), issue("a", 1, "one"));
    db.insert(key("b", 1), issue("b", 1, "three"));
    let loaded = IssueDatabase::from_serialized(db.into_serialized());
    assert_eq!(loaded.len(), 3);
    assert_eq!(loaded.get(&key("b", 2)).unwrap().title, "two");
    assert_eq!(loaded.get(&key("a", 1)).unwrap().title, "one");
    assert_eq!(loaded.get(&key("b", 1)).unwrap().title, "three");
    let again = loaded.into_serialized();
    assert_eq!(keys(&again), vec![("a".to_string(), 1), ("b".to_string(), 1), ("b".to_string(), 2)]);
}

#[test]
fn attaching_a_pull_request_keeps_the_rest_of_the_issue() {
    let mut db = IssueDatabase::new();
    db.insert(key("r", 3), issue("r", 3, "feature"));
    db.attach_pull_request(&key("r", 3), PullRequest { draft: true, merged: false });
    let stored = db.get(&key("r", 3)).unwrap();
    assert_eq!(stored.pr, Some(PullRequest { draft: true, merged: false }));
    assert_eq!(stored.title, "feature");
    assert_eq!(db.len(), 1);
}

#[test]
fn recording_fetched_issues_and_pull_requests() {
    let repo = repo_full_name("gfx-rs", "wgpu");
    assert_eq!(repo, "gfx-rs/wgpu");
    let mut db = IssueDatabase::new();
    db.record_issue(&repo, 12, "me".to_string(), "crash".to_string(), 50, Some(80), Some(ClosedReason::Completed));
    db.record_issue(&repo, 13, "you".to_string(), "pr".to_string(), 60, None, None);
    db.record_pull_request(&repo, 13, None, Some(true));
    let i12 = db.get(&key("gfx-rs/wgpu", 12)).unwrap();
    assert_eq!(i12.repo, "gfx-rs/wgpu");
    assert_eq!(i12.author, "me");
    assert_eq!(i12.closed_at, Some(80));
    assert_eq!(i12.closed_reason, Some(ClosedReason::Completed));
    assert_eq!(i12.pr, None);
    let i13 = db.get(&key("gfx-rs/wgpu", 13)).unwrap();
    assert_eq!(i13.pr, Some(PullRequest { draft: false, merged: true }));
}

#[test]
fn progress_is_reported_every_hundred_items() {
    assert!(progress_due(0));
    assert!(!progress_due(1));
    assert!(!progress_due(99));
    assert!(progress_due(100));
    assert!(progress_due(300));
}

#[test]
fn issue_event_timestamps() {
    let mut i = issue("r", 1, "t");
    assert!(i.has_event_timestamp(StateChangeKind::Open));
    assert!(!i.has_event_timestamp(StateChangeKind::Close));
    assert_eq!(i.event_timestamp(StateChangeKind::Open), 1001);
    i.closed_at = Some(2000);
    assert!(i.has_event_timestamp(StateChangeKind::Close));
    assert_eq!(i.event_timestamp(StateChangeKind::Close), 2000);
}

#[test]
fn issue_kinds_and_key() {
    let mut i = issue("r", 4, "t");
    assert!(i.is_issue());
    assert!(!i.is_non_draft_pr());
    i.pr = Some(PullRequest { draft: true, merged: false });
    assert!(!i.is_issue());
    assert!(!i.is_non_draft_pr());
    i.pr = Some(PullRequest { draft: false, merged: false });
    assert!(i.is_non_draft_pr());
    let k = i.key();
    assert_eq!(k.repo, "r");
    assert_eq!(k.number, 4);
    assert_eq!(i.times(), IssueTimes { number: 4, created_at: 1004, closed_at: None });
}

#[test]
fn times_split_issues_from_pull_requests() {
    let mut pr = issue("r", 2, "p");
    pr.pr = Some(PullRequest { draft: false, merged: true });
    let issues = vec![issue("r", 1, "a"), pr, issue("r", 3, "c")];
    let plain: Vec<u64> = issue_times_of(&issues, false).iter().map(|t| t.number).collect();
    let prs: Vec<u64> = issue_times_of(&issues, true).iter().map(|t| t.number).collect();
    assert_eq!(plain, vec![1, 3]);
    assert_eq!(prs, vec![2]);
}

#[test]
fn saving_the_same_contents_gives_the_same_list() {
    let mut a = IssueDatabase::new();
    a.insert(key("gfx-rs/wgpu", 7), issue("gfx-rs/wgpu", 7, "seven"));
    a.insert(key("gfx-rs/naga", 2), issue("gfx-rs/naga", 2, "two"));
    a.insert(key("gfx-rs/wgpu", 3), issue("gfx-rs/wgpu", 3, "three"));
    let mut b = IssueDatabase::new();
    b.insert(key("gfx-rs/wgpu", 3), issue("gfx-rs/wgpu", 3, "three"));
    b.insert(key("gfx-rs/wgpu", 7), issue("gfx-rs/wgpu", 7, "old seven"));
    b.insert(key("gfx-rs/naga", 2), issue("gfx-rs/naga", 2, "two"));
    b.insert(key("gfx-rs/wgpu", 7), issue("gfx-rs/wgpu", 7, "seven"));
    let sa = a.into_serialized();
    let sb = b.into_serialized();
    assert_eq!(keys(&sa), keys(&sb));
    let titles_a: Vec<String> = sa.iter().map(|(_, i)| i.title.clone()).collect();
    let titles_b: Vec<String> = sb.iter().map(|(_, i)| i.title.clone()).collect();
    assert_eq!(titles_a, titles_b);
    assert_eq!(titles_a, vec!["two".to_string(), "three".to_string(), "seven".to_string()]);
}

#[test]
fn loading_a_saved_list_and_saving_again_gives_it_back() {
    let saved = vec![
        (key("gfx-rs/naga", 4), issue("gfx-rs/naga", 4, "four")),
        (key("gfx-rs/wgpu", 1), issue("gfx-rs/wgpu", 1, "one")),
        (key("gfx-rs/wgpu", 12), issue("gfx-rs/wgpu", 12, "twelve")),
    ];
    let expected_keys = keys(&saved);
    let expected_titles: Vec<String> = saved.iter().map(|(_, i)| i.title.clone()).collect();
    let again = IssueDatabase::from_serialized(saved).into_serialized();
    assert_eq!(keys(&again), expected_keys);
    let titles: Vec<String> = again.iter().map(|(_, i)| i.title.clone()).collect();
    assert_eq!(titles, expected_titles);
}
