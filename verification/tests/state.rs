use guck::state::{Comment, ScopeState, StateManager};

const REPO: &str = "/tmp/r";

fn comment(id: &str, file_path: &str, resolved: bool) -> Comment {
    Comment {
        id: id.to_string(),
        file_path: file_path.to_string(),
        line_number: None,
        text: "restored".to_string(),
        timestamp: 5,
        branch: "main".to_string(),
        commit: "abc123".to_string(),
        resolved,
    }
}

#[test]
fn nothing_is_viewed_in_an_empty_store() {
    let store = StateManager::new();
    assert!(!store.is_file_viewed(REPO, "main", "abc123", "a.txt"));
    assert!(store.scopes().is_empty());
}

#[test]
fn mark_then_is_viewed() {
    let mut store = StateManager::new();
    store.mark_file_viewed(REPO, "main", "abc123", "a.txt");
    assert!(store.is_file_viewed(REPO, "main", "abc123", "a.txt"));
    assert!(!store.is_file_viewed(REPO, "main", "abc123", "b.txt"));
    assert!(!store.is_file_viewed(REPO, "main", "abc123", "a.tx"));
}

#[test]
fn unmark_then_is_not_viewed() {
    let mut store = StateManager::new();
    store.mark_file_viewed(REPO, "main", "abc123", "a.txt");
    store.mark_file_viewed(REPO, "main", "abc123", "b.txt");
    store.unmark_file_viewed(REPO, "main", "abc123", "a.txt");
    assert!(!store.is_file_viewed(REPO, "main", "abc123", "a.txt"));
    assert!(store.is_file_viewed(REPO, "main", "abc123", "b.txt"));
}

#[test]
fn marking_twice_is_a_no_op_the_second_time() {
    let mut store = StateManager::new();
    store.mark_file_viewed(REPO, "main", "abc123", "a.txt");
    store.mark_file_viewed(REPO, "main", "abc123", "a.txt");
    assert_eq!(store.scopes().len(), 1);
    assert_eq!(store.scopes()[0].viewed_files, vec!["a.txt".to_string()]);
}

#[test]
fn unmarking_twice_is_a_no_op_the_second_time() {
    let mut store = StateManager::new();
    store.mark_file_viewed(REPO, "main", "abc123", "a.txt");
    store.mark_file_viewed(REPO, "main", "abc123", "b.txt");
    store.unmark_file_viewed(REPO, "main", "abc123", "a.txt");
    store.unmark_file_viewed(REPO, "main", "abc123", "a.txt");
    assert_eq!(store.scopes()[0].viewed_files, vec!["b.txt".to_string()]);
}

#[test]
fn unmarking_in_an_unknown_scope_creates_nothing() {
    let mut store = StateManager::new();
    store.unmark_file_viewed(REPO, "main", "abc123", "a.txt");
    assert!(store.scopes().is_empty());
    store.mark_file_viewed(REPO, "main", "abc123", "a.txt");
    store.unmark_file_viewed(REPO, "main", "other", "a.txt");
    assert_eq!(store.scopes().len(), 1);
    assert!(store.is_file_viewed(REPO, "main", "abc123", "a.txt"));
}

#[test]
fn marking_creates_the_scope_record_on_demand() {
    let mut store = StateManager::new();
    store.mark_file_viewed(REPO, "main", "abc123", "a.txt");
    let scopes = store.scopes();
    assert_eq!(scopes.len(), 1);
    assert_eq!(scopes[0].repo_path, REPO);
    assert_eq!(scopes[0].branch, "main");
    assert_eq!(scopes[0].commit, "abc123");
    assert!(scopes[0].comments.is_empty());
}

#[test]
fn viewed_files_keep_their_order() {
    let mut store = StateManager::new();
    for file in ["c.txt", "a.txt", "b.txt", "a.txt"] {
        store.mark_file_viewed(REPO, "main", "abc123", file);
    }
    store.unmark_file_viewed(REPO, "main", "abc123", "a.txt");
    assert_eq!(
        store.scopes()[0].viewed_files,
        vec!["c.txt".to_string(), "b.txt".to_string()]
    );
}

#[test]
fn switching_commit_hides_state_and_returning_shows_it_again() {
    let mut store = StateManager::new();
    store.mark_file_viewed(REPO, "main", "aaa", "a.txt");
    store.add_comment_at(REPO, "main", "aaa", "a.txt", Some(1), "on a".to_string(), 10);
    assert!(!store.is_file_viewed(REPO, "main", "bbb", "a.txt"));
    assert!(store.get_comments(REPO, "main", "bbb", None).is_empty());
    store.mark_file_viewed(REPO, "main", "bbb", "b.txt");
    store.unmark_file_viewed(REPO, "main", "bbb", "a.txt");
    store.add_comment_at(REPO, "main", "bbb", "b.txt", None, "on b".to_string(), 11);
    store.resolve_comment(REPO, "main", "bbb", "10-0");
    assert!(store.is_file_viewed(REPO, "main", "aaa", "a.txt"));
    assert!(!store.is_file_viewed(REPO, "main", "aaa", "b.txt"));
    let back = store.get_comments(REPO, "main", "aaa", None);
    assert_eq!(back.len(), 1);
    assert_eq!(back[0].text, "on a");
    assert!(!back[0].resolved);
}

#[test]
fn switching_branch_or_repository_hides_state() {
    let mut store = StateManager::new();
    store.mark_file_viewed(REPO, "main", "aaa", "a.txt");
    assert!(!store.is_file_viewed(REPO, "feature", "aaa", "a.txt"));
    assert!(!store.is_file_viewed("/tmp/other", "main", "aaa", "a.txt"));
    assert!(!store.is_file_viewed("main", REPO, "aaa", "a.txt"));
    assert!(store.is_file_viewed(REPO, "main", "aaa", "a.txt"));
}

#[test]
fn added_comment_has_the_given_fields() {
    let mut store = StateManager::new();
    let added = store.add_comment_at(
        REPO,
        "main",
        "abc123",
        "src/lib.rs",
        Some(12),
        "why?".to_string(),
        1_700_000_000,
    );
    assert_eq!(added.id, "1700000000-0");
    assert_eq!(added.file_path, "src/lib.rs");
    assert_eq!(added.line_number, Some(12));
    assert_eq!(added.text, "why?");
    assert_eq!(added.timestamp, 1_700_000_000);
    assert_eq!(added.branch, "main");
    assert_eq!(added.commit, "abc123");
    assert!(!added.resolved);
}

#[test]
fn comment_ids_count_up_within_a_scope() {
    let mut store = StateManager::new();
    let first = store.add_comment_at(REPO, "main", "abc123", "a.txt", None, "1".to_string(), 7);
    let second = store.add_comment_at(REPO, "main", "abc123", "b.txt", None, "2".to_string(), 7);
    let elsewhere = store.add_comment_at(REPO, "main", "def456", "a.txt", None, "3".to_string(), 7);
    let third = store.add_comment_at(REPO, "main", "abc123", "a.txt", None, "4".to_string(), 123);
    assert_eq!(first.id, "7-0");
    assert_eq!(second.id, "7-1");
    assert_eq!(elsewhere.id, "7-0");
    assert_eq!(third.id, "123-2");
}

#[test]
fn add_then_get_includes_the_new_comment_unresolved() {
    let mut store = StateManager::new();
    let added = store.add_comment_at(REPO, "main", "abc123", "a.txt", Some(3), "hi".to_string(), 9);
    let listed = store.get_comments(REPO, "main", "abc123", None);
    assert_eq!(listed.len(), 1);
    assert_eq!(listed[0].id, added.id);
    assert_eq!(listed[0].text, "hi");
    assert_eq!(listed[0].line_number, Some(3));
    assert!(!listed[0].resolved);
}

#[test]
fn add_comment_stamps_the_current_time() {
    let mut store = StateManager::new();
    let added = store
        .add_comment(REPO, "main", "abc123", "a.txt", None, "now".to_string())
        .unwrap();
    assert!(added.timestamp > 1_600_000_000);
    assert_eq!(added.id, format!("{}-0", added.timestamp));
    assert!(!added.resolved);
    let listed = store.get_comments(REPO, "main", "abc123", None);
    assert_eq!(listed.len(), 1);
    assert_eq!(listed[0].id, added.id);
    assert_eq!(listed[0].timestamp, added.timestamp);
}

#[test]
fn resolve_sets_resolved_and_leaves_other_fields() {
    let mut store = StateManager::new();
    store.add_comment_at(REPO, "main", "abc123", "a.txt", Some(1), "one".to_string(), 5);
    let target = store.add_comment_at(REPO, "main", "abc123", "b.txt", Some(2), "two".to_string(), 6);
    store.add_comment_at(REPO, "main", "abc123", "c.txt", None, "three".to_string(), 7);
    store.resolve_comment(REPO, "main", "abc123", &target.id);
    let listed = store.get_comments(REPO, "main", "abc123", None);
    assert_eq!(listed.len(), 3);
    assert!(!listed[0].resolved);
    assert!(listed[1].resolved);
    assert!(!listed[2].resolved);
    assert_eq!(listed[1].id, "6-1");
    assert_eq!(listed[1].file_path, "b.txt");
    assert_eq!(listed[1].line_number, Some(2));
    assert_eq!(listed[1].text, "two");
    assert_eq!(listed[1].timestamp, 6);
    assert_eq!(listed[1].branch, "main");
    assert_eq!(listed[1].commit, "abc123");
}

#[test]
fn resolving_twice_is_safe() {
    let mut store = StateManager::new();
    let added = store.add_comment_at(REPO, "main", "abc123", "a.txt", None, "x".to_string(), 5);
    store.resolve_comment(REPO, "main", "abc123", &added.id);
    store.resolve_comment(REPO, "main", "abc123", &added.id);
    let listed = store.get_comments(REPO, "main", "abc123", None);
    assert_eq!(listed.len(), 1);
    assert!(listed[0].resolved);
}

#[test]
fn resolving_an_unknown_comment_or_scope_changes_nothing() {
    let mut store = StateManager::new();
    store.resolve_comment(REPO, "main", "abc123", "5-0");
    assert!(store.scopes().is_empty());
    store.add_comment_at(REPO, "main", "abc123", "a.txt", None, "x".to_string(), 5);
    store.resolve_comment(REPO, "main", "abc123", "5-1");
    store.resolve_comment(REPO, "main", "other", "5-0");
    let listed = store.get_comments(REPO, "main", "abc123", None);
    assert_eq!(listed.len(), 1);
    assert!(!listed[0].resolved);
    assert_eq!(store.scopes().len(), 1);
}

#[test]
fn resolve_takes_the_first_comment_with_the_id() {
    let mut store = StateManager::new();
    store.restore_scope(ScopeState {
        repo_path: REPO.to_string(),
        branch: "main".to_string(),
        commit: "abc123".to_string(),
        viewed_files: Vec::new(),
        comments: vec![
            comment("x", "a.txt", false),
            comment("dup", "b.txt", false),
            comment("dup", "c.txt", false),
        ],
    });
    store.resolve_comment(REPO, "main", "abc123", "dup");
    let listed = store.get_comments(REPO, "main", "abc123", None);
    assert!(!listed[0].resolved);
    assert!(listed[1].resolved);
    assert!(!listed[2].resolved);
}

#[test]
fn filter_returns_exactly_the_comments_on_the_file_in_order() {
    let mut store = StateManager::new();
    let files = ["a.txt", "b.txt", "a.txt", "c.txt", "a.txt", "b.txt"];
    for (i, file) in files.iter().enumerate() {
        store.add_comment_at(REPO, "main", "abc123", file, None, format!("n{}", i), 100);
    }
    let on_a = store.get_comments(REPO, "main", "abc123", Some("a.txt"));
    let texts: Vec<&str> = on_a.iter().map(|c| c.text.as_str()).collect();
    assert_eq!(texts, vec!["n0", "n2", "n4"]);
    assert!(on_a.iter().all(|c| c.file_path == "a.txt"));
    let on_b = store.get_comments(REPO, "main", "abc123", Some("b.txt"));
    let ids: Vec<&str> = on_b.iter().map(|c| c.id.as_str()).collect();
    assert_eq!(ids, vec!["100-1", "100-5"]);
    assert!(store.get_comments(REPO, "main", "abc123", Some("d.txt")).is_empty());
    assert!(store.get_comments(REPO, "main", "abc123", Some("a.tx")).is_empty());
    assert_eq!(store.get_comments(REPO, "main", "abc123", None).len(), 6);
}

#[test]
fn comments_of_an_unknown_scope_are_empty() {
    let store = StateManager::new();
    assert!(store.get_comments(REPO, "main", "abc123", None).is_empty());
    assert!(store.get_comments(REPO, "main", "abc123", Some("a.txt")).is_empty());
}

#[test]
fn restore_scope_sets_the_record_of_its_key() {
    let mut store = StateManager::new();
    store.restore_scope(ScopeState {
        repo_path: REPO.to_string(),
        branch: "main".to_string(),
        commit: "abc123".to_string(),
        viewed_files: vec!["a.txt".to_string()],
        comments: vec![comment("5-0", "a.txt", true)],
    });
    assert!(store.is_file_viewed(REPO, "main", "abc123", "a.txt"));
    let listed = store.get_comments(REPO, "main", "abc123", None);
    assert_eq!(listed.len(), 1);
    assert!(listed[0].resolved);
    store.restore_scope(ScopeState {
        repo_path: REPO.to_string(),
        branch: "main".to_string(),
        commit: "abc123".to_string(),
        viewed_files: vec!["b.txt".to_string()],
        comments: Vec::new(),
    });
    assert_eq!(store.scopes().len(), 1);
    assert!(!store.is_file_viewed(REPO, "main", "abc123", "a.txt"));
    assert!(store.is_file_viewed(REPO, "main", "abc123", "b.txt"));
}

#[test]
fn restored_duplicates_are_all_removed_by_unmark() {
    let mut store = StateManager::new();
    store.restore_scope(ScopeState {
        repo_path: REPO.to_string(),
        branch: "main".to_string(),
        commit: "abc123".to_string(),
        viewed_files: vec!["a.txt".to_string(), "b.txt".to_string(), "a.txt".to_string()],
        comments: Vec::new(),
    });
    store.unmark_file_viewed(REPO, "main", "abc123", "a.txt");
    assert!(!store.is_file_viewed(REPO, "main", "abc123", "a.txt"));
    assert_eq!(store.scopes()[0].viewed_files, vec!["b.txt".to_string()]);
}

#[test]
fn comment_clone_copies_every_field() {
    let original = Comment {
        id: "9-4".to_string(),
        file_path: "a.txt".to_string(),
        line_number: Some(8),
        text: "t".to_string(),
        timestamp: 9,
        branch: "b".to_string(),
        commit: "c".to_string(),
        resolved: true,
    };
    let copy = original.clone();
    assert_eq!(copy.id, "9-4");
    assert_eq!(copy.file_path, "a.txt");
    assert_eq!(copy.line_number, Some(8));
    assert_eq!(copy.text, "t");
    assert_eq!(copy.timestamp, 9);
    assert_eq!(copy.branch, "b");
    assert_eq!(copy.commit, "c");
    assert!(copy.resolved);
}

#[test]
fn restore_scope_keeps_each_viewed_path_once() {
    let mut store = StateManager::new();
    store.restore_scope(ScopeState {
        repo_path: REPO.to_string(),
        branch: "main".to_string(),
        commit: "abc123".to_string(),
        viewed_files: vec![
            "a.txt".to_string(),
            "b.txt".to_string(),
            "a.txt".to_string(),
            "c.txt".to_string(),
            "b.txt".to_string(),
        ],
        comments: vec![comment("5-0", "a.txt", false)],
    });
    assert_eq!(
        store.scopes()[0].viewed_files,
        vec!["a.txt".to_string(), "b.txt".to_string(), "c.txt".to_string()]
    );
    assert_eq!(store.scopes()[0].comments.len(), 1);
    assert!(store.is_file_viewed(REPO, "main", "abc123", "a.txt"));
    assert!(store.is_file_viewed(REPO, "main", "abc123", "c.txt"));
}
