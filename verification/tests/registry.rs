use guck::registry::{DaemonInfo, DaemonRegistry};

fn info(pid: u32, port: u16, repo_path: &str, base_branch: &str) -> DaemonInfo {
    DaemonInfo {
        pid,
        port,
        repo_path: repo_path.to_string(),
        base_branch: base_branch.to_string(),
    }
}

#[test]
fn new_registry_is_empty() {
    let registry = DaemonRegistry::new();
    assert_eq!(registry.len(), 0);
    assert!(registry.get("/tmp/r").is_none());
    assert!(registry.list().is_empty());
    assert!(!registry.uses_port(3000));
}

#[test]
fn insert_then_get_returns_the_record() {
    let mut registry = DaemonRegistry::new();
    registry.insert(info(10, 3000, "/tmp/a", "main"));
    registry.insert(info(11, 3001, "/tmp/b", "develop"));
    let found = registry.get("/tmp/b").expect("registered");
    assert_eq!(found.pid, 11);
    assert_eq!(found.port, 3001);
    assert_eq!(found.repo_path, "/tmp/b");
    assert_eq!(found.base_branch, "develop");
    assert!(registry.get("/tmp/c").is_none());
    assert!(registry.get("/tmp/").is_none());
    assert!(registry.get("/tmp/bb").is_none());
}

#[test]
fn insert_replaces_the_record_of_the_same_repository_in_place() {
    let mut registry = DaemonRegistry::new();
    registry.insert(info(10, 3000, "/tmp/a", "main"));
    registry.insert(info(11, 3001, "/tmp/b", "main"));
    registry.insert(info(12, 3005, "/tmp/a", "release"));
    assert_eq!(registry.len(), 2);
    let listed = registry.list();
    assert_eq!(listed[0].repo_path, "/tmp/a");
    assert_eq!(listed[0].pid, 12);
    assert_eq!(listed[0].port, 3005);
    assert_eq!(listed[0].base_branch, "release");
    assert_eq!(listed[1].repo_path, "/tmp/b");
    assert!(!registry.uses_port(3000));
    assert!(registry.uses_port(3005));
}

#[test]
fn remove_drops_only_the_named_repository() {
    let mut registry = DaemonRegistry::new();
    registry.insert(info(10, 3000, "/tmp/a", "main"));
    registry.insert(info(11, 3001, "/tmp/b", "main"));
    registry.insert(info(12, 3002, "/tmp/c", "main"));
    registry.remove("/tmp/b");
    assert_eq!(registry.len(), 2);
    assert!(registry.get("/tmp/b").is_none());
    assert_eq!(registry.get("/tmp/a").unwrap().pid, 10);
    assert_eq!(registry.get("/tmp/c").unwrap().pid, 12);
    let listed = registry.list();
    assert_eq!(listed[0].repo_path, "/tmp/a");
    assert_eq!(listed[1].repo_path, "/tmp/c");
}

#[test]
fn remove_of_an_unknown_repository_changes_nothing() {
    let mut registry = DaemonRegistry::new();
    registry.insert(info(10, 3000, "/tmp/a", "main"));
    registry.remove("/tmp/zzz");
    assert_eq!(registry.len(), 1);
    assert_eq!(registry.get("/tmp/a").unwrap().port, 3000);
}

#[test]
fn retain_alive_drops_exactly_the_flagged_records() {
    let mut registry = DaemonRegistry::new();
    registry.insert(info(10, 3000, "/tmp/a", "main"));
    registry.insert(info(11, 3001, "/tmp/b", "main"));
    registry.insert(info(12, 3002, "/tmp/c", "main"));
    registry.insert(info(13, 3003, "/tmp/d", "main"));
    registry.retain_alive(&vec![true, false, false, true]);
    let listed = registry.list();
    assert_eq!(listed.len(), 2);
    assert_eq!(listed[0].repo_path, "/tmp/a");
    assert_eq!(listed[0].pid, 10);
    assert_eq!(listed[1].repo_path, "/tmp/d");
    assert_eq!(listed[1].pid, 13);
}

#[test]
fn retain_alive_keeps_records_without_an_answer() {
    let mut registry = DaemonRegistry::new();
    registry.insert(info(10, 3000, "/tmp/a", "main"));
    registry.insert(info(11, 3001, "/tmp/b", "main"));
    registry.insert(info(12, 3002, "/tmp/c", "main"));
    registry.retain_alive(&vec![false]);
    let listed = registry.list();
    assert_eq!(listed.len(), 2);
    assert_eq!(listed[0].repo_path, "/tmp/b");
    assert_eq!(listed[1].repo_path, "/tmp/c");
    registry.retain_alive(&vec![true, true, false, false]);
    assert_eq!(registry.len(), 2);
}

#[test]
fn url_names_the_port_on_localhost() {
    assert_eq!(info(1, 3000, "/tmp/a", "main").url(), "http://localhost:3000");
    assert_eq!(info(1, 0, "/tmp/a", "main").url(), "http://localhost:0");
    assert_eq!(info(1, 65535, "/tmp/a", "main").url(), "http://localhost:65535");
}

#[test]
fn clone_copies_every_field() {
    let original = info(77, 3123, "/srv/repo", "trunk");
    let copy = original.clone();
    assert_eq!(copy.pid, 77);
    assert_eq!(copy.port, 3123);
    assert_eq!(copy.repo_path, "/srv/repo");
    assert_eq!(copy.base_branch, "trunk");
}

#[test]
fn repositories_are_told_apart_character_by_character() {
    let mut registry = DaemonRegistry::new();
    registry.insert(info(1, 3000, "/tmp/café", "main"));
    registry.insert(info(2, 3001, "/tmp/cafe", "main"));
    registry.insert(info(3, 3002, "", "main"));
    assert_eq!(registry.len(), 3);
    assert_eq!(registry.get("/tmp/café").unwrap().pid, 1);
    assert_eq!(registry.get("/tmp/cafe").unwrap().pid, 2);
    assert_eq!(registry.get("").unwrap().pid, 3);
    assert!(registry.get("/tmp/caf").is_none());
    assert!(registry.get("/tmp/cafés").is_none());
    assert!(registry.get("/tmp/cafè").is_none());
}
