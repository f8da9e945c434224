use guck::config::{default_base_branch, Config};
use guck::error::ErrorKind;

#[test]
fn default_base_branch_is_main() {
    assert_eq!(default_base_branch(), "main");
}

#[test]
fn default_config_names_no_base_branch() {
    assert_eq!(Config::default().base_branch, "");
}

#[test]
fn get_reads_the_base_branch() {
    let config = Config { base_branch: "develop".to_string() };
    assert_eq!(config.get("base-branch"), Ok("develop".to_string()));
}

#[test]
fn get_rejects_an_unknown_key() {
    let config = Config { base_branch: "develop".to_string() };
    assert_eq!(config.get("base_branch"), Err(ErrorKind::NotFound));
    assert_eq!(config.get(""), Err(ErrorKind::NotFound));
}

#[test]
fn set_stores_the_base_branch() {
    let mut config = Config::default();
    assert_eq!(config.set("base-branch", "trunk".to_string()), Ok(()));
    assert_eq!(config.base_branch, "trunk");
}

#[test]
fn set_rejects_an_unknown_key_and_changes_nothing() {
    let mut config = Config { base_branch: "main".to_string() };
    assert_eq!(config.set("port", "3000".to_string()), Err(ErrorKind::NotFound));
    assert_eq!(config.base_branch, "main");
}

#[test]
fn show_prints_key_and_value() {
    let config = Config { base_branch: "main".to_string() };
    assert_eq!(config.show(), "base-branch = main");
}

#[test]
fn effective_base_branch_prefers_the_override() {
    let config = Config { base_branch: "main".to_string() };
    assert_eq!(config.effective_base_branch(Some("release".to_string())), "release");
    let config = Config { base_branch: "main".to_string() };
    assert_eq!(config.effective_base_branch(None), "main");
}
