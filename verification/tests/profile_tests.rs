use envision::profile::{compute_diff, validate_extension, EnvChange};
use envision::session::{EnvMap, SESSION_VAR};

#[test]
fn valid_extensions() {
    assert!(validate_extension("dev.profile.sh").is_ok());
    assert!(validate_extension("prod.envision").is_ok());
    assert!(validate_extension("/home/user/my.profile.sh").is_ok());
}

#[test]
fn invalid_extensions() {
    assert!(validate_extension("dev.sh").is_err());
    assert!(validate_extension("dev.env").is_err());
    assert!(validate_extension("profile").is_err());
    assert!(validate_extension("dev.txt").is_err());
}

#[test]
fn diff_detects_added_var() {
    let before = EnvMap::new();
    let mut after = EnvMap::new();
    after.insert("NEW".to_string(), "value".to_string());

    let changes = compute_diff(&before, &after);
    assert_eq!(changes.len(), 1);
    assert!(matches!(&changes[0], EnvChange::Assign(k, v) if k == "NEW" && v == "value"));
}

#[test]
fn diff_detects_changed_var() {
    let mut before = EnvMap::new();
    before.insert("FOO".to_string(), "old".to_string());
    let mut after = EnvMap::new();
    after.insert("FOO".to_string(), "new".to_string());

    let changes = compute_diff(&before, &after);
    assert_eq!(changes.len(), 1);
    assert!(matches!(&changes[0], EnvChange::Assign(k, v) if k == "FOO" && v == "new"));
}

#[test]
fn diff_detects_removed_var() {
    let mut before = EnvMap::new();
    before.insert("GONE".to_string(), "value".to_string());
    let after = EnvMap::new();

    let changes = compute_diff(&before, &after);
    assert_eq!(changes.len(), 1);
    assert!(matches!(&changes[0], EnvChange::Unset(k) if k == "GONE"));
}

#[test]
fn diff_ignores_unchanged() {
    let mut before = EnvMap::new();
    before.insert("SAME".to_string(), "value".to_string());
    let mut after = EnvMap::new();
    after.insert("SAME".to_string(), "value".to_string());

    let changes = compute_diff(&before, &after);
    assert!(changes.is_empty());
}

#[test]
fn diff_skips_noise_vars() {
    let before = EnvMap::new();
    let mut after = EnvMap::new();
    after.insert("_".to_string(), "/usr/bin/env".to_string());
    after.insert("SHLVL".to_string(), "2".to_string());
    after.insert("BASH_EXECUTION_STRING".to_string(), "source ...".to_string());
    after.insert(SESSION_VAR.to_string(), "data".to_string());

    let changes = compute_diff(&before, &after);
    assert!(changes.is_empty());
}
