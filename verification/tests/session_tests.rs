use envision::session::{
    count_untracked, is_critical_var, validate_var_name, EnvMap, OverwriteKind, PreviousKind,
    Session, TrackedChange, SESSION_VAR,
};
use envision::fingerprint::{generate_session_id, hash_value};
use envision::vars::VarMap;

fn test_env() -> EnvMap {
    let mut env = EnvMap::new();
    env.insert("FOO".to_string(), "bar".to_string());
    env.insert("PATH".to_string(), "/usr/bin".to_string());
    env
}

#[test]
fn new_session_hashes_baseline() {
    let env = test_env();
    let session = Session::new(&env, 1234, 1700000000);
    assert_eq!(session.baseline.len(), 2);
    assert_eq!(*session.baseline.get("FOO").unwrap(), hash_value("bar"));
    assert!(session.ledger.is_empty());
}

#[test]
fn encode_decode_roundtrip() {
    let env = test_env();
    let session = Session::new(&env, 1234, 1700000000);
    let encoded = session.encode().unwrap();
    let decoded = Session::decode(&encoded).unwrap();
    assert_eq!(session.id, decoded.id);
    assert_eq!(session.baseline, decoded.baseline);
}

#[test]
fn baseline_excludes_session_var() {
    let mut env = test_env();
    env.insert(SESSION_VAR.to_string(), "should_be_excluded".to_string());
    let session = Session::new(&env, 1234, 1700000000);
    assert!(!session.baseline.contains_key(SESSION_VAR));
}

#[test]
fn baseline_changed_detection() {
    let env = test_env();
    let session = Session::new(&env, 1234, 1700000000);
    assert!(!session.baseline_changed("FOO", "bar"));
    assert!(session.baseline_changed("FOO", "baz"));
    assert!(!session.baseline_changed("NONEXISTENT", "whatever"));
}

#[test]
fn session_id_is_8_hex_chars() {
    let id = generate_session_id(1234, 1700000000);
    assert_eq!(id.len(), 8);
    assert!(id.chars().all(|c| c.is_ascii_hexdigit()));
}

#[test]
fn different_inputs_produce_different_ids() {
    let a = generate_session_id(1234, 1700000000);
    let b = generate_session_id(1235, 1700000000);
    let c = generate_session_id(1234, 1700000001);
    assert_ne!(a, b);
    assert_ne!(a, c);
}

#[test]
fn valid_posix_var_names() {
    assert!(validate_var_name("FOO").is_ok());
    assert!(validate_var_name("_BAR").is_ok());
    assert!(validate_var_name("a1_2").is_ok());
    assert!(validate_var_name("_").is_ok());
}

#[test]
fn invalid_posix_var_names() {
    assert!(validate_var_name("").is_err());
    assert!(validate_var_name("1FOO").is_err());
    assert!(validate_var_name("FOO-BAR").is_err());
    assert!(validate_var_name("FOO.BAR").is_err());
    assert!(validate_var_name("FOO BAR").is_err());
}

#[test]
fn critical_vars_detected() {
    assert!(is_critical_var("PATH"));
    assert!(is_critical_var("HOME"));
    assert!(!is_critical_var("MY_CUSTOM_VAR"));
}

#[test]
fn track_set_new_variable() {
    let session = &mut Session::new(&EnvMap::new(), 1, 0);
    let result = session.track_set("FOO", "bar");
    assert!(result.previous.is_none());
    assert!(result.overwrite_kind.is_none());
    assert!(matches!(
        session.ledger.get("FOO"),
        Some(TrackedChange::Assign { value, previous: None }) if value == "bar"
    ));
}

#[test]
fn track_set_overwrites_tracked() {
    let session = &mut Session::new(&EnvMap::new(), 1, 0);
    session.track_set("FOO", "first");
    let result = session.track_set("FOO", "second");
    assert_eq!(result.previous.as_deref(), Some("first"));
    assert!(matches!(result.overwrite_kind, Some(OverwriteKind::Recorded)));
}

#[test]
fn track_unset_original_variable() {
    let env = test_env();
    let session = &mut Session::new(&env, 1234, 1700000000);
    // The baseline holds only fingerprints, so the prior value of an
    // original variable is not recoverable as text.
    let result = session.track_unset("FOO");
    assert!(result.previous.is_none());
    assert!(matches!(result.previous_kind, PreviousKind::Original));
}

#[test]
fn track_unset_tracked_variable() {
    let session = &mut Session::new(&EnvMap::new(), 1, 0);
    session.track_set("FOO", "bar");
    let result = session.track_unset("FOO");
    assert_eq!(result.previous.as_deref(), Some("bar"));
    assert!(matches!(result.previous_kind, PreviousKind::Recorded));
}

#[test]
fn track_unset_nonexistent_variable() {
    let session = &mut Session::new(&EnvMap::new(), 1, 0);
    let result = session.track_unset("FOO");
    assert!(result.previous.is_none());
    assert!(!session.ledger.contains_key("FOO"));
}

fn bare_session(baseline: VarMap<u64>, ledger: VarMap<TrackedChange>) -> Session {
    Session { id: "test".to_string(), created_at: 0, baseline, ledger }
}

#[test]
fn count_untracked_clean_when_matching() {
    let mut baseline = VarMap::new();
    baseline.insert("FOO".to_string(), hash_value("bar"));
    baseline.insert("BAZ".to_string(), hash_value("qux"));

    let session = bare_session(baseline, VarMap::new());

    let mut env = EnvMap::new();
    env.insert("FOO".to_string(), "bar".to_string());
    env.insert("BAZ".to_string(), "qux".to_string());

    assert_eq!(count_untracked(&session, &env), 0);
}

#[test]
fn count_untracked_detects_changed_value() {
    let mut baseline = VarMap::new();
    baseline.insert("FOO".to_string(), hash_value("bar"));

    let session = bare_session(baseline, VarMap::new());

    let mut env = EnvMap::new();
    env.insert("FOO".to_string(), "changed".to_string());

    assert_eq!(count_untracked(&session, &env), 1);
}

#[test]
fn count_untracked_detects_removed_var() {
    let mut baseline = VarMap::new();
    baseline.insert("FOO".to_string(), hash_value("bar"));

    let session = bare_session(baseline, VarMap::new());

    let env = EnvMap::new();

    assert_eq!(count_untracked(&session, &env), 1);
}

#[test]
fn count_untracked_detects_new_var() {
    let session = bare_session(VarMap::new(), VarMap::new());

    let mut env = EnvMap::new();
    env.insert("NEW_VAR".to_string(), "hello".to_string());

    assert_eq!(count_untracked(&session, &env), 1);
}

#[test]
fn count_untracked_ignores_envision_vars() {
    let session = bare_session(VarMap::new(), VarMap::new());

    let mut env = EnvMap::new();
    env.insert(SESSION_VAR.to_string(), "data".to_string());
    env.insert("ENVISION_PROFILE".to_string(), "dev".to_string());
    env.insert("ENVISION_DIRTY".to_string(), "0".to_string());
    env.insert("ENVISION_SESSION_ID".to_string(), "abc".to_string());
    env.insert("ENVISION_TRACKED".to_string(), "0".to_string());

    assert_eq!(count_untracked(&session, &env), 0);
}

#[test]
fn count_untracked_skips_tracked_vars() {
    let mut baseline = VarMap::new();
    baseline.insert("FOO".to_string(), hash_value("bar"));

    let mut ledger = VarMap::new();
    ledger.insert(
        "FOO".to_string(),
        TrackedChange::Assign { value: "changed".to_string(), previous: Some("bar".to_string()) },
    );

    let session = bare_session(baseline, ledger);

    let mut env = EnvMap::new();
    env.insert("FOO".to_string(), "changed".to_string());

    assert_eq!(count_untracked(&session, &env), 0);
}
