use envision::fingerprint::hash_value;
use envision::session::{count_untracked, EnvMap, Session, TrackedChange, SESSION_VAR};
use envision::timefmt::format_timestamp;
use envision::vars::VarMap;

fn bare_session(baseline: VarMap<u64>, ledger: VarMap<TrackedChange>) -> Session {
    Session { id: "test".to_string(), created_at: 0, baseline, ledger }
}

#[test]
fn format_timestamp_known_date() {
    // 2024-01-01 00:00:00 UTC = 1704067200
    assert_eq!(format_timestamp(1704067200), "2024-01-01 00:00:00 UTC");
}

#[test]
fn format_timestamp_with_time() {
    // 2024-02-05 14:23:15 UTC = 1707142995
    assert_eq!(format_timestamp(1707142995), "2024-02-05 14:23:15 UTC");
}

#[test]
fn untracked_clean_when_matching() {
    let mut baseline = VarMap::new();
    baseline.insert("FOO".to_string(), hash_value("bar"));
    baseline.insert("BAZ".to_string(), hash_value("qux"));

    let session = bare_session(baseline, VarMap::new());

    let mut env = EnvMap::new();
    env.insert("FOO".to_string(), "bar".to_string());
    env.insert("BAZ".to_string(), "qux".to_string());

    assert_eq!(count_untracked(&session, &env), 0);
}

#[test]
fn untracked_detects_changed_value() {
    let mut baseline = VarMap::new();
    baseline.insert("FOO".to_string(), hash_value("bar"));

    let session = bare_session(baseline, VarMap::new());

    let mut env = EnvMap::new();
    env.insert("FOO".to_string(), "changed".to_string());

    assert_eq!(count_untracked(&session, &env), 1);
}

#[test]
fn untracked_detects_removed_var() {
    let mut baseline = VarMap::new();
    baseline.insert("FOO".to_string(), hash_value("bar"));

    let session = bare_session(baseline, VarMap::new());

    let env = EnvMap::new(); // FOO is gone

    assert_eq!(count_untracked(&session, &env), 1);
}

#[test]
fn untracked_detects_new_var() {
    let session = bare_session(VarMap::new(), VarMap::new());

    let mut env = EnvMap::new();
    env.insert("NEW_VAR".to_string(), "hello".to_string());

    assert_eq!(count_untracked(&session, &env), 1);
}

#[test]
fn untracked_ignores_session_var() {
    let session = bare_session(VarMap::new(), VarMap::new());

    let mut env = EnvMap::new();
    env.insert(SESSION_VAR.to_string(), "some_data".to_string());

    assert_eq!(count_untracked(&session, &env), 0);
}

#[test]
fn untracked_skips_tracked_vars() {
    let mut baseline = VarMap::new();
    baseline.insert("FOO".to_string(), hash_value("bar"));

    let mut ledger = VarMap::new();
    ledger.insert(
        "FOO".to_string(),
        TrackedChange::Assign { value: "changed".to_string(), previous: Some("bar".to_string()) },
    );

    let session = bare_session(baseline, ledger);

    let mut env = EnvMap::new();
    env.insert("FOO".to_string(), "changed".to_string());

    // FOO changed but it is recorded, so the untracked count stays 0
    assert_eq!(count_untracked(&session, &env), 0);
}
