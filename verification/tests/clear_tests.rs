use envision::fingerprint::hash_value;
use envision::restore::preview_changes;
use envision::session::{Session, TrackedChange};
use envision::vars::VarMap;

fn session_with_tracked() -> Session {
    let mut baseline = VarMap::new();
    baseline.insert("EXISTING".to_string(), hash_value("original"));

    let mut ledger = VarMap::new();
    // A newly added var (no previous)
    ledger.insert(
        "NEW_VAR".to_string(),
        TrackedChange::Assign { value: "added".to_string(), previous: None },
    );
    // An overwritten var (has previous)
    ledger.insert(
        "EXISTING".to_string(),
        TrackedChange::Assign {
            value: "changed".to_string(),
            previous: Some("original".to_string()),
        },
    );
    // An unset var
    ledger.insert(
        "REMOVED".to_string(),
        TrackedChange::Unset { previous: "was_here".to_string() },
    );

    Session { id: "test1234".to_string(), created_at: 0, baseline, ledger }
}

#[test]
fn preview_new_var_gets_unset() {
    let session = session_with_tracked();
    let (to_unset, _) = preview_changes(&session);
    assert!(to_unset.contains(&"NEW_VAR".to_string()));
}

#[test]
fn preview_overwritten_var_gets_restored() {
    let session = session_with_tracked();
    let (_, to_restore) = preview_changes(&session);
    assert!(to_restore.iter().any(|(k, v)| k == "EXISTING" && v == "original"));
}

#[test]
fn preview_unset_var_gets_restored() {
    let session = session_with_tracked();
    let (_, to_restore) = preview_changes(&session);
    assert!(to_restore.iter().any(|(k, v)| k == "REMOVED" && v == "was_here"));
}

#[test]
fn preview_counts() {
    let session = session_with_tracked();
    let (to_unset, to_restore) = preview_changes(&session);
    assert_eq!(to_unset.len(), 1);
    assert_eq!(to_restore.len(), 2);
}

#[test]
fn preview_empty_session() {
    let session = Session {
        id: "test".to_string(),
        created_at: 0,
        baseline: VarMap::new(),
        ledger: VarMap::new(),
    };
    let (to_unset, to_restore) = preview_changes(&session);
    assert!(to_unset.is_empty());
    assert!(to_restore.is_empty());
}
