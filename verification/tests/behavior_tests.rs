use base64::Engine;
use envision::export::Exports;
use envision::fingerprint::hash_value;
use envision::output::Output;
use envision::profile::strip_profile_suffix;
use envision::restore::preview_changes;
use envision::session::{count_untracked, is_dirty, EnvMap, Session, TrackedChange};
use envision::timefmt::u64_to_dec;
use envision::vars::VarMap;

#[test]
fn fingerprint_deterministic_and_collision_free_on_corpus() {
    let corpus = vec![
        "", "a", "b", "ab", "ba", "bar", "PATH", "/usr/bin", "/usr/bin:/bin", "hello world",
        "hello_world", "0", "1", "00", "é", "✓", "a longer value with spaces",
    ];
    for x in &corpus {
        assert_eq!(hash_value(x), hash_value(x));
        for y in &corpus {
            if x != y {
                assert_ne!(hash_value(x), hash_value(y));
            }
        }
    }
}

#[test]
fn track_set_fresh_session_reports_nothing_prior() {
    let mut session = Session::new(&EnvMap::new(), 7, 100);
    let result = session.track_set("NEW", "a");
    assert!(result.previous.is_none());
    assert!(result.overwrite_kind.is_none());
}

#[test]
fn track_unset_after_set_leaves_unset_entry() {
    let mut session = Session::new(&EnvMap::new(), 7, 100);
    session.track_set("X", "a");
    let result = session.track_unset("X");
    assert_eq!(result.previous.as_deref(), Some("a"));
    assert!(matches!(
        session.ledger.get("X"),
        Some(TrackedChange::Unset { previous }) if previous == "a"
    ));
}

#[test]
fn track_unset_unknown_inserts_nothing() {
    let mut session = Session::new(&EnvMap::new(), 7, 100);
    let result = session.track_unset("UNKNOWN");
    assert!(result.previous.is_none());
    assert!(session.ledger.is_empty());
}

#[test]
fn drift_counts_for_one_baseline_variable() {
    let mut baseline = VarMap::new();
    baseline.insert("FOO".to_string(), hash_value("bar"));
    let session =
        Session { id: "s".to_string(), created_at: 0, baseline, ledger: VarMap::new() };

    let mut same = EnvMap::new();
    same.insert("FOO".to_string(), "bar".to_string());
    assert_eq!(count_untracked(&session, &same), 0);

    let mut changed = EnvMap::new();
    changed.insert("FOO".to_string(), "changed".to_string());
    assert_eq!(count_untracked(&session, &changed), 1);

    let missing = EnvMap::new();
    assert_eq!(count_untracked(&session, &missing), 1);

    let mut extra = EnvMap::new();
    extra.insert("FOO".to_string(), "bar".to_string());
    extra.insert("NEW".to_string(), "x".to_string());
    assert_eq!(count_untracked(&session, &extra), 1);
}

#[test]
fn restore_plan_orders_lexicographically() {
    let mut ledger = VarMap::new();
    ledger.insert(
        "NEW".to_string(),
        TrackedChange::Assign { value: "v".to_string(), previous: None },
    );
    ledger.insert(
        "OLD".to_string(),
        TrackedChange::Assign { value: "v2".to_string(), previous: Some("v1".to_string()) },
    );
    ledger.insert("GONE".to_string(), TrackedChange::Unset { previous: "g".to_string() });
    let session =
        Session { id: "s".to_string(), created_at: 0, baseline: VarMap::new(), ledger };

    let (to_unset, to_restore) = preview_changes(&session);
    assert_eq!(to_unset, vec!["NEW".to_string()]);
    assert_eq!(
        to_restore,
        vec![("GONE".to_string(), "g".to_string()), ("OLD".to_string(), "v1".to_string())]
    );
}

#[test]
fn end_to_end_init_set_status_drift() {
    let mut env = EnvMap::new();
    env.insert("PATH".to_string(), "/bin".to_string());
    let mut session = Session::new(&env, 42, 1700000000);

    let result = session.track_set("FOO", "bar");
    assert!(result.previous.is_none());
    assert_eq!(session.ledger.len(), 1);

    // The tool applied its own change: the live environment now carries it.
    let mut live = EnvMap::new();
    live.insert("PATH".to_string(), "/bin".to_string());
    live.insert("FOO".to_string(), "bar".to_string());
    assert_eq!(count_untracked(&session, &live), 0);
    assert!(!is_dirty(&session, &live));

    // An outside mutation of PATH makes the session dirty.
    let mut drifted = EnvMap::new();
    drifted.insert("PATH".to_string(), "/usr/bin".to_string());
    drifted.insert("FOO".to_string(), "bar".to_string());
    assert_eq!(count_untracked(&session, &drifted), 1);
    assert!(is_dirty(&session, &drifted));
}

#[test]
fn session_roundtrip_keeps_every_field() {
    let mut env = EnvMap::new();
    env.insert("PATH".to_string(), "/bin".to_string());
    env.insert("WEIRD".to_string(), "it's a 'value' with \u{e9}\u{2713}".to_string());
    let mut session = Session::new(&env, 9, 1700000001);
    session.track_set("FOO", "it's quoted");
    session.track_set("BAR", "x");
    session.track_unset("BAR");
    session.track_unset("NOPE");

    let encoded = session.encode().unwrap();
    let decoded = Session::decode(&encoded).unwrap();
    assert_eq!(decoded.id, session.id);
    assert_eq!(decoded.created_at, session.created_at);
    assert_eq!(decoded.baseline, session.baseline);
    assert_eq!(decoded.ledger.len(), session.ledger.len());
    assert!(matches!(
        decoded.ledger.get("FOO"),
        Some(TrackedChange::Assign { value, previous: None }) if value == "it's quoted"
    ));
    assert!(matches!(
        decoded.ledger.get("BAR"),
        Some(TrackedChange::Unset { previous }) if previous == "x"
    ));
}

#[test]
fn decode_rejects_corrupt_text() {
    assert!(Session::decode("not base64 at all!!!").is_err());
    // Valid base64, but the bytes underneath have no session shape.
    assert!(Session::decode("aGVsbG8gd29ybGQ=").is_err());
    assert!(Session::decode("").is_err());
}

#[test]
fn load_absent_or_empty_is_no_session() {
    let env = EnvMap::new();
    assert!(matches!(Session::load(&env), Ok(None)));

    let mut empty = EnvMap::new();
    empty.insert("ENVISION_SESSION".to_string(), "".to_string());
    assert!(matches!(Session::load(&empty), Ok(None)));
}

#[test]
fn load_roundtrips_through_environment() {
    let mut env = EnvMap::new();
    env.insert("PATH".to_string(), "/bin".to_string());
    let session = Session::new(&env, 3, 1700000002);
    let encoded = session.encode().unwrap();

    let mut live = EnvMap::new();
    live.insert("ENVISION_SESSION".to_string(), encoded);
    let loaded = Session::load(&live).unwrap().unwrap();
    assert_eq!(loaded.id, session.id);
    assert_eq!(loaded.baseline, session.baseline);
}

#[test]
fn load_corrupt_session_is_an_error() {
    // A present, non-empty value that cannot decode surfaces the error:
    // never a silent reset to "no session".
    let mut live = EnvMap::new();
    live.insert("ENVISION_SESSION".to_string(), "???".to_string());
    assert!(Session::load(&live).is_err());

    // The same holds for well-formed base64 hiding non-session bytes.
    let junk = base64::engine::general_purpose::STANDARD.encode([0xabu8; 24]);
    let mut live2 = EnvMap::new();
    live2.insert("ENVISION_SESSION".to_string(), junk);
    assert!(Session::load(&live2).is_err());
}

#[test]
fn export_statement_has_expected_shape() {
    let session = Session::new(&EnvMap::new(), 5, 1700000003);
    let stmt = session.export_statement().unwrap();
    assert!(stmt.starts_with("export ENVISION_SESSION='"));
    assert!(stmt.ends_with("'"));
    // The payload is base64: no quoting hazards inside.
    let inner = &stmt["export ENVISION_SESSION='".len()..stmt.len() - 1];
    assert!(inner.chars().all(|c| c.is_ascii_alphanumeric() || c == '+' || c == '/' || c == '='));
}

#[test]
fn exports_escape_single_quotes() {
    let mut ex = Exports::new();
    ex.set_var("FOO", "it's");
    ex.unset_var("BAR");
    assert_eq!(ex.statements[0], "export FOO='it'\\''s'");
    assert_eq!(ex.statements[1], "unset BAR");
}

#[test]
fn exports_save_session_queues_export() {
    let mut ex = Exports::new();
    let session = Session::new(&EnvMap::new(), 5, 1700000004);
    ex.save_session(&session).unwrap();
    assert_eq!(ex.statements.len(), 1);
    assert!(ex.statements[0].starts_with("export ENVISION_SESSION='"));
    assert!(ex.last_session.is_some());
}

#[test]
fn styled_output_wraps_only_in_color() {
    let color = Output::new(true);
    let plain = Output::new(false);
    assert_eq!(color.bold("hi"), "\u{1b}[1mhi\u{1b}[0m");
    assert_eq!(color.dim("hi"), "\u{1b}[2mhi\u{1b}[0m");
    assert_eq!(plain.bold("hi"), "hi");
    assert_eq!(plain.dim("hi"), "hi");
}

#[test]
fn profile_names_strip_their_extension() {
    assert_eq!(strip_profile_suffix("dev.profile.sh"), "dev");
    assert_eq!(strip_profile_suffix("production.envision"), "production");
    assert_eq!(strip_profile_suffix("plain"), "plain");
}

#[test]
fn decimal_rendering() {
    assert_eq!(u64_to_dec(0), "0");
    assert_eq!(u64_to_dec(42), "42");
    assert_eq!(u64_to_dec(1700000000), "1700000000");
}

#[test]
fn varmap_insert_replaces_and_stays_sorted() {
    let mut m: VarMap<String> = VarMap::new();
    m.insert("B".to_string(), "1".to_string());
    m.insert("A".to_string(), "2".to_string());
    m.insert("C".to_string(), "3".to_string());
    m.insert("B".to_string(), "4".to_string());
    assert_eq!(m.len(), 3);
    assert_eq!(m.get("B").map(|s| s.as_str()), Some("4"));
    let keys: Vec<&str> = m.entries.iter().map(|e| e.0.as_str()).collect();
    assert_eq!(keys, vec!["A", "B", "C"]);
}

#[test]
fn timestamp_edge_of_epoch() {
    assert_eq!(envision::timefmt::format_timestamp(0), "1970-01-01 00:00:00 UTC");
}

#[test]
fn decode_rejects_foreign_payloads() {
    // Well-formed base64 whose bytes are not a session layout.
    let garbage = base64::engine::general_purpose::STANDARD.encode([0xffu8; 16]);
    assert!(Session::decode(&garbage).is_err());
    let short = base64::engine::general_purpose::STANDARD.encode([1u8, 2, 3]);
    assert!(Session::decode(&short).is_err());
}

#[test]
fn escaping_handles_repeated_quotes() {
    let mut ex = Exports::new();
    ex.set_var("Q", "''");
    assert_eq!(ex.statements[0], "export Q=''\\'''\\'''");
    let mut ex2 = Exports::new();
    ex2.set_var("E", "");
    assert_eq!(ex2.statements[0], "export E=''");
}

#[test]
fn tracking_an_empty_value_roundtrips() {
    let mut session = Session::new(&EnvMap::new(), 11, 1700000005);
    session.track_set("EMPTY", "");
    let decoded = Session::decode(&session.encode().unwrap()).unwrap();
    assert!(matches!(
        decoded.ledger.get("EMPTY"),
        Some(TrackedChange::Assign { value, previous: None }) if value.is_empty()
    ));
}
