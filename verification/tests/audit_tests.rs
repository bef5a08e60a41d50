use agentmint::audit::{truncate, AuditLog};

fn now() -> i64 {
    chrono::Utc::now().timestamp()
}

#[test]
fn log_and_retrieve_entry() {
    let mut audit = AuditLog::new();
    audit.log("jti-1", "agent-1", "deploy", now()).unwrap();
    let entries = audit.recent(10);
    assert_eq!(entries.len(), 1);
    assert_eq!(entries[0].jti, "jti-1");
    assert_eq!(entries[0].sub, "agent-1");
    assert_eq!(entries[0].action, "deploy");
}

#[test]
fn recent_respects_limit() {
    let mut audit = AuditLog::new();
    audit.log("jti-1", "a", "x", now()).unwrap();
    audit.log("jti-2", "b", "y", now()).unwrap();
    audit.log("jti-3", "c", "z", now()).unwrap();
    let entries = audit.recent(2);
    assert_eq!(entries.len(), 2);
    assert_eq!(entries[0].jti, "jti-3");
    assert_eq!(entries[1].jti, "jti-2");
}

#[test]
fn empty_log_returns_empty_vec() {
    let audit = AuditLog::new();
    let entries = audit.recent(10);
    assert!(entries.is_empty());
}

#[test]
fn duplicate_jti_rejected_by_db() {
    let mut audit = AuditLog::new();
    audit.log("jti-1", "a", "x", now()).unwrap();
    let result = audit.log("jti-1", "a", "x", now());
    assert!(result.is_err());
}

#[test]
fn long_sub_truncated() {
    let mut audit = AuditLog::new();
    let long_sub = "a".repeat(300);
    audit.log("jti-1", &long_sub, "deploy", now()).unwrap();
    let entries = audit.recent(1);
    assert_eq!(entries[0].sub.len(), 256);
}

#[test]
fn long_action_truncated() {
    let mut audit = AuditLog::new();
    let long_action = "b".repeat(100);
    audit.log("jti-1", "agent", &long_action, now()).unwrap();
    let entries = audit.recent(1);
    assert_eq!(entries[0].action.len(), 64);
}

#[test]
fn truncate_respects_multibyte_boundaries() {
    assert_eq!(truncate("h\u{00e9}llo", 2), "h\u{00e9}");
    assert_eq!(truncate("short", 64), "short");
    assert_eq!(truncate("", 5), "");
}

#[test]
fn verified_at_is_rfc3339() {
    let mut audit = AuditLog::new();
    audit.log("jti-1", "agent", "deploy", 0).unwrap();
    let entries = audit.recent(1);
    assert_eq!(entries[0].verified_at, "1970-01-01T00:00:00Z");
}
