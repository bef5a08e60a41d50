use agentmint::audit::AuditLog;
use agentmint::claims::new_jti;
use agentmint::error::Error;
use agentmint::jti::JtiStore;
use agentmint::mint::mint_issue;
use agentmint::oidc::{assertion_binds, jwks_cache_fresh, oidc_gate, IdTokenClaims};
use agentmint::policy::{PolicyEngine, PolicyLimit};
use agentmint::redeem::redeem_at;
use agentmint::signing::generate_keypair;
use agentmint::timefmt::{format_rfc3339, parse_rfc3339};

fn now() -> i64 {
    chrono::Utc::now().timestamp()
}

#[test]
fn mint_then_redeem() {
    let key = generate_keypair();
    let policy = PolicyEngine::default();
    let mut store = JtiStore::new();
    let mut audit = AuditLog::new();
    let t = now();
    let resp = mint_issue(
        "alice".into(),
        "deploy".into(),
        60,
        &policy,
        &key,
        new_jti(),
        t,
    )
    .unwrap();
    let redeemed = redeem_at(&resp.token, key.vk.as_slice(), &mut store, &mut audit, t).unwrap();
    assert_eq!(redeemed.sub, "alice");
    assert_eq!(redeemed.action, "deploy");
    assert_eq!(redeemed.jti, resp.jti);
    let entries = audit.recent(100);
    assert_eq!(entries[0].jti, resp.jti);
}

#[test]
fn second_redeem_is_replay() {
    let key = generate_keypair();
    let policy = PolicyEngine::default();
    let mut store = JtiStore::new();
    let mut audit = AuditLog::new();
    let t = now();
    let resp = mint_issue(
        "alice".into(),
        "deploy".into(),
        60,
        &policy,
        &key,
        new_jti(),
        t,
    )
    .unwrap();
    redeem_at(&resp.token, key.vk.as_slice(), &mut store, &mut audit, t).unwrap();
    let err = redeem_at(&resp.token, key.vk.as_slice(), &mut store, &mut audit, t).unwrap_err();
    assert!(matches!(err, Error::ReplayDetected(_)));
    assert_eq!(err.status(), 409);
    assert_eq!(err.client_message(), "token already used");
}

#[test]
fn expired_token_redeem_is_unauthorized() {
    let key = generate_keypair();
    let policy = PolicyEngine::default();
    let mut store = JtiStore::new();
    let mut audit = AuditLog::new();
    let t = now();
    let resp = mint_issue(
        "alice".into(),
        "deploy".into(),
        1,
        &policy,
        &key,
        new_jti(),
        t,
    )
    .unwrap();
    let err =
        redeem_at(&resp.token, key.vk.as_slice(), &mut store, &mut audit, t + 2).unwrap_err();
    assert!(matches!(err, Error::TokenExpired));
    assert_eq!(err.status(), 401);
    assert_eq!(err.client_message(), "token expired");
}

#[test]
fn tampered_payload_redeem_is_invalid_signature() {
    let key = generate_keypair();
    let policy = PolicyEngine::default();
    let mut store = JtiStore::new();
    let mut audit = AuditLog::new();
    let t = now();
    let resp = mint_issue(
        "alice".into(),
        "deploy".into(),
        60,
        &policy,
        &key,
        new_jti(),
        t,
    )
    .unwrap();
    let mut flipped: Vec<char> = resp.token.chars().collect();
    flipped[1] = if flipped[1] == 'x' { 'y' } else { 'x' };
    let tampered: String = flipped.into_iter().collect();
    let err = redeem_at(&tampered, key.vk.as_slice(), &mut store, &mut audit, t).unwrap_err();
    assert!(matches!(err, Error::InvalidSignature));
    assert_eq!(err.client_message(), "invalid signature");
}

#[test]
fn policy_denial_on_mint() {
    let key = generate_keypair();
    let policy = PolicyEngine::new(vec![("refund".to_string(), PolicyLimit { max_amount: 50 })]);
    let err = mint_issue(
        "a".into(),
        "refund:amount:75".into(),
        60,
        &policy,
        &key,
        new_jti(),
        now(),
    )
    .unwrap_err();
    assert!(matches!(err, Error::PolicyViolation(_)));
    assert_eq!(err.status(), 403);
    assert_eq!(err.client_message(), "policy violation");
}

#[test]
fn invalid_mint_request_is_validation_error() {
    let key = generate_keypair();
    let policy = PolicyEngine::default();
    let err = mint_issue(
        "".into(),
        "deploy".into(),
        60,
        &policy,
        &key,
        new_jti(),
        now(),
    )
    .unwrap_err();
    assert!(matches!(err, Error::Validation(_)));
    assert_eq!(err.status(), 400);
    assert_eq!(err.client_message(), "invalid request");
}

#[test]
fn rfc3339_formats_and_parses_exactly() {
    assert_eq!(format_rfc3339(0), b"1970-01-01T00:00:00Z".to_vec());
    assert_eq!(
        format_rfc3339(951827696),
        b"2000-02-29T12:34:56Z".to_vec()
    );
    assert_eq!(parse_rfc3339(b"2000-02-29T12:34:56Z"), Some(951827696));
    assert_eq!(parse_rfc3339(b"1970-01-01T00:00:00Z"), Some(0));
    assert_eq!(parse_rfc3339(b"2001-02-29T00:00:00Z"), None);
    assert_eq!(parse_rfc3339(b"1970-01-01 00:00:00Z"), None);
    assert_eq!(parse_rfc3339(b"9999-12-31T23:59:59Z"), Some(253402300799));
}

#[test]
fn oidc_gate_requires_assertion_only_when_required() {
    assert!(oidc_gate(true, true, true).is_ok());
    assert!(oidc_gate(true, false, false).is_ok());
    assert!(oidc_gate(false, true, false).is_ok());
    assert!(oidc_gate(true, true, false).is_err());
}

#[test]
fn assertion_binding_prefers_email() {
    let with_email = IdTokenClaims {
        sub: "subject-id".into(),
        email: Some("alice@example.test".into()),
        aud: "aud".into(),
        iss: "iss".into(),
        exp: 10,
        iat: 1,
    };
    assert!(assertion_binds(&with_email, "alice@example.test"));
    assert!(!assertion_binds(&with_email, "subject-id"));
    let without_email = IdTokenClaims { email: None, ..with_email };
    assert!(assertion_binds(&without_email, "subject-id"));
}

#[test]
fn jwks_cache_freshness_window() {
    assert!(jwks_cache_fresh(Some(1000), 1000 + 3599));
    assert!(!jwks_cache_fresh(Some(1000), 1000 + 3600));
    assert!(!jwks_cache_fresh(None, 1000));
}

#[test]
fn multibyte_subject_roundtrips_end_to_end() {
    let key = generate_keypair();
    let policy = PolicyEngine::default();
    let mut store = JtiStore::new();
    let mut audit = AuditLog::new();
    let t = now();
    let sub = "\u{00e9}\u{4e16}\u{754c}-agent".to_string();
    let resp = mint_issue(sub.clone(), "deploy".into(), 60, &policy, &key, new_jti(), t).unwrap();
    let redeemed = redeem_at(&resp.token, key.vk.as_slice(), &mut store, &mut audit, t).unwrap();
    assert_eq!(redeemed.sub, sub);
}
