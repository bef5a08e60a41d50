use agentmint::claims::Claims;
use agentmint::error::Error;
use agentmint::payload::{encode_claims, parse_claims};
use agentmint::signing::generate_keypair;
use agentmint::token::{sign_token, verify_token};

#[test]
fn new_claims_have_valid_fields() {
    let claims = Claims::new("agent-1".into(), "deploy".into(), 300);
    assert_eq!(claims.sub, "agent-1");
    assert_eq!(claims.action, "deploy");
    assert!(!claims.jti.is_empty());
    assert!(claims.exp > claims.iat);
}

#[test]
fn claims_with_zero_ttl_are_expired() {
    let claims = Claims::new("agent-1".into(), "deploy".into(), 0);
    assert!(claims.is_expired());
}

#[test]
fn claims_roundtrip_through_json() {
    let claims = Claims::new("agent-1".into(), "deploy".into(), 300);
    let json = encode_claims(&claims);
    let decoded = parse_claims(json.as_slice()).expect("canonical payload parses");
    assert_eq!(claims.jti, decoded.jti);
    assert_eq!(claims.sub, decoded.sub);
    assert_eq!(claims.action, decoded.action);
    assert_eq!(claims.iat, decoded.iat);
    assert_eq!(claims.exp, decoded.exp);
}

#[test]
fn valid_token_verifies() {
    let key = generate_keypair();
    let claims = Claims::new("agent-1".into(), "deploy".into(), 300);
    let token = sign_token(&claims, &key).unwrap();
    let verified = verify_token(&token, key.vk.as_slice()).unwrap();
    assert_eq!(verified.sub, "agent-1");
    assert_eq!(verified.action, "deploy");
}

#[test]
fn expired_token_rejected() {
    let key = generate_keypair();
    let claims = Claims::new("agent-1".into(), "deploy".into(), 0);
    let token = sign_token(&claims, &key).unwrap();
    let result = verify_token(&token, key.vk.as_slice());
    assert!(matches!(result, Err(Error::TokenExpired)));
}

#[test]
fn tampered_token_rejected() {
    let key = generate_keypair();
    let claims = Claims::new("agent-1".into(), "deploy".into(), 300);
    let token = sign_token(&claims, &key).unwrap();
    let parts: Vec<&str> = token.split('.').collect();
    let tampered = format!("{}x.{}", parts[0], parts[1]);
    let result = verify_token(&tampered, key.vk.as_slice());
    assert!(matches!(result, Err(Error::InvalidSignature)));
}

#[test]
fn wrong_key_rejected() {
    let key = generate_keypair();
    let other_key = generate_keypair();
    let claims = Claims::new("agent-1".into(), "deploy".into(), 300);
    let token = sign_token(&claims, &key).unwrap();
    let result = verify_token(&token, other_key.vk.as_slice());
    assert!(matches!(result, Err(Error::InvalidSignature)));
}

#[test]
fn missing_separator_rejected() {
    let key = generate_keypair();
    let result = verify_token("nodothere", key.vk.as_slice());
    assert!(matches!(result, Err(Error::InvalidToken(_))));
}

#[test]
fn oversized_token_rejected() {
    let key = generate_keypair();
    let huge = "A".repeat(2049);
    let result = verify_token(&huge, key.vk.as_slice());
    assert!(matches!(result, Err(Error::InvalidToken(_))));
}

#[test]
fn invalid_base64_chars_rejected() {
    let key = generate_keypair();
    let result = verify_token("pay load.sig!nature", key.vk.as_slice());
    assert!(matches!(result, Err(Error::InvalidToken(_))));
}

#[test]
fn oversized_token_gets_invalid_token_label() {
    let key = generate_keypair();
    let huge = "A".repeat(2049);
    let err = verify_token(&huge, key.vk.as_slice()).unwrap_err();
    assert_eq!(err.status(), 401);
    assert_eq!(err.client_message(), "invalid token");
}
