use agentmint::mint::{clamp_ttl, validate_request, MintRequest};

fn req(sub: &str, action: &str, ttl: i64) -> MintRequest {
    MintRequest {
        sub: sub.into(),
        action: action.into(),
        ttl_seconds: ttl,
        id_token: None,
    }
}

#[test]
fn valid_request_passes() {
    assert!(validate_request(&req("agent-1", "deploy", 60)).is_ok());
}

#[test]
fn empty_sub_rejected() {
    assert!(validate_request(&req("", "deploy", 60)).is_err());
}

#[test]
fn long_sub_rejected() {
    assert!(validate_request(&req(&"a".repeat(257), "deploy", 60)).is_err());
}

#[test]
fn control_chars_in_sub_rejected() {
    assert!(validate_request(&req("agent\x00", "deploy", 60)).is_err());
}

#[test]
fn invalid_action_rejected() {
    assert!(validate_request(&req("a", "deploy!", 60)).is_err());
}

#[test]
fn action_allows_colons_and_hyphens() {
    assert!(validate_request(&req("a", "refund:order:123", 60)).is_ok());
    assert!(validate_request(&req("a", "deploy-prod", 60)).is_ok());
}

#[test]
fn empty_action_rejected() {
    assert!(validate_request(&req("a", "", 60)).is_err());
}

#[test]
fn ttl_clamped_to_bounds() {
    assert_eq!(clamp_ttl(0), 1);
    assert_eq!(clamp_ttl(-5), 1);
    assert_eq!(clamp_ttl(500), 300);
    assert_eq!(clamp_ttl(60), 60);
}

#[test]
fn c1_control_chars_in_sub_rejected() {
    assert!(validate_request(&req("agent\u{0085}x", "deploy", 60)).is_err());
}

#[test]
fn validation_error_gets_fixed_label() {
    let err = validate_request(&req("", "deploy", 60)).unwrap_err();
    assert_eq!(err.status(), 400);
    assert_eq!(err.client_message(), "invalid request");
}

#[test]
fn multibyte_sub_is_measured_in_characters() {
    let long_multibyte = "\u{00e9}".repeat(200);
    assert!(validate_request(&req(&long_multibyte, "deploy", 60)).is_ok());
    let too_many = "\u{00e9}".repeat(257);
    assert!(validate_request(&req(&too_many, "deploy", 60)).is_err());
}
