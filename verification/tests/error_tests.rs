use agentmint::error::Error;

fn assert_status(err: Error, expected: u16) {
    assert_eq!(err.status(), expected);
}

#[test]
fn status_code_mapping() {
    assert_status(Error::TokenExpired, 401);
    assert_status(Error::InvalidSignature, 401);
    assert_status(Error::InvalidToken("x".into()), 401);
    assert_status(Error::ReplayDetected("x".into()), 409);
    assert_status(Error::Validation("x".into()), 400);
    assert_status(Error::Base64, 400);
    assert_status(Error::ServiceUnavailable("x".into()), 503);
    assert_status(Error::Signing("x".into()), 500);
}

#[test]
fn internal_errors_do_not_leak_details() {
    assert_eq!(Error::Database.client_message(), "internal error");
    assert_eq!(Error::Signing("secret".into()).client_message(), "internal error");
}

#[test]
fn policy_and_replay_labels_are_categorical() {
    assert_eq!(
        Error::PolicyViolation("refund".into()).client_message(),
        "policy violation"
    );
    assert_eq!(
        Error::ReplayDetected("some-jti".into()).client_message(),
        "token already used"
    );
    assert_eq!(Error::TokenExpired.client_message(), "token expired");
    assert_eq!(Error::InvalidSignature.client_message(), "invalid signature");
}
