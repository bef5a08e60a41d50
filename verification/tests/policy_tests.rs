use agentmint::policy::{parse_action_type, parse_amount, PolicyEngine, PolicyLimit};

fn engine(policies: &[(&str, u64)]) -> PolicyEngine {
    let limits = policies
        .iter()
        .map(|(k, v)| (k.to_string(), PolicyLimit { max_amount: *v }))
        .collect();
    PolicyEngine::new(limits)
}

#[test]
fn simple() {
    assert_eq!(parse_action_type("deploy"), "deploy");
}

#[test]
fn with_segments() {
    assert_eq!(parse_action_type("refund:order:123"), "refund");
}

#[test]
fn empty() {
    assert_eq!(parse_action_type(""), "");
}

#[test]
fn at_end() {
    assert_eq!(parse_amount("refund:amount:50"), Some(50));
}

#[test]
fn in_middle() {
    assert_eq!(parse_amount("refund:amount:50:order:1"), Some(50));
}

#[test]
fn missing() {
    assert_eq!(parse_amount("refund:order:123"), None);
}

#[test]
fn invalid_number() {
    assert_eq!(parse_amount("refund:amount:abc"), None);
}

#[test]
fn zero() {
    assert_eq!(parse_amount("refund:amount:0"), Some(0));
}

#[test]
fn under_limit_passes() {
    let e = engine(&[("refund", 50)]);
    assert!(e.check("refund:amount:49").is_ok());
    assert!(e.check("refund:amount:50").is_ok());
}

#[test]
fn over_limit_fails() {
    let e = engine(&[("refund", 50)]);
    let err = e.check("refund:amount:51").unwrap_err();
    assert_eq!(err.action_type, "refund");
    assert_eq!(err.limit, 50);
    assert_eq!(err.requested, 51);
}

#[test]
fn no_amount_passes() {
    let e = engine(&[("refund", 50)]);
    assert!(e.check("refund:order:123").is_ok());
}

#[test]
fn unknown_action_passes() {
    let e = engine(&[("refund", 50)]);
    assert!(e.check("deploy:amount:9999").is_ok());
}

#[test]
fn empty_engine_passes() {
    let e = PolicyEngine::default();
    assert!(e.check("refund:amount:9999").is_ok());
}

#[test]
fn multiple_policies() {
    let e = engine(&[("refund", 50), ("compute", 200)]);
    assert!(e.check("refund:amount:50").is_ok());
    assert!(e.check("compute:amount:200").is_ok());
    assert!(e.check("refund:amount:51").is_err());
    assert!(e.check("compute:amount:201").is_err());
}

#[test]
fn overflowing_amount_passes_unparsed() {
    let e = engine(&[("refund", 50)]);
    assert!(e.check("refund:amount:99999999999999999999999999").is_ok());
}
