use agentmint::telemetry::Metrics;

#[test]
fn new_metrics_start_at_zero() {
    let s = Metrics::new().snapshot();
    assert_eq!(s.tokens_minted, 0);
    assert_eq!(s.rate_limited, 0);
    assert_eq!(s.webauthn_successes, 0);
}

#[test]
fn record_rate_limited_increments() {
    let mut m = Metrics::new();
    m.record_rate_limited();
    assert_eq!(m.snapshot().rate_limited, 1);
}

#[test]
fn record_webauthn_success_increments() {
    let mut m = Metrics::new();
    m.record_webauthn_success();
    assert_eq!(m.snapshot().webauthn_successes, 1);
}

#[test]
fn counters_are_independent() {
    let mut m = Metrics::new();
    m.record_mint();
    m.record_mint();
    m.record_replay();
    let s = m.snapshot();
    assert_eq!(s.tokens_minted, 2);
    assert_eq!(s.replays_blocked, 1);
    assert_eq!(s.tokens_verified, 0);
}
