use agentmint::ratelimit::{RateLimitConfig, RateLimiter};

#[test]
fn allows_under_limit() {
    let mut limiter = RateLimiter::new(RateLimitConfig {
        global_per_sec: 1000,
        per_ip_per_min: 5,
        per_user_per_min: 5,
    });
    for _ in 0..5 {
        assert!(limiter.check_ip("127.0.0.1").is_ok());
    }
}

#[test]
fn blocks_over_limit() {
    let mut limiter = RateLimiter::new(RateLimitConfig {
        global_per_sec: 1000,
        per_ip_per_min: 2,
        per_user_per_min: 5,
    });
    assert!(limiter.check_ip("127.0.0.1").is_ok());
    assert!(limiter.check_ip("127.0.0.1").is_ok());
    assert!(limiter.check_ip("127.0.0.1").is_err());
}

#[test]
fn separate_ips_have_separate_limits() {
    let mut limiter = RateLimiter::new(RateLimitConfig {
        global_per_sec: 1000,
        per_ip_per_min: 1,
        per_user_per_min: 5,
    });
    assert!(limiter.check_ip("1.1.1.1").is_ok());
    assert!(limiter.check_ip("1.1.1.1").is_err());
    assert!(limiter.check_ip("2.2.2.2").is_ok());
}

#[test]
fn user_rate_limit() {
    let mut limiter = RateLimiter::new(RateLimitConfig {
        global_per_sec: 1000,
        per_ip_per_min: 100,
        per_user_per_min: 2,
    });
    assert!(limiter.check_user("alice").is_ok());
    assert!(limiter.check_user("alice").is_ok());
    assert!(limiter.check_user("alice").is_err());
    assert!(limiter.check_user("bob").is_ok());
}

#[test]
fn stats_counts_tracked_keys() {
    let mut limiter = RateLimiter::new(RateLimitConfig::default());
    limiter.check_ip("1.1.1.1").unwrap();
    limiter.check_user("alice").unwrap();
    limiter.check_user("bob").unwrap();
    assert_eq!(limiter.stats(), (1, 2));
}
