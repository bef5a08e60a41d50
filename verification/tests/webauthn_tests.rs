use agentmint::error::Error;
use agentmint::webauthn::{ChallengeStore, FailureLedger};

#[test]
fn lockout_after_threshold() {
    let mut ledger = FailureLedger::new();
    let now = 1_000_000;
    for _ in 0..5 {
        ledger.record_failure_at("alice", now);
    }
    assert!(ledger.is_locked_out_at("alice", now));
    assert!(!ledger.is_locked_out_at("bob", now));
}

#[test]
fn clear_failures_removes_lockout() {
    let mut ledger = FailureLedger::new();
    let now = 1_000_000;
    for _ in 0..5 {
        ledger.record_failure_at("alice", now);
    }
    assert!(ledger.is_locked_out_at("alice", now));
    ledger.clear_failures("alice");
    assert!(!ledger.is_locked_out_at("alice", now));
}

#[test]
fn lockout_lapses_after_fifteen_minutes() {
    let mut ledger = FailureLedger::new();
    let now = 1_000_000;
    for _ in 0..5 {
        ledger.record_failure_at("alice", now);
    }
    assert!(ledger.is_locked_out_at("alice", now + 899));
    assert!(!ledger.is_locked_out_at("alice", now + 900));
}

#[test]
fn challenge_is_single_use() {
    let mut store: ChallengeStore<u8> = ChallengeStore::new();
    let now = 1_000_000;
    store.insert_at("alice", 7, now).unwrap();
    assert_eq!(store.take_at("alice", now + 1).unwrap(), 7);
    assert!(matches!(
        store.take_at("alice", now + 1),
        Err(Error::Unauthorized(_))
    ));
}

#[test]
fn expired_challenge_rejected_and_consumed() {
    let mut store: ChallengeStore<u8> = ChallengeStore::new();
    let now = 1_000_000;
    store.insert_at("alice", 7, now).unwrap();
    assert!(matches!(
        store.take_at("alice", now + 301),
        Err(Error::Unauthorized(_))
    ));
    assert!(store.take_at("alice", now + 301).is_err());
}
