use agentmint::error::Error;
use agentmint::jti::JtiStore;

fn future_exp() -> i64 {
    chrono::Utc::now().timestamp() + 300
}

#[test]
fn first_jti_succeeds() {
    let mut store = JtiStore::new();
    store.check_and_insert("jti-1", future_exp()).unwrap();
}

#[test]
fn duplicate_jti_rejected() {
    let mut store = JtiStore::new();
    let exp = future_exp();
    store.check_and_insert("jti-1", exp).unwrap();
    let result = store.check_and_insert("jti-1", exp);
    assert!(matches!(result, Err(Error::ReplayDetected(_))));
}

#[test]
fn different_jtis_both_succeed() {
    let mut store = JtiStore::new();
    let exp = future_exp();
    store.check_and_insert("jti-1", exp).unwrap();
    store.check_and_insert("jti-2", exp).unwrap();
}

#[test]
fn capacity_limit_returns_503() {
    let mut store = JtiStore::with_capacity(2);
    let exp = future_exp();
    store.check_and_insert("jti-1", exp).unwrap();
    store.check_and_insert("jti-2", exp).unwrap();
    let result = store.check_and_insert("jti-3", exp);
    assert!(matches!(result, Err(Error::ServiceUnavailable(_))));
    assert_eq!(result.unwrap_err().status(), 503);
}

#[test]
fn expired_entries_cleaned_up() {
    let mut store = JtiStore::with_capacity(1);
    let past = chrono::Utc::now().timestamp() - 1;
    store.check_and_insert("jti-old", past).unwrap();
    store.check_and_insert("jti-new", future_exp()).unwrap();
    assert_eq!(store.len(), 1);
}
