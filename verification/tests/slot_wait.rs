use chat_responses_codex::account_concurrency::AccountConcurrencyKey;
use chat_responses_codex::slot_wait::LocalSlotWaiters;

fn account(upstream: &str, key: &str) -> AccountConcurrencyKey {
    AccountConcurrencyKey::new(upstream.to_string(), key.to_string())
}

#[test]
fn slot_queue_is_bounded_per_account() {
    let mut waiters = LocalSlotWaiters::new();
    let a = account("u1", "k1");
    let b = account("u1", "k2");
    assert!(waiters.try_enter(&a, 2));
    assert!(waiters.try_enter(&a, 2));
    assert!(!waiters.try_enter(&a, 2));
    assert_eq!(waiters.waiter_count(&a), 2);
    assert!(waiters.try_enter(&b, 2));
    assert_eq!(waiters.upstream_waiter_count("u1"), 3);
    assert_eq!(waiters.upstream_waiter_count("u2"), 0);
}

#[test]
fn zero_depth_still_admits_one_waiter() {
    let mut waiters = LocalSlotWaiters::new();
    let a = account("u1", "k1");
    assert!(waiters.try_enter(&a, 0));
    assert!(!waiters.try_enter(&a, 0));
}

#[test]
fn leaving_frees_the_place_and_is_harmless_when_nobody_waits() {
    let mut waiters = LocalSlotWaiters::new();
    let a = account("u1", "k1");
    waiters.leave(&a);
    assert_eq!(waiters.waiter_count(&a), 0);
    assert!(waiters.try_enter(&a, 1));
    waiters.leave(&a);
    assert_eq!(waiters.waiter_count(&a), 0);
    assert!(waiters.try_enter(&a, 1));
}
