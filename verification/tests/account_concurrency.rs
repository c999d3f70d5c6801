use chat_responses_codex::account_concurrency::{
    AccountConcurrencyKey, AccountConcurrencyRegistry, AccountConcurrencyTuning, AccountLeaseError,
    AccountProbeOutcome, ObservationError, ProbeDecision, FIFO_POLL_INTERVAL_MS,
};
use chat_responses_codex::config::AppConfig;

fn tuning() -> AccountConcurrencyTuning {
    AccountConcurrencyTuning {
        probe_delays: vec![1_000, 5_000],
        jitter_max: 0,
        waiter_budget: 60_000,
        waiter_ttl: 120_000,
        probe_ttl: 30_000,
        renewal_interval: 30_000,
        observation_freshness: 10_000,
        idle_retention: 600_000,
    }
}

fn key() -> AccountConcurrencyKey {
    AccountConcurrencyKey::new("up-1".to_string(), "fp-1".to_string())
}

#[test]
fn tuning_from_config_uses_configured_delays_and_derived_ttls() {
    let config = AppConfig {
        upstream_concurrency_probe_delays_ms: vec![250, 500],
        upstream_concurrency_recovery_max_wait_ms: 90_000,
        upstream_response_header_timeout_seconds: 30,
        upstream_concurrency_status_refresh_seconds: 0,
    };
    let t = AccountConcurrencyTuning::from_config(&config);
    assert_eq!(t.probe_delays, vec![250, 500]);
    assert_eq!(t.jitter_max, 100);
    assert_eq!(t.waiter_budget, 90_000);
    assert_eq!(t.waiter_ttl, 150_000);
    assert_eq!(t.probe_ttl, 90_000);
    assert_eq!(t.renewal_interval, 30_000);
    assert_eq!(t.observation_freshness, 1_000);
    assert_eq!(t.idle_retention, 600_000);
}

#[test]
fn empty_delay_schedule_falls_back_to_one_delay() {
    let mut t = tuning();
    t.probe_delays = Vec::new();
    let mut registry = AccountConcurrencyRegistry::with_origin(t, 0);
    registry.reject(&key(), None, 0);
    let snapshot = registry.snapshot(&key(), 0);
    assert_eq!(snapshot.retry_after, 100);
}

#[test]
fn unknown_account_snapshot_is_default() {
    let mut registry = AccountConcurrencyRegistry::with_origin(tuning(), 0);
    let snapshot = registry.snapshot(&key(), 5);
    assert_eq!(snapshot.generation, 0);
    assert_eq!(snapshot.waiters, 0);
    assert!(!snapshot.saturated);
    assert_eq!(registry.entry_count(), 0);
}

#[test]
fn rejection_saturates_and_cools_down() {
    let mut registry = AccountConcurrencyRegistry::with_origin(tuning(), 0);
    registry.reject(&key(), None, 1_000);
    let snapshot = registry.snapshot(&key(), 1_000);
    assert!(snapshot.saturated);
    assert_eq!(snapshot.generation, 1);
    assert_eq!(snapshot.retry_after, 1_000);
    // The second rejection uses the next scheduled delay.
    registry.reject(&key(), None, 1_500);
    let snapshot = registry.snapshot(&key(), 1_500);
    assert_eq!(snapshot.generation, 2);
    assert_eq!(snapshot.retry_after, 5_000);
    // An explicit retry-after longer than the schedule wins.
    registry.reject(&key(), Some(20_000), 2_000);
    assert_eq!(registry.snapshot(&key(), 2_000).retry_after, 20_000);
    // Once the deadlines pass nothing remains.
    assert_eq!(registry.snapshot(&key(), 30_000).retry_after, 0);
}

#[test]
fn only_the_head_waiter_gets_the_probe_once_cooldown_ends() {
    let mut registry = AccountConcurrencyRegistry::with_origin(tuning(), 0);
    registry.reject(&key(), None, 0);
    let first = registry.register_waiter(key(), "req-1", "down-1", "lease-1", 10);
    let second = registry.register_waiter(key(), "req-2", "down-1", "lease-2", 20);
    assert_eq!(first.generation, 1);
    // Still cooling down.
    assert_eq!(registry.try_probe(&first, 500), ProbeDecision::Wait { retry_after: 500 });
    // The later waiter polls.
    assert_eq!(
        registry.try_probe(&second, 1_000),
        ProbeDecision::Wait { retry_after: FIFO_POLL_INTERVAL_MS }
    );
    let lease = match registry.try_probe(&first, 1_000) {
        ProbeDecision::Granted(lease) => lease,
        other => panic!("expected a grant, got {other:?}"),
    };
    assert_eq!(lease.request_id, "req-1");
    assert_eq!(lease.generation, 1);
    assert_eq!(lease.expires_at_ms, 31_000);
    // One probe at a time: the next waiter is now the head but must wait.
    assert_eq!(
        registry.try_probe(&second, 2_000),
        ProbeDecision::Wait { retry_after: 29_000 }
    );
    let snapshot = registry.snapshot(&key(), 2_000);
    assert!(snapshot.probe_in_flight);
    assert_eq!(snapshot.waiters, 1);
}

#[test]
fn accepted_probe_clears_saturation() {
    let mut registry = AccountConcurrencyRegistry::with_origin(tuning(), 0);
    registry.reject(&key(), Some(3_000), 0);
    let ticket = registry.register_waiter(key(), "req-1", "down", "lease", 0);
    let lease = match registry.try_probe(&ticket, 3_000) {
        ProbeDecision::Granted(lease) => lease,
        other => panic!("expected a grant, got {other:?}"),
    };
    assert_eq!(registry.renew_probe(&lease, 4_000), Ok(()));
    assert_eq!(registry.finish_probe(lease.clone(), AccountProbeOutcome::Accepted, 5_000), Ok(()));
    let snapshot = registry.snapshot(&key(), 5_000);
    assert!(!snapshot.saturated);
    assert_eq!(snapshot.retry_after, 0);
    assert!(!snapshot.probe_in_flight);
    // The lease is spent.
    assert_eq!(
        registry.finish_probe(lease, AccountProbeOutcome::Accepted, 5_000),
        Err(AccountLeaseError::Missing)
    );
}

#[test]
fn rejected_probe_makes_its_lease_stale() {
    let mut registry = AccountConcurrencyRegistry::with_origin(tuning(), 0);
    registry.reject(&key(), None, 0);
    let ticket = registry.register_waiter(key(), "req-1", "down", "lease", 0);
    let lease = match registry.try_probe(&ticket, 1_000) {
        ProbeDecision::Granted(lease) => lease,
        other => panic!("expected a grant, got {other:?}"),
    };
    assert_eq!(
        registry.finish_probe(
            lease.clone(),
            AccountProbeOutcome::ConcurrencyRejected { retry_after: None },
            2_000
        ),
        Ok(())
    );
    let snapshot = registry.snapshot(&key(), 2_000);
    assert_eq!(snapshot.generation, 2);
    assert!(snapshot.saturated);
    assert_eq!(registry.renew_probe(&lease, 2_000), Err(AccountLeaseError::StaleGeneration));
}

#[test]
fn lapsed_probe_advances_the_generation() {
    let mut registry = AccountConcurrencyRegistry::with_origin(tuning(), 0);
    registry.reject(&key(), None, 0);
    let ticket = registry.register_waiter(key(), "req-1", "down", "lease", 0);
    let lease = match registry.try_probe(&ticket, 1_000) {
        ProbeDecision::Granted(lease) => lease,
        other => panic!("expected a grant, got {other:?}"),
    };
    assert_eq!(registry.renew_probe(&lease, 40_000), Err(AccountLeaseError::StaleGeneration));
    assert_eq!(registry.snapshot(&key(), 40_000).generation, 2);
}

#[test]
fn waiters_renew_cancel_and_reregister() {
    let mut registry = AccountConcurrencyRegistry::with_origin(tuning(), 0);
    registry.reject(&key(), None, 0);
    let ticket = registry.register_waiter(key(), "req-1", "down", "lease", 0);
    assert_eq!(registry.renew_waiter(&ticket, 50_000), Ok(()));
    // Registering the same request again replaces the earlier ticket.
    let again = registry.register_waiter(key(), "req-1", "down", "lease", 100);
    assert_eq!(registry.snapshot(&key(), 100).waiters, 1);
    assert_eq!(registry.renew_waiter(&ticket, 200), Err(AccountLeaseError::Missing));
    registry.cancel_waiter(&again, 300);
    assert_eq!(registry.snapshot(&key(), 300).waiters, 0);
    let missing = AccountConcurrencyKey::new("other".to_string(), "fp".to_string());
    let mut foreign = again.clone();
    foreign.account = missing;
    assert_eq!(registry.renew_waiter(&foreign, 300), Err(AccountLeaseError::Missing));
}

#[test]
fn waiters_only_queue_behind_saturated_accounts() {
    let mut registry = AccountConcurrencyRegistry::with_origin(tuning(), 0);
    assert!(registry.register_waiter_if_saturated(key(), "req", "d", "l", 0).is_none());
    assert_eq!(registry.entry_count(), 0);
    registry.reject(&key(), None, 0);
    let ticket = registry.register_waiter_if_saturated(key(), "req", "d", "l", 10);
    assert!(ticket.is_some());
    assert_eq!(registry.snapshot(&key(), 10).waiters, 1);
}

#[test]
fn provider_readings_are_checked_and_lift_the_cooldown() {
    let mut registry = AccountConcurrencyRegistry::with_origin(tuning(), 1_000_000);
    assert_eq!(
        registry.observe_provider_status(&key(), 1, 0, 0),
        Err(ObservationError::InvalidLimit)
    );
    assert_eq!(
        registry.observe_provider_status(&key(), 5, 4, 0),
        Err(ObservationError::ConcurrencyExceedsLimit)
    );
    registry.reject(&key(), None, 0);
    assert_eq!(registry.observe_provider_status(&key(), 3, 4, 2_000), Ok(()));
    let snapshot = registry.snapshot(&key(), 2_000);
    let observation = snapshot.observation.expect("reading kept");
    assert_eq!(observation.concurrency, 3);
    assert_eq!(observation.concurrency_limit, 4);
    assert_eq!(observation.observed_at, 1_000_002);
    assert_eq!(observation.fresh_until, 1_000_012);
    assert_eq!(snapshot.retry_after, 0);
    // The reading lapses.
    assert!(registry.snapshot(&key(), 12_000).observation.is_none());
}

#[test]
fn poller_role_is_exclusive_until_it_lapses() {
    let mut registry = AccountConcurrencyRegistry::with_origin(tuning(), 0);
    assert!(registry.acquire_status_poller(&key(), "a", 1_000, 0));
    assert!(!registry.acquire_status_poller(&key(), "b", 1_000, 500));
    assert!(registry.acquire_status_poller(&key(), "a", 1_000, 900));
    assert!(!registry.acquire_status_poller(&key(), "b", 1_000, 1_500));
    assert!(registry.acquire_status_poller(&key(), "b", 1_000, 1_900));
}

#[test]
fn idle_accounts_are_forgotten() {
    let mut registry = AccountConcurrencyRegistry::with_origin(tuning(), 0);
    registry.reject(&key(), None, 0);
    let other = AccountConcurrencyKey::new("up-2".to_string(), "fp-2".to_string());
    registry.reject(&other, None, 0);
    registry.register_waiter(other.clone(), "req", "d", "l", 0);
    assert_eq!(registry.entry_count(), 2);
    assert_eq!(registry.prune_idle(10_000), 0);
    // The first account holds nothing past its cooldown and the retention.
    assert_eq!(registry.prune_idle(700_000), 2);
    assert_eq!(registry.entry_count(), 0);
}
