use chat_responses_codex::config::{DownstreamConfig, ModelConcurrencyGroup};
use chat_responses_codex::downstream_runtime::DownstreamRuntime;
use chat_responses_codex::runtime::{DownstreamAdmissionRejection, DownstreamRuntimeCounts, LeaseReleaseState};

fn downstream(id: &str, max_concurrency: u32, rate_limit_enabled: bool) -> DownstreamConfig {
    DownstreamConfig {
        id: id.to_string(),
        name: id.to_string(),
        hash: "h".to_string(),
        plaintext_key: None,
        plaintext_key_prefix: None,
        model_allowlist: Vec::new(),
        rate_limit_enabled,
        per_minute_limit: 0,
        max_concurrency,
        active: true,
        billing_mode: "request".to_string(),
        is_portal_key: false,
        model_group_id: None,
        daily_token_limit: None,
        monthly_token_limit: None,
        input_token_price_per_million_cents: None,
        output_token_price_per_million_cents: None,
        daily_cost_limit_cents: None,
        request_quota_window_hours: None,
        request_quota_requests: None,
        ip_allowlist: Vec::new(),
        expires_at: None,
        model_concurrency_groups: Vec::new(),
    }
}

fn group(name: &str, cap: u32) -> ModelConcurrencyGroup {
    ModelConcurrencyGroup { name: name.to_string(), pattern: format!("{name}-*"), max_concurrency: cap }
}

fn limit_of(r: DownstreamAdmissionRejection) -> (u64, u32, Option<String>) {
    match r {
        DownstreamAdmissionRejection::ConcurrencyLimitExceeded { retry_after_seconds, limit, group } => {
            (retry_after_seconds, limit, group)
        }
        other => panic!("unexpected rejection {other:?}"),
    }
}

#[test]
fn keys_without_rate_limiting_get_no_lease() {
    let mut rt = DownstreamRuntime::new();
    let d = downstream("d1", 1, false);
    for _ in 0..3 {
        let lease = rt.try_reserve_downstream_concurrency(&d, None, 300, 0).unwrap();
        assert_eq!(lease.downstream_id, "d1");
        assert_eq!(lease.group_name, "");
        assert!(lease.lease_id.is_none());
    }
    assert_eq!(rt.runtime_counts("d1"), (0, 0));
}

#[test]
fn group_cap_refuses_first() {
    let mut rt = DownstreamRuntime::new();
    let d = downstream("d1", 10, true);
    let g = group("gpt", 1);
    let lease = rt.try_reserve_downstream_concurrency(&d, Some(&g), 300, 0).unwrap();
    assert_eq!(lease.group_name, "gpt");
    assert!(lease.lease_id.is_some());
    let refused = rt.try_reserve_downstream_concurrency(&d, Some(&g), 300, 0).unwrap_err();
    assert_eq!(limit_of(refused), (1, 1, Some("gpt".to_string())));
    assert!(rt.try_reserve_downstream_concurrency(&d, None, 300, 0).is_ok());
}

#[test]
fn downstream_cap_bounds_all_groups_together() {
    let mut rt = DownstreamRuntime::new();
    let d = downstream("d1", 2, true);
    let g1 = group("a", 5);
    let g2 = group("b", 5);
    assert!(rt.try_reserve_downstream_concurrency(&d, Some(&g1), 300, 0).is_ok());
    assert!(rt.try_reserve_downstream_concurrency(&d, Some(&g2), 300, 0).is_ok());
    let refused = rt.try_reserve_downstream_concurrency(&d, Some(&g1), 300, 0).unwrap_err();
    assert_eq!(limit_of(refused), (1, 2, Some("a".to_string())));
    let refused = rt.try_reserve_downstream_concurrency(&d, None, 300, 0).unwrap_err();
    assert_eq!(limit_of(refused), (1, 2, None));
    assert_eq!(rt.runtime_counts("d1"), (2, 0));
    assert_eq!(rt.runtime_counts("d2"), (0, 0));
}

#[test]
fn zero_caps_admit_one() {
    let mut rt = DownstreamRuntime::new();
    let d = downstream("d1", 0, true);
    assert!(rt.try_reserve_downstream_concurrency(&d, None, 300, 0).is_ok());
    assert_eq!(limit_of(rt.try_reserve_downstream_concurrency(&d, None, 300, 0).unwrap_err()), (1, 1, None));
}

#[test]
fn release_frees_the_slot_and_drops_empty_buckets() {
    let mut rt = DownstreamRuntime::new();
    let d = downstream("d1", 1, true);
    let lease = rt.try_reserve_downstream_concurrency(&d, None, 300, 0).unwrap();
    assert!(rt.try_reserve_downstream_concurrency(&d, None, 300, 0).is_err());
    assert!(rt.release_downstream_concurrency(&lease));
    assert!(!rt.release_downstream_concurrency(&lease));
    assert_eq!(rt.runtime_counts("d1"), (0, 0));
    assert!(rt.try_reserve_downstream_concurrency(&d, None, 300, 0).is_ok());
}

#[test]
fn group_leases_lapse_after_at_least_a_minute() {
    let mut rt = DownstreamRuntime::new();
    let d = downstream("d1", 1, true);
    let g = group("g", 5);
    rt.try_reserve_downstream_concurrency(&d, Some(&g), 0, 1_000).unwrap();
    assert!(rt.try_reserve_downstream_concurrency(&d, Some(&g), 0, 60_999).is_err());
    assert!(rt.try_reserve_downstream_concurrency(&d, Some(&g), 0, 61_000).is_ok());
}

#[test]
fn downstream_cap_counts_leases_not_yet_pruned() {
    let mut rt = DownstreamRuntime::new();
    let d = downstream("d1", 1, true);
    rt.try_reserve_downstream_concurrency(&d, None, 0, 0).unwrap();
    assert!(rt.try_reserve_downstream_concurrency(&d, None, 0, 120_000).is_err());
    rt.prune_all(120_000);
    assert!(rt.try_reserve_downstream_concurrency(&d, None, 0, 120_000).is_ok());
}

#[test]
fn renewal_extends_a_lease() {
    let mut rt = DownstreamRuntime::new();
    let d = downstream("d1", 1, true);
    let g = group("g", 1);
    let lease = rt.try_reserve_downstream_concurrency(&d, Some(&g), 60, 0).unwrap();
    rt.renew_downstream_concurrency(&lease, 60, 50_000);
    assert!(rt.try_reserve_downstream_concurrency(&d, Some(&g), 60, 100_000).is_err());
    assert!(rt.try_reserve_downstream_concurrency(&d, Some(&g), 60, 110_000).is_ok());
}

#[test]
fn waiting_marks_show_in_the_snapshot() {
    let mut rt = DownstreamRuntime::new();
    let d = downstream("d1", 3, true);
    let first = rt.try_reserve_downstream_concurrency(&d, None, 300, 0).unwrap();
    let _second = rt.try_reserve_downstream_concurrency(&d, None, 300, 0).unwrap();
    assert_eq!(rt.mark_downstream_waiting(&first, 10), Ok(()));
    assert_eq!(rt.mark_downstream_waiting(&first, 10), Ok(()));
    assert_eq!(
        rt.downstream_runtime_snapshot("d1", 20),
        Ok(DownstreamRuntimeCounts { admitted: 2, waiting_upstream: 1, running: 1 })
    );
    rt.unmark_downstream_waiting(&first);
    assert_eq!(
        rt.downstream_runtime_snapshot("d1", 20),
        Ok(DownstreamRuntimeCounts { admitted: 2, waiting_upstream: 0, running: 2 })
    );
    assert_eq!(
        rt.downstream_runtime_snapshot("d1", 300_000),
        Ok(DownstreamRuntimeCounts { admitted: 0, waiting_upstream: 0, running: 0 })
    );
    assert!(rt.mark_downstream_waiting(&first, 300_000).is_err());
}

#[test]
fn marking_an_unknown_bucket_fails() {
    let mut rt = DownstreamRuntime::new();
    let d = downstream("d1", 3, true);
    let mut lease = rt.try_reserve_downstream_concurrency(&d, None, 300, 0).unwrap();
    lease.group_name = "other".to_string();
    assert!(rt.mark_downstream_waiting(&lease, 0).is_err());
}

#[test]
fn clearing_drops_only_that_downstream() {
    let mut rt = DownstreamRuntime::new();
    let d1 = downstream("d1", 3, true);
    let d2 = downstream("d2", 3, true);
    rt.try_reserve_downstream_concurrency(&d1, Some(&group("g", 2)), 300, 0).unwrap();
    rt.try_reserve_downstream_concurrency(&d1, None, 300, 0).unwrap();
    rt.try_reserve_downstream_concurrency(&d2, None, 300, 0).unwrap();
    rt.clear_downstream_runtime("d1");
    assert_eq!(rt.runtime_counts("d1"), (0, 0));
    assert_eq!(rt.runtime_counts("d2"), (1, 0));
    rt.prune_all(1_000_000);
    assert_eq!(rt.runtime_counts("d2"), (0, 0));
}

#[test]
fn local_downstream_leases_expire_and_are_pruned_from_snapshots() {
    let mut rt = DownstreamRuntime::new();
    let d = downstream("local-ttl-downstream", 5, true);
    let expired = rt.try_reserve_downstream_concurrency(&d, None, 60, 0).unwrap();
    assert_eq!(rt.mark_downstream_waiting(&expired, 0), Ok(()));
    let _live = rt.try_reserve_downstream_concurrency(&d, None, 600, 50_000).unwrap();
    let counts = rt.downstream_runtime_snapshot("local-ttl-downstream", 100_000).unwrap();
    assert_eq!(counts.admitted, 1, "expired leases must be pruned");
    assert_eq!(counts.waiting_upstream, 0, "orphaned waiting entries must be pruned");
    assert_eq!(counts.running, 1);
}

#[test]
fn local_downstream_expired_leases_free_capacity_for_new_requests() {
    let mut rt = DownstreamRuntime::new();
    let d = downstream("local-ttl-capacity", 5, true);
    let g = group("test-model", 1);
    let first = rt.try_reserve_downstream_concurrency(&d, Some(&g), 60, 0).unwrap();
    assert!(first.lease_id.is_some(), "local lease id");
    assert!(
        rt.try_reserve_downstream_concurrency(&d, Some(&g), 60, 1_000).is_err(),
        "second reservation must be rejected while the first lease is live"
    );
    let second = rt.try_reserve_downstream_concurrency(&d, Some(&g), 60, 61_000).unwrap();
    assert!(second.lease_id.is_some(), "expired lease must release capacity for a new reservation");
}

#[test]
fn local_downstream_lease_renewal_extends_expiry() {
    let mut rt = DownstreamRuntime::new();
    let d = downstream("local-ttl-renewal", 5, true);
    let g = group("test-model", 1);
    let lease = rt.try_reserve_downstream_concurrency(&d, Some(&g), 60, 0).unwrap();
    assert!(lease.lease_id.is_some(), "local lease id");
    rt.renew_downstream_concurrency(&lease, 60, 59_000);
    let counts = rt.downstream_runtime_snapshot("local-ttl-renewal", 100_000).unwrap();
    assert_eq!(counts.admitted, 1, "renewal must keep the lease present");
    assert!(rt.try_reserve_downstream_concurrency(&d, Some(&g), 60, 118_000).is_err());
    assert!(rt.try_reserve_downstream_concurrency(&d, Some(&g), 60, 119_000).is_ok(), "renewal must push the expiry into the future");
}

#[test]
fn expiring_a_lease_twice_changes_nothing_the_second_time() {
    let mut rt = DownstreamRuntime::new();
    let d = downstream("d1", 2, true);
    let lease = rt.try_reserve_downstream_concurrency(&d, None, 300, 0).unwrap();
    let mut state = LeaseReleaseState::Active;
    assert!(rt.expire_downstream_request_lease(&lease, &mut state));
    assert_eq!(state, LeaseReleaseState::Released);
    assert!(!rt.expire_downstream_request_lease(&lease, &mut state));
    assert_eq!(rt.runtime_counts("d1"), (0, 0));
    let mut busy = LeaseReleaseState::Releasing;
    let other = rt.try_reserve_downstream_concurrency(&d, None, 300, 0).unwrap();
    assert!(!rt.expire_downstream_request_lease(&other, &mut busy));
    assert_eq!(rt.runtime_counts("d1"), (1, 0));
    let no_id = rt.try_reserve_downstream_concurrency(&downstream("d2", 1, false), None, 300, 0).unwrap();
    let mut active = LeaseReleaseState::Active;
    assert!(!rt.expire_downstream_request_lease(&no_id, &mut active));
    assert_eq!(active, LeaseReleaseState::Active);
}
