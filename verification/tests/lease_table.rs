use chat_responses_codex::account_concurrency::AccountConcurrencyKey;
use chat_responses_codex::lease_table::{
    estimate_local_concurrency_retry_after_seconds, local_slot_queue_plan, prune_expired_upstream_leases,
    renew_local_lease, reserve_local_lease, UpstreamLeaseRecord, UpstreamLeaseTable,
};
use chat_responses_codex::runtime::{UpstreamAdmissionRejectionReason, UpstreamLeaseKind};

fn account(upstream: &str, key: &str) -> AccountConcurrencyKey {
    AccountConcurrencyKey::new(upstream.to_string(), key.to_string())
}

fn held(table: &mut UpstreamLeaseTable, a: &AccountConcurrencyKey, id: &str, at: u64, ttl_ms: u64) {
    table.insert(a.clone(), id.to_string(), UpstreamLeaseRecord::new(at, ttl_ms, UpstreamLeaseKind::Unary));
}

/// Holds and releases a lease so that `hold_ms` is recorded for `a`.
fn observe_hold(table: &mut UpstreamLeaseTable, a: &AccountConcurrencyKey, id: &str, hold_ms: u64) {
    held(table, a, id, 1_000, 600_000);
    assert!(table.remove(a, id, 1_000 + hold_ms));
}

#[test]
fn counts_follow_inserts_and_releases() {
    let mut table = UpstreamLeaseTable::new();
    let a = account("u1", "k1");
    let b = account("u1", "k2");
    let c = account("u2", "k1");
    held(&mut table, &a, "l1", 0, 1_000);
    held(&mut table, &a, "l2", 0, 1_000);
    held(&mut table, &a, "l2", 0, 5_000);
    held(&mut table, &b, "l1", 0, 1_000);
    held(&mut table, &c, "l1", 0, 1_000);
    assert_eq!(table.account_lease_count(&a), 2);
    assert_eq!(table.account_lease_count(&b), 1);
    assert_eq!(table.account_lease_count_for_upstream("u1"), 3);
    assert_eq!(table.account_lease_count_for_upstream("u2"), 1);
    assert!(table.remove(&a, "l1", 10));
    assert!(!table.remove(&a, "l1", 10));
    assert_eq!(table.account_lease_count(&a), 1);
    assert_eq!(table.account_lease_count_for_upstream("u1"), 2);
}

#[test]
fn stale_counts_and_oldest_ages() {
    let mut table = UpstreamLeaseTable::new();
    let a = account("u1", "k1");
    held(&mut table, &a, "old", 0, 600_000);
    held(&mut table, &a, "new", 8_000, 600_000);
    assert_eq!(table.account_stale_lease_count(&a, 5_000, 10_000), 1);
    assert_eq!(table.upstream_stale_lease_count("u1", 1_000, 10_000), 2);
    assert_eq!(table.upstream_stale_lease_count("u2", 1_000, 10_000), 0);
    assert_eq!(table.upstream_oldest_lease_age_seconds("u1", 10_999), 10);
    assert_eq!(table.upstream_oldest_lease_age_seconds("u2", 10_999), 0);
    assert_eq!(table.oldest_held_seconds(&a, 12_500), 12);
    table.renew(&a, "old", 12_000, 600_000);
    assert_eq!(table.upstream_oldest_lease_age_seconds("u1", 12_500), 4);
    assert_eq!(table.oldest_held_seconds(&a, 12_500), 12);
}

#[test]
fn percentiles_of_observed_holds() {
    let mut table = UpstreamLeaseTable::new();
    let a = account("u1", "k1");
    let b = account("u1", "k2");
    observe_hold(&mut table, &a, "x", 1_000);
    assert_eq!(table.hold_p50_seconds(&a), None);
    assert_eq!(table.upstream_hold_p50_ms("u1"), None);
    observe_hold(&mut table, &a, "y", 3_000);
    observe_hold(&mut table, &a, "z", 2_000);
    assert_eq!(table.hold_p50_seconds(&a), Some(2));
    assert_eq!(table.hold_p95_seconds(&a), Some(3));
    observe_hold(&mut table, &b, "w", 10_500);
    assert_eq!(table.hold_p50_seconds(&b), None);
    assert_eq!(table.upstream_hold_p50_ms("u1"), Some(2_000));
    assert_eq!(table.upstream_hold_p95_ms("u1"), Some(10_500));
    assert_eq!(table.upstream_hold_p95_ms("u2"), None);
}

#[test]
fn hold_ring_keeps_the_latest_thirty_two() {
    let mut table = UpstreamLeaseTable::new();
    let a = account("u1", "k1");
    for i in 0..32u64 {
        observe_hold(&mut table, &a, &format!("l{i}"), 100_000);
    }
    assert_eq!(table.hold_p50_seconds(&a), Some(100));
    for i in 0..17u64 {
        observe_hold(&mut table, &a, &format!("m{i}"), 1_000);
    }
    assert_eq!(table.hold_p50_seconds(&a), Some(1));
    assert_eq!(table.hold_p95_seconds(&a), Some(100));
}

#[test]
fn sweep_reclaims_expired_and_stale_leases_separately() {
    let mut table = UpstreamLeaseTable::new();
    let a = account("u1", "k1");
    let b = account("u2", "k1");
    held(&mut table, &a, "expired", 0, 5_000);
    held(&mut table, &a, "silent", 0, 600_000);
    held(&mut table, &a, "fresh", 9_000, 600_000);
    held(&mut table, &b, "expired", 0, 1_000);
    let reclaimed = prune_expired_upstream_leases(&mut table, 10_000, 2_000);
    assert_eq!(reclaimed, 3);
    assert_eq!(table.account_lease_count(&a), 1);
    assert_eq!(table.account_lease_count(&b), 0);
    assert_eq!(table.leaked_reclaimed_total("u1"), 1);
    assert_eq!(table.stale_reclaimed_total("u1"), 1);
    assert_eq!(table.leaked_reclaimed_total("u2"), 1);
    assert_eq!(table.stale_reclaimed_total("u2"), 0);
    assert_eq!(prune_expired_upstream_leases(&mut table, 10_000, 2_000), 0);
    assert_eq!(table.leaked_reclaimed_total("u1"), 1);
}

#[test]
fn zero_stale_limit_means_one_millisecond() {
    let mut table = UpstreamLeaseTable::new();
    let a = account("u1", "k1");
    held(&mut table, &a, "l", 100, 600_000);
    assert_eq!(prune_expired_upstream_leases(&mut table, 101, 0), 0);
    assert_eq!(prune_expired_upstream_leases(&mut table, 102, 0), 1);
}

#[test]
fn resets_by_upstream_and_key() {
    let mut table = UpstreamLeaseTable::new();
    let a = account("u1", "k1");
    let b = account("u1", "k2");
    let c = account("u2", "k1");
    held(&mut table, &a, "1", 0, 1_000);
    held(&mut table, &a, "2", 0, 1_000);
    held(&mut table, &b, "1", 0, 1_000);
    held(&mut table, &c, "1", 0, 1_000);
    assert_eq!(table.remove_leases_for_upstream("u1", Some("k1")), 2);
    assert_eq!(table.account_lease_count_for_upstream("u1"), 1);
    assert_eq!(table.remove_leases_for_upstream("u1", None), 1);
    assert_eq!(table.account_lease_count_for_upstream("u2"), 1);
    held(&mut table, &c, "2", 0, 10);
    assert_eq!(prune_expired_upstream_leases(&mut table, 500, 100_000), 1);
    assert_eq!(prune_expired_upstream_leases(&mut table, 1_500, 100_000), 1);
    assert_eq!(table.leaked_reclaimed_total("u2"), 2);
    held(&mut table, &c, "3", 0, 1_000_000);
    table.remove_upstream("u2");
    assert_eq!(table.account_lease_count_for_upstream("u2"), 0);
    assert_eq!(table.leaked_reclaimed_total("u2"), 0);
}

#[test]
fn mark_streaming_reports_whether_the_lease_is_held() {
    let mut table = UpstreamLeaseTable::new();
    let a = account("u1", "k1");
    held(&mut table, &a, "l", 0, 1_000);
    assert!(table.mark_streaming(&a, "l"));
    assert!(!table.mark_streaming(&a, "other"));
}

#[test]
fn local_gate_admits_up_to_the_limit_then_refuses() {
    let mut table = UpstreamLeaseTable::new();
    let a = account("u1", "k1");
    let first = reserve_local_lease(&mut table, &a, 2, 300, 60_000, &vec![], 1_000).unwrap();
    let second = reserve_local_lease(&mut table, &a, 2, 300, 60_000, &vec![], 1_000).unwrap();
    assert_ne!(first, second);
    let refused = reserve_local_lease(&mut table, &a, 2, 300, 60_000, &vec![2_500], 1_000).unwrap_err();
    assert_eq!(refused.reason, UpstreamAdmissionRejectionReason::LocalConcurrency);
    assert_eq!(refused.message, "upstream request concurrency capacity is full");
    assert_eq!(refused.retry_after_seconds, 2);
    assert_eq!(table.capacity_reject_total("u1"), 1);
    assert_eq!(table.capacity_reject_total("u2"), 0);
    assert!(table.remove(&a, &first, 2_000));
    assert!(reserve_local_lease(&mut table, &a, 2, 300, 60_000, &vec![], 2_000).is_ok());
}

#[test]
fn zero_concurrency_still_admits_one() {
    let mut table = UpstreamLeaseTable::new();
    let a = account("u1", "k1");
    assert!(reserve_local_lease(&mut table, &a, 0, 0, 60_000, &vec![], 0).is_ok());
    assert!(reserve_local_lease(&mut table, &a, 0, 0, 60_000, &vec![], 0).is_err());
    assert!(reserve_local_lease(&mut table, &a, 0, 0, 60_000, &vec![], 1_000).is_ok());
}

#[test]
fn renewal_keeps_a_lease_from_expiring() {
    let mut table = UpstreamLeaseTable::new();
    let a = account("u1", "k1");
    let id = reserve_local_lease(&mut table, &a, 1, 1, 600_000, &vec![], 0).unwrap();
    renew_local_lease(&mut table, &a, &id, 1, 600_000, 900);
    assert!(reserve_local_lease(&mut table, &a, 1, 1, 600_000, &vec![], 1_500).is_err());
    assert!(reserve_local_lease(&mut table, &a, 1, 1, 600_000, &vec![], 1_900).is_ok());
}

#[test]
fn retry_after_comes_from_the_median_hold() {
    let mut table = UpstreamLeaseTable::new();
    let a = account("u1", "k1");
    assert_eq!(estimate_local_concurrency_retry_after_seconds(&vec![], &table, &a, 0), 1);
    assert_eq!(estimate_local_concurrency_retry_after_seconds(&vec![4_000], &table, &a, 0), 4);
    assert_eq!(estimate_local_concurrency_retry_after_seconds(&vec![400], &table, &a, 0), 1);
    observe_hold(&mut table, &a, "x", 20_000);
    observe_hold(&mut table, &a, "y", 30_000);
    held(&mut table, &a, "live", 100_000, 600_000);
    assert_eq!(estimate_local_concurrency_retry_after_seconds(&vec![], &table, &a, 105_000), 25);
    assert_eq!(estimate_local_concurrency_retry_after_seconds(&vec![], &table, &a, 200_000), 1);
    assert_eq!(estimate_local_concurrency_retry_after_seconds(&vec![3_000], &table, &a, 200_000), 3);
}

#[test]
fn queue_plan_scales_the_p95_hold() {
    let mut table = UpstreamLeaseTable::new();
    let a = account("u1", "k1");
    assert_eq!(local_slot_queue_plan(&table, &a, 10_000), (10_000, false));
    assert_eq!(local_slot_queue_plan(&table, &a, 0), (1, false));
    observe_hold(&mut table, &a, "x", 20_000);
    observe_hold(&mut table, &a, "y", 40_000);
    assert_eq!(local_slot_queue_plan(&table, &a, 10), (60, true));
    assert_eq!(local_slot_queue_plan(&table, &a, 50_000), (50_000, false));
    assert_eq!(local_slot_queue_plan(&table, &a, 39_000), (39_000, true));
    assert_eq!(local_slot_queue_plan(&table, &a, 39_500), (39_500, false));
    assert_eq!(local_slot_queue_plan(&table, &a, 40_000), (40_000, false));
}
