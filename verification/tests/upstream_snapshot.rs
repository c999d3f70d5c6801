use chat_responses_codex::account_concurrency::AccountConcurrencyKey;
use chat_responses_codex::hedge::UpstreamQuotaWindows;
use chat_responses_codex::lease_table::{UpstreamLeaseRecord, UpstreamLeaseTable};
use chat_responses_codex::runtime::UpstreamLeaseKind;
use chat_responses_codex::slot_wait::LocalSlotWaiters;
use chat_responses_codex::upstream_snapshot::upstream_lease_figures;

#[test]
fn figures_read_stale_leases_before_the_sweep() {
    let mut table = UpstreamLeaseTable::new();
    let a = AccountConcurrencyKey::new("u1".into(), "k1".into());
    let b = AccountConcurrencyKey::new("u1".into(), "k2".into());
    table.insert(a.clone(), "old".into(), UpstreamLeaseRecord::new(0, 600_000, UpstreamLeaseKind::Unary));
    table.insert(b.clone(), "fresh".into(), UpstreamLeaseRecord::new(9_000, 600_000, UpstreamLeaseKind::Unary));
    let mut quotas = UpstreamQuotaWindows { minute_events: vec![10, 50, 70], window_events: vec![10, 50, 70] };
    let mut waiters = LocalSlotWaiters::new();
    assert!(waiters.try_enter(&a, 4));
    assert!(waiters.try_enter(&b, 4));
    let f = upstream_lease_figures(&mut table, &mut quotas, &waiters, "u1", 3_600, 5_000, 80, 10_000);
    assert_eq!(f.stale_lease_count, 1);
    assert_eq!(f.oldest_lease_age_seconds, 10);
    assert_eq!(f.in_flight, 1);
    assert_eq!(f.stale_reclaimed_total, 1);
    assert_eq!(f.leaked_reclaimed_total, 0);
    assert_eq!(f.minute_requests, 2);
    assert_eq!(f.window_requests, 3);
    assert_eq!(f.queue_depth, 2);
    assert_eq!(f.capacity_reject_total, 0);
    assert_eq!(f.hold_p50_ms, None);
}
