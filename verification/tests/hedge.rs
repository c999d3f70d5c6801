use chat_responses_codex::account_concurrency::AccountConcurrencyKey;
use chat_responses_codex::config::UpstreamConfig;
use chat_responses_codex::hedge::{prune_quota_events, reserve_hedge_lease, UpstreamQuotaWindows};
use chat_responses_codex::lease_table::UpstreamLeaseTable;
use chat_responses_codex::runtime::UpstreamAdmissionRejectionReason;

fn upstream(max_concurrency: u32, per_minute: u32, quota: u32) -> UpstreamConfig {
    UpstreamConfig {
        id: "u1".into(),
        max_concurrency,
        requests_per_minute: per_minute,
        request_quota_requests: quota,
        request_quota_window_hours: 1,
        ..UpstreamConfig::default()
    }
}

fn windows() -> UpstreamQuotaWindows {
    UpstreamQuotaWindows { minute_events: vec![], window_events: vec![] }
}

#[test]
fn quota_events_pruned_from_the_front_only() {
    let mut events = vec![10, 40, 95, 30, 100];
    prune_quota_events(&mut events, 100, 60);
    assert_eq!(events, vec![95, 30, 100]);
    let mut all_old = vec![1, 2];
    prune_quota_events(&mut all_old, 1_000, 60);
    assert!(all_old.is_empty());
}

#[test]
fn hedge_counts_each_admitted_request_in_both_windows() {
    let mut table = UpstreamLeaseTable::new();
    let mut quotas = windows();
    let a = AccountConcurrencyKey::new("u1".into(), "k1".into());
    let u = upstream(4, 10, 10);
    let id = reserve_hedge_lease(&mut table, &mut quotas, &u, &a, 300, 60_000, &vec![], 500, 1_000).unwrap();
    assert!(!id.is_empty());
    assert_eq!(quotas.minute_events, vec![500]);
    assert_eq!(quotas.window_events, vec![500]);
    assert_eq!(table.account_lease_count(&a), 1);
}

#[test]
fn hedge_refused_when_the_account_is_full() {
    let mut table = UpstreamLeaseTable::new();
    let mut quotas = windows();
    let a = AccountConcurrencyKey::new("u1".into(), "k1".into());
    let u = upstream(1, 0, 0);
    assert!(reserve_hedge_lease(&mut table, &mut quotas, &u, &a, 300, 60_000, &vec![], 500, 1_000).is_ok());
    let refused =
        reserve_hedge_lease(&mut table, &mut quotas, &u, &a, 300, 60_000, &vec![3_000], 500, 1_000).unwrap_err();
    assert_eq!(refused.reason, UpstreamAdmissionRejectionReason::LocalConcurrency);
    assert_eq!(refused.message, "upstream hedge concurrency capacity is full");
    assert_eq!(refused.retry_after_seconds, 3);
    assert_eq!(quotas.minute_events.len(), 1);
    assert_eq!(table.capacity_reject_total("u1"), 0);
}

#[test]
fn hedge_refused_by_the_minute_limit_then_admitted_a_minute_later() {
    let mut table = UpstreamLeaseTable::new();
    let mut quotas = windows();
    let a = AccountConcurrencyKey::new("u1".into(), "k1".into());
    let u = upstream(10, 2, 0);
    assert!(reserve_hedge_lease(&mut table, &mut quotas, &u, &a, 300, 60_000, &vec![], 100, 1_000).is_ok());
    assert!(reserve_hedge_lease(&mut table, &mut quotas, &u, &a, 300, 60_000, &vec![], 110, 1_000).is_ok());
    let refused =
        reserve_hedge_lease(&mut table, &mut quotas, &u, &a, 300, 60_000, &vec![], 120, 1_000).unwrap_err();
    assert_eq!(refused.reason, UpstreamAdmissionRejectionReason::HedgeMinuteQuota);
    assert_eq!(refused.message, "upstream hedge minute quota is exhausted");
    assert_eq!(refused.retry_after_seconds, 1);
    assert_eq!(table.account_lease_count(&a), 2);
    assert!(reserve_hedge_lease(&mut table, &mut quotas, &u, &a, 300, 60_000, &vec![], 160, 1_000).is_ok());
    assert_eq!(quotas.minute_events, vec![110, 160]);
    assert_eq!(quotas.window_events, vec![100, 110, 160]);
}

#[test]
fn hedge_refused_by_the_request_quota() {
    let mut table = UpstreamLeaseTable::new();
    let mut quotas = windows();
    let a = AccountConcurrencyKey::new("u1".into(), "k1".into());
    let u = upstream(10, 0, 1);
    assert!(reserve_hedge_lease(&mut table, &mut quotas, &u, &a, 300, 60_000, &vec![], 100, 1_000).is_ok());
    let refused =
        reserve_hedge_lease(&mut table, &mut quotas, &u, &a, 300, 60_000, &vec![], 1_000, 1_000).unwrap_err();
    assert_eq!(refused.reason, UpstreamAdmissionRejectionReason::HedgeWindowQuota);
    assert_eq!(refused.message, "upstream hedge request quota is exhausted");
    assert!(reserve_hedge_lease(&mut table, &mut quotas, &u, &a, 300, 60_000, &vec![], 3_700, 1_000).is_ok());
}
