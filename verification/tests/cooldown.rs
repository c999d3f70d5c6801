use chat_responses_codex::cooldown::{upstream_feedback_figures, UpstreamCooldown};
use chat_responses_codex::hedge::UpstreamQuotaWindows;
use chat_responses_codex::lease_table::UpstreamLeaseTable;
use chat_responses_codex::slot_wait::LocalSlotWaiters;

#[test]
fn cooldown_never_shortens_and_records_feedback() {
    let mut c = UpstreamCooldown::new();
    c.mark_upstream_rate_limited(30, 1_000);
    assert_eq!(c.cooldown_until, 1_030);
    assert_eq!(c.last_feedback_type.as_deref(), Some("rate_limited"));
    assert_eq!(c.last_retry_after_seconds, Some(30));
    c.mark_upstream_concurrency_full(1_500, 1_001);
    assert_eq!(c.cooldown_until, 1_030);
    assert_eq!(c.last_feedback_type.as_deref(), Some("concurrency_full"));
    assert_eq!(c.last_retry_after_seconds, Some(2));
    c.mark_upstream_rate_limited(0, 2_000);
    assert_eq!(c.cooldown_until, 2_001);
    assert_eq!(c.cooldown_remaining(2_000), 1);
    assert_eq!(c.cooldown_remaining(3_000), 0);
    c.clear_cooldown();
    assert_eq!(c.cooldown_until, 0);
    assert_eq!(c.last_feedback_type.as_deref(), Some("rate_limited"));
}

#[test]
fn feedback_figures_report_the_cooldown() {
    let mut table = UpstreamLeaseTable::new();
    let mut quotas = UpstreamQuotaWindows { minute_events: vec![95], window_events: vec![95] };
    let waiters = LocalSlotWaiters::new();
    let mut c = UpstreamCooldown::new();
    c.mark_upstream_concurrency_full(0, 100);
    let f = upstream_feedback_figures(&mut table, &mut quotas, &waiters, &c, "u1", 3_600, 1_000, 100, 5_000);
    assert_eq!(f.cooldown_until, 101);
    assert_eq!(f.cooldown_remaining, 1);
    assert_eq!(f.last_feedback_type.as_deref(), Some("concurrency_full"));
    assert_eq!(f.last_retry_after_seconds, Some(1));
    assert_eq!(f.figures.minute_requests, 1);
    assert_eq!(f.figures.in_flight, 0);
}
