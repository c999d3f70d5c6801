//! The local runtime figures of one upstream that the admin view shows:
//! requests in flight and in the quota windows, the state of its leases and
//! of the queue waiting for them. Taking them doubles as a lazy sweep.
use vstd::prelude::*;
use crate::hedge::{prune_quota_events, pruned_events, UpstreamQuotaWindows};
use crate::lease_table::{
    count_of, effective_stale_after, oldest_age, percentile_of, prune_expired_upstream_leases, room_for, selection,
    swept, upstream_samples, LeaseTableView, UpstreamLeaseTable,
};
use crate::account_concurrency::KeyView;
use crate::slot_wait::{upstream_waiting, LocalSlotWaiters};

verus! {

/// One upstream's local runtime figures.
#[derive(Clone, Debug)]
pub struct UpstreamLeaseFigures {
    pub in_flight: u32,
    pub minute_requests: usize,
    pub window_requests: usize,
    pub leaked_reclaimed_total: u64,
    pub stale_reclaimed_total: u64,
    pub stale_lease_count: u32,
    pub oldest_lease_age_seconds: u64,
    pub queue_depth: u32,
    pub hold_p50_ms: Option<u64>,
    pub hold_p95_ms: Option<u64>,
    pub capacity_reject_total: u64,
}

/// `n`, capped at `u32::MAX`.
pub open spec fn cap_u32(n: int) -> u32 {
    if n > u32::MAX {
        u32::MAX
    } else {
        n as u32
    }
}

fn to_u32_capped(n: usize) -> (r: u32)
    ensures
        r == cap_u32(n as int),
{
    if n > 0xffff_ffffusize {
        0xffff_ffffu32
    } else {
        n as u32
    }
}

/// `r` holds the figures of `upstream_id` taken from the table `before`
/// (left `after`) and the windows `minute0`, `window0` (left `minute1`,
/// `window1`), with `waiting` waiting for slots.
pub open spec fn figures_taken(
    before: LeaseTableView,
    after: LeaseTableView,
    minute0: Seq<u64>,
    window0: Seq<u64>,
    minute1: Seq<u64>,
    window1: Seq<u64>,
    waiting: Seq<(KeyView, usize)>,
    upstream_id: Seq<char>,
    quota_window_seconds: u64,
    stale_after_ms: u64,
    now_s: u64,
    now_ms: u64,
    r: UpstreamLeaseFigures,
) -> bool {
    let v = swept(before, now_ms, stale_after_ms);
    let stale = Some((now_ms, effective_stale_after(stale_after_ms)));
    &&& after == v
    &&& minute1 == pruned_events(minute0, now_s, 60)
    &&& window1 == pruned_events(window0, now_s, quota_window_seconds)
    &&& r.in_flight == cap_u32(v.leases.filter(selection(upstream_id, None, None)).len() as int)
    &&& r.minute_requests == minute1.len()
    &&& r.window_requests == window1.len()
    &&& r.leaked_reclaimed_total == count_of(v.leaked_reclaimed, upstream_id)
    &&& r.stale_reclaimed_total == count_of(v.stale_reclaimed, upstream_id)
    &&& r.stale_lease_count == cap_u32(before.leases.filter(selection(upstream_id, None, stale)).len() as int)
    &&& r.oldest_lease_age_seconds == oldest_age(before.leases, selection(upstream_id, None, None), now_ms, false)
    &&& r.queue_depth == cap_u32(upstream_waiting(waiting, upstream_id) as int)
    &&& r.hold_p50_ms == percentile_of(upstream_samples(v.hold_samples, upstream_id), 50)
    &&& r.hold_p95_ms == percentile_of(upstream_samples(v.hold_samples, upstream_id), 95)
    &&& r.capacity_reject_total == count_of(v.capacity_rejected, upstream_id)
}

/// Takes `upstream_id`'s figures: the quota windows are pruned (a minute,
/// and `quota_window_seconds`, ending at `now_s`); the stale-lease count and
/// the oldest lease's age are read before the table is swept at `now_ms`,
/// everything else after it.
pub fn upstream_lease_figures(
    table: &mut UpstreamLeaseTable,
    quotas: &mut UpstreamQuotaWindows,
    waiters: &LocalSlotWaiters,
    upstream_id: &str,
    quota_window_seconds: u64,
    stale_after_ms: u64,
    now_s: u64,
    now_ms: u64,
) -> (r: UpstreamLeaseFigures)
    requires
        old(table).wf(),
        room_for(old(table)@.leaked_reclaimed, old(table)@.leases.len()),
        room_for(old(table)@.stale_reclaimed, old(table)@.leases.len()),
        upstream_waiting(waiters.entries(), upstream_id@) <= usize::MAX,
    ensures
        final(table).wf(),
        figures_taken(
            old(table)@,
            final(table)@,
            old(quotas).minute_events@,
            old(quotas).window_events@,
            final(quotas).minute_events@,
            final(quotas).window_events@,
            waiters.entries(),
            upstream_id@,
            quota_window_seconds,
            stale_after_ms,
            now_s,
            now_ms,
            r,
        ),
{
    prune_quota_events(&mut quotas.minute_events, now_s, 60);
    prune_quota_events(&mut quotas.window_events, now_s, quota_window_seconds);
    let stale_after: u64 = if stale_after_ms == 0 {
        1
    } else {
        stale_after_ms
    };
    let stale_lease_count = table.upstream_stale_lease_count(upstream_id, stale_after, now_ms);
    let oldest_lease_age_seconds = table.upstream_oldest_lease_age_seconds(upstream_id, now_ms);
    prune_expired_upstream_leases(table, now_ms, stale_after_ms);
    let in_flight = table.account_lease_count_for_upstream(upstream_id);
    let queue_depth = waiters.upstream_waiter_count(upstream_id);
    UpstreamLeaseFigures {
        in_flight: to_u32_capped(in_flight),
        minute_requests: quotas.minute_events.len(),
        window_requests: quotas.window_events.len(),
        leaked_reclaimed_total: table.leaked_reclaimed_total(upstream_id),
        stale_reclaimed_total: table.stale_reclaimed_total(upstream_id),
        stale_lease_count: to_u32_capped(stale_lease_count),
        oldest_lease_age_seconds,
        queue_depth: to_u32_capped(queue_depth),
        hold_p50_ms: table.upstream_hold_p50_ms(upstream_id),
        hold_p95_ms: table.upstream_hold_p95_ms(upstream_id),
        capacity_reject_total: table.capacity_reject_total(upstream_id),
    }
}

} // verus!
