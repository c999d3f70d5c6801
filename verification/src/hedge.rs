//! Hedged requests to an upstream account: a second request that races the
//! first one. It is admitted only while the account has a free local slot
//! and the upstream's per-minute limit and request quota leave room for one
//! more request; each admitted request counts one quota unit.
use vstd::prelude::*;
use crate::account_concurrency::{copy_key, key_view, random_token, AccountConcurrencyKey};
use crate::config::UpstreamConfig;
use crate::lease_table::{
    estimate_local_concurrency_retry_after_seconds, lease_ttl_ms, local_retry_after,
    prune_expired_upstream_leases, room_for, selection, swept, with_lease, LeaseEntry, LeaseKey, LeaseTableView,
    UpstreamLeaseRecord, UpstreamLeaseTable,
};
use crate::keyed::entry_index;
use crate::request_window::{leading_older, sub_or_zero};
use crate::runtime::{UpstreamAdmissionError, UpstreamAdmissionRejectionReason, UpstreamLeaseKind};
use crate::text::owned;

verus! {

/// The times (unix seconds) of an upstream's recently admitted requests:
/// those of the last minute, and those of its request-quota window.
pub struct UpstreamQuotaWindows {
    pub minute_events: Vec<u64>,
    pub window_events: Vec<u64>,
}

/// The first second still inside a window of `window_seconds` ending at `now`.
pub open spec fn quota_window_start(now: u64, window_seconds: u64) -> u64 {
    sub_or_zero(now, sub_or_zero(window_seconds, 1))
}

/// The events left after dropping, from the front, those before the window.
pub open spec fn pruned_events(events: Seq<u64>, now: u64, window_seconds: u64) -> Seq<u64> {
    events.skip(leading_older(events, quota_window_start(now, window_seconds)) as int)
}

/// The upstream's request-quota window in seconds (its hours, at least one).
pub open spec fn upstream_quota_window(u: UpstreamConfig) -> u64 {
    ((if u.request_quota_window_hours == 0 {
        1
    } else {
        u.request_quota_window_hours
    }) * 3600) as u64
}

/// Drops from the front of `events` those that fell out of the window of
/// `window_seconds` ending at `now`, stopping at the first one inside it.
pub fn prune_quota_events(events: &mut Vec<u64>, now: u64, window_seconds: u64)
    ensures
        final(events)@ == pruned_events(old(events)@, now, window_seconds),
{
    let start = now.saturating_sub(window_seconds.saturating_sub(1));
    let ghost e0 = events@;
    let mut n: usize = 0;
    assert(e0.skip(0) == e0);
    while n < events.len() && events[n] < start
        invariant
            n <= events@.len(),
            e0 == events@,
            leading_older(e0, start) == n + leading_older(e0.skip(n as int), start),
        decreases events@.len() - n,
    {
        assert(e0.skip(n as int)[0] == events@[n as int]);
        assert(e0.skip(n as int).drop_first() == e0.skip(n + 1));
        n = n + 1;
    }
    proof {
        if n < events.len() {
            assert(e0.skip(n as int)[0] == events@[n as int]);
        }
        assert(leading_older(e0.skip(n as int), start) == 0);
    }
    let mut kept: Vec<u64> = Vec::new();
    let mut j: usize = n;
    while j < events.len()
        invariant
            n <= j <= events@.len(),
            e0 == events@,
            kept@ == e0.subrange(n as int, j as int),
        decreases events@.len() - j,
    {
        kept.push(events[j]);
        assert(kept@ == e0.subrange(n as int, j + 1));
        j = j + 1;
    }
    assert(kept@ == e0.skip(n as int));
    *events = kept;
}

/// What a hedge reservation leaves behind and returns, given the table and
/// the windows before it; `minute` and `window` are the pruned windows.
pub open spec fn hedge_outcome(
    before: LeaseTableView,
    after: LeaseTableView,
    minute: Seq<u64>,
    window: Seq<u64>,
    minute_after: Seq<u64>,
    window_after: Seq<u64>,
    upstream: UpstreamConfig,
    account: AccountConcurrencyKey,
    lease_ttl_seconds: u64,
    stale_after_ms: u64,
    probe_delays_ms: Seq<u64>,
    now_s: u64,
    now_ms: u64,
    r: Result<String, UpstreamAdmissionError>,
) -> bool {
    let sel = selection(account.upstream_id@, Some(account.key_fingerprint@), None);
    let limit: int = if upstream.max_concurrency == 0 {
        1
    } else {
        upstream.max_concurrency as int
    };
    let v = swept(before, now_ms, stale_after_ms);
    let full = "upstream hedge concurrency capacity is full"@;
    if before.leases.filter(sel).len() >= limit {
        &&& r matches Err(e) && e.reason == UpstreamAdmissionRejectionReason::LocalConcurrency && e.message@ == full
            && e.retry_after_seconds == local_retry_after(before, probe_delays_ms, key_view(account), now_ms)
        &&& after == before && minute_after == minute && window_after == window
    } else if upstream.requests_per_minute > 0 && minute.len() + 1 > upstream.requests_per_minute {
        &&& r matches Err(e) && e.reason == UpstreamAdmissionRejectionReason::HedgeMinuteQuota
            && e.message@ == "upstream hedge minute quota is exhausted"@ && e.retry_after_seconds == 1
        &&& after == before && minute_after == minute && window_after == window
    } else if upstream.request_quota_requests > 0 && window.len() + 1 > upstream.request_quota_requests {
        &&& r matches Err(e) && e.reason == UpstreamAdmissionRejectionReason::HedgeWindowQuota
            && e.message@ == "upstream hedge request quota is exhausted"@ && e.retry_after_seconds == 1
        &&& after == before && minute_after == minute && window_after == window
    } else if v.leases.filter(sel).len() >= limit {
        &&& r matches Err(e) && e.reason == UpstreamAdmissionRejectionReason::LocalConcurrency && e.message@ == full
            && e.retry_after_seconds == local_retry_after(v, probe_delays_ms, key_view(account), now_ms)
        &&& after == v && minute_after == minute && window_after == window
    } else {
        &&& r is Ok
        &&& after == (LeaseTableView {
            leases: with_lease(
                v.leases,
                (key_view(account), r->Ok_0@),
                UpstreamLeaseRecord {
                    expires_at: (now_ms + lease_ttl_ms(lease_ttl_seconds)) as u64,
                    last_renewed_at: now_ms,
                    reserved_at: now_ms,
                    kind: UpstreamLeaseKind::Unary,
                },
            ),
            ..v
        })
        &&& minute_after == minute.push(now_s)
        &&& window_after == window.push(now_s)
    }
}

/// A refused hedge counts no request in either window; an admitted one
/// counts exactly one in each, and leaves neither window above its limit.
pub proof fn law_hedge_respects_quotas(
    before: LeaseTableView,
    after: LeaseTableView,
    minute: Seq<u64>,
    window: Seq<u64>,
    minute_after: Seq<u64>,
    window_after: Seq<u64>,
    upstream: UpstreamConfig,
    account: AccountConcurrencyKey,
    lease_ttl_seconds: u64,
    stale_after_ms: u64,
    probe_delays_ms: Seq<u64>,
    now_s: u64,
    now_ms: u64,
    r: Result<String, UpstreamAdmissionError>,
)
    requires
        hedge_outcome(
            before,
            after,
            minute,
            window,
            minute_after,
            window_after,
            upstream,
            account,
            lease_ttl_seconds,
            stale_after_ms,
            probe_delays_ms,
            now_s,
            now_ms,
            r,
        ),
    ensures
        r is Err ==> minute_after == minute && window_after == window,
        r is Ok ==> minute_after == minute.push(now_s) && window_after == window.push(now_s),
        r is Ok && upstream.requests_per_minute > 0 ==> minute_after.len() <= upstream.requests_per_minute,
        r is Ok && upstream.request_quota_requests > 0 ==> window_after.len() <= upstream.request_quota_requests,
{
}

/// Setting one lease adds at most one lease of an account.
pub proof fn lemma_with_lease_count(
    s: Seq<LeaseEntry>,
    k: LeaseKey,
    rec: UpstreamLeaseRecord,
    upstream_id: Seq<char>,
    key_fingerprint: Seq<char>,
)
    ensures
        with_lease(s, k, rec).filter(selection(upstream_id, Some(key_fingerprint), None)).len() <= s.filter(
            selection(upstream_id, Some(key_fingerprint), None),
        ).len() + 1,
{
    let p = selection(upstream_id, Some(key_fingerprint), None);
    match entry_index(s, k) {
        Some(i) => {
            assert(0 <= i < s.len() && s[i].0 == k);
            let a = s.take(i);
            let b = s.skip(i + 1);
            assert(s =~= a + seq![s[i]] + b);
            assert(s.update(i, (k, rec)) =~= a + seq![(k, rec)] + b);
            Seq::filter_distributes_over_add(a + seq![s[i]], b, p);
            Seq::filter_distributes_over_add(a, seq![s[i]], p);
            Seq::filter_distributes_over_add(a + seq![(k, rec)], b, p);
            Seq::filter_distributes_over_add(a, seq![(k, rec)], p);
            assert(p(s[i]) == p((k, rec)));
            Seq::<LeaseEntry>::empty().lemma_filter_len_push(p, s[i]);
            Seq::<LeaseEntry>::empty().lemma_filter_len_push(p, (k, rec));
            assert(seq![s[i]] =~= Seq::<LeaseEntry>::empty().push(s[i]));
            assert(seq![(k, rec)] =~= Seq::<LeaseEntry>::empty().push((k, rec)));
        },
        None => {
            s.lemma_filter_len_push(p, (k, rec));
        },
    }
}

/// An admitted hedge leaves the account holding no more leases than its
/// concurrency limit (at least one).
pub proof fn law_hedge_within_limit(
    before: LeaseTableView,
    after: LeaseTableView,
    minute: Seq<u64>,
    window: Seq<u64>,
    minute_after: Seq<u64>,
    window_after: Seq<u64>,
    upstream: UpstreamConfig,
    account: AccountConcurrencyKey,
    lease_ttl_seconds: u64,
    stale_after_ms: u64,
    probe_delays_ms: Seq<u64>,
    now_s: u64,
    now_ms: u64,
    r: Result<String, UpstreamAdmissionError>,
)
    requires
        hedge_outcome(
            before,
            after,
            minute,
            window,
            minute_after,
            window_after,
            upstream,
            account,
            lease_ttl_seconds,
            stale_after_ms,
            probe_delays_ms,
            now_s,
            now_ms,
            r,
        ),
        r is Ok,
    ensures
        after.leases.filter(selection(account.upstream_id@, Some(account.key_fingerprint@), None)).len() <= (if upstream.max_concurrency == 0 {
            1
        } else {
            upstream.max_concurrency as int
        }),
{
    let v = swept(before, now_ms, stale_after_ms);
    lemma_with_lease_count(
        v.leases,
        (key_view(account), r->Ok_0@),
        UpstreamLeaseRecord {
            expires_at: (now_ms + lease_ttl_ms(lease_ttl_seconds)) as u64,
            last_renewed_at: now_ms,
            reserved_at: now_ms,
            kind: UpstreamLeaseKind::Unary,
        },
        account.upstream_id@,
        account.key_fingerprint@,
    );
}

/// Reserves a hedge lease for `account` of `upstream`. The quota windows
/// are pruned first (a minute, and the upstream's quota window, ending at
/// `now_s`). A hedge is refused when the account already holds
/// `max_concurrency` (at least one) leases, when one more request would pass
/// the per-minute limit or the request quota (each where set), or when the
/// account is still full after the table's reclaimable leases are swept at
/// `now_ms`. Otherwise a unary lease is held under a fresh random id, the
/// request is counted in both windows, and the id is handed back.
pub fn reserve_hedge_lease(
    table: &mut UpstreamLeaseTable,
    quotas: &mut UpstreamQuotaWindows,
    upstream: &UpstreamConfig,
    account: &AccountConcurrencyKey,
    lease_ttl_seconds: u64,
    stale_after_ms: u64,
    probe_delays_ms: &Vec<u64>,
    now_s: u64,
    now_ms: u64,
) -> (r: Result<String, UpstreamAdmissionError>)
    requires
        old(table).wf(),
        room_for(old(table)@.leaked_reclaimed, old(table)@.leases.len()),
        room_for(old(table)@.stale_reclaimed, old(table)@.leases.len()),
        now_ms + lease_ttl_ms(lease_ttl_seconds) <= u64::MAX,
    ensures
        final(table).wf(),
        hedge_outcome(
            old(table)@,
            final(table)@,
            pruned_events(old(quotas).minute_events@, now_s, 60),
            pruned_events(old(quotas).window_events@, now_s, upstream_quota_window(*upstream)),
            final(quotas).minute_events@,
            final(quotas).window_events@,
            *upstream,
            *account,
            lease_ttl_seconds,
            stale_after_ms,
            probe_delays_ms@,
            now_s,
            now_ms,
            r,
        ),
{
    prune_quota_events(&mut quotas.minute_events, now_s, 60);
    let quota_window = upstream.request_quota_window_seconds();
    prune_quota_events(&mut quotas.window_events, now_s, quota_window);
    let limit: usize = if upstream.max_concurrency == 0 {
        1
    } else {
        upstream.max_concurrency as usize
    };
    if table.account_lease_count(account) >= limit {
        let retry_after = estimate_local_concurrency_retry_after_seconds(probe_delays_ms, table, account, now_ms);
        return Err(
            UpstreamAdmissionError::new(
                UpstreamAdmissionRejectionReason::LocalConcurrency,
                owned("upstream hedge concurrency capacity is full"),
                retry_after,
            ),
        );
    }
    if upstream.requests_per_minute > 0 && quotas.minute_events.len() >= upstream.requests_per_minute as usize {
        return Err(
            UpstreamAdmissionError::new(
                UpstreamAdmissionRejectionReason::HedgeMinuteQuota,
                owned("upstream hedge minute quota is exhausted"),
                1,
            ),
        );
    }
    if upstream.request_quota_requests > 0 && quotas.window_events.len() >= upstream.request_quota_requests as usize {
        return Err(
            UpstreamAdmissionError::new(
                UpstreamAdmissionRejectionReason::HedgeWindowQuota,
                owned("upstream hedge request quota is exhausted"),
                1,
            ),
        );
    }
    prune_expired_upstream_leases(table, now_ms, stale_after_ms);
    if table.account_lease_count(account) >= limit {
        let retry_after = estimate_local_concurrency_retry_after_seconds(probe_delays_ms, table, account, now_ms);
        return Err(
            UpstreamAdmissionError::new(
                UpstreamAdmissionRejectionReason::LocalConcurrency,
                owned("upstream hedge concurrency capacity is full"),
                retry_after,
            ),
        );
    }
    let ttl_seconds: u64 = if lease_ttl_seconds == 0 {
        1
    } else {
        lease_ttl_seconds
    };
    let lease_id = random_token();
    let record = UpstreamLeaseRecord::new(now_ms, ttl_seconds * 1000, UpstreamLeaseKind::Unary);
    table.insert(copy_key(account), lease_id.clone(), record);
    quotas.minute_events.push(now_s);
    quotas.window_events.push(now_s);
    Ok(lease_id)
}

} // verus!
