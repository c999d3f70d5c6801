//! The rolling window of a downstream key's recent requests: old events
//! pruned from the front, the per-minute limit and the request quota checked
//! against what is left.
use vstd::prelude::*;
use crate::config::DownstreamConfig;
use crate::runtime::DownstreamAdmissionRejection;
use crate::text::str_eq;

verus! {

/// One admitted request: its event id and its time (unix seconds).
#[derive(Clone, Debug)]
pub struct DownstreamRequestEvent {
    pub event_id: String,
    pub created_at: u64,
}

pub open spec fn event_times(w: Seq<DownstreamRequestEvent>) -> Seq<u64> {
    w.map_values(|e: DownstreamRequestEvent| e.created_at)
}

/// `a - b`, or zero.
pub open spec fn sub_or_zero(a: u64, b: u64) -> u64 {
    if a >= b {
        (a - b) as u64
    } else {
        0
    }
}

/// `a + b`, or `u64::MAX`.
pub open spec fn add_or_max(a: u64, b: u64) -> u64 {
    if a + b > u64::MAX {
        u64::MAX
    } else {
        (a + b) as u64
    }
}

/// Whether the key bills by tokens rather than by requests.
pub open spec fn token_billing(d: DownstreamConfig) -> bool {
    d.billing_mode@ == "token"@
}

/// The request-quota window in seconds, when the key has a quota: its hours
/// (at least one) in seconds, saturating.
pub open spec fn quota_window_seconds(d: DownstreamConfig) -> Option<u64> {
    match (d.request_quota_window_hours, d.request_quota_requests) {
        (Some(h), Some(_)) => {
            let hours: u64 = if h == 0 { 1 } else { h as u64 };
            Some(if hours * 3600 > u64::MAX { u64::MAX } else { (hours * 3600) as u64 })
        },
        _ => None,
    }
}

/// How long events are kept: the quota window, at least a minute.
pub open spec fn retention_seconds(d: DownstreamConfig) -> u64 {
    match quota_window_seconds(d) {
        Some(w) => if w < 60 { 60 } else { w },
        None => 60,
    }
}

/// How many leading events are older than `start`.
pub open spec fn leading_older(times: Seq<u64>, start: u64) -> nat
    decreases times.len(),
{
    if times.len() == 0 || times[0] >= start {
        0
    } else {
        1 + leading_older(times.drop_first(), start)
    }
}

/// How many events are at `start` or later.
pub open spec fn count_since(times: Seq<u64>, start: u64) -> nat
    decreases times.len(),
{
    if times.len() == 0 {
        0
    } else {
        count_since(times.drop_last(), start) + if times.last() >= start {
            1nat
        } else {
            0nat
        }
    }
}

/// The time of the first event at `start` or later.
pub open spec fn first_since(times: Seq<u64>, start: u64) -> Option<u64>
    decreases times.len(),
{
    if times.len() == 0 {
        None
    } else if times[0] >= start {
        Some(times[0])
    } else {
        first_since(times.drop_first(), start)
    }
}

/// The wait before a full window frees a slot: from the first event in it,
/// the window's length, at least a second.
pub open spec fn retry_after(times: Seq<u64>, start: u64, length: u64, now: u64) -> u64 {
    let oldest = match first_since(times, start) {
        Some(t) => t,
        None => now,
    };
    let r = sub_or_zero(add_or_max(oldest, length), now);
    if r == 0 { 1 } else { r }
}

/// What the window admits at `now` (unix seconds), given the events left
/// after pruning: the per-minute limit first, then, for keys billed by
/// request with a quota, the quota.
pub open spec fn window_verdict(d: DownstreamConfig, times: Seq<u64>, now: u64) -> Option<DownstreamAdmissionRejection> {
    let minute_start = sub_or_zero(now, 59);
    let minute_count = count_since(times, minute_start);
    if minute_count >= d.per_minute_limit {
        Some(
            DownstreamAdmissionRejection::PerMinuteLimitExceeded {
                retry_after_seconds: retry_after(times, minute_start, 60, now),
                limit: d.per_minute_limit,
                used: minute_count as u32,
            },
        )
    } else if !token_billing(d) && quota_window_seconds(d) is Some {
        let w = quota_window_seconds(d)->0;
        let limit: u32 = match d.request_quota_requests {
            Some(n) => if n == 0 { 1 } else { n },
            None => 1,
        };
        let quota_start = sub_or_zero(now, sub_or_zero(w, 1));
        let quota_count = count_since(times, quota_start);
        if quota_count >= limit {
            Some(
                DownstreamAdmissionRejection::RequestQuotaExceeded {
                    retry_after_seconds: retry_after(times, quota_start, w, now),
                    limit,
                    used: quota_count as u32,
                    window_seconds: w,
                },
            )
        } else {
            None
        }
    } else {
        None
    }
}

/// A request is refused for its per-minute limit exactly when the events
/// of the last minute (at or after `now` minus 59, saturating) reach the
/// limit; the refusal names the limit and that count. Past the per-minute
/// limit, a key billed by request with a request quota is refused exactly
/// when the events of its quota window reach the quota (at least one).
pub proof fn law_window_limits(d: DownstreamConfig, times: Seq<u64>, now: u64)
    ensures
        ({
            let minute_start: u64 = if now >= 59 {
                (now - 59) as u64
            } else {
                0
            };
            let in_minute = count_since(times, minute_start);
            &&& in_minute >= d.per_minute_limit ==> (window_verdict(d, times, now) matches Some(
                DownstreamAdmissionRejection::PerMinuteLimitExceeded { retry_after_seconds, limit, used },
            ) && limit == d.per_minute_limit && used == in_minute as u32 && retry_after_seconds >= 1)
            &&& in_minute < d.per_minute_limit && d.billing_mode@ == "token"@ ==> window_verdict(d, times, now) is None
            &&& in_minute < d.per_minute_limit && d.billing_mode@ != "token"@ ==> match (
                d.request_quota_window_hours,
                d.request_quota_requests,
            ) {
                (Some(h), Some(q)) => {
                    let w: u64 = ((if h == 0 {
                        1
                    } else {
                        h
                    }) * 3600) as u64;
                    let start: u64 = if now >= w - 1 {
                        (now - (w - 1)) as u64
                    } else {
                        0
                    };
                    let quota: u32 = if q == 0 {
                        1
                    } else {
                        q
                    };
                    &&& count_since(times, start) >= quota ==> (window_verdict(d, times, now) matches Some(
                        DownstreamAdmissionRejection::RequestQuotaExceeded { retry_after_seconds, limit, used, window_seconds },
                    ) && limit == quota && used == count_since(times, start) as u32 && window_seconds == w)
                    &&& count_since(times, start) < quota ==> window_verdict(d, times, now) is None
                },
                _ => window_verdict(d, times, now) is None,
            }
        }),
{
}

/// An event counts towards a window exactly when it is at or after its
/// start.
pub proof fn law_count_since_step(times: Seq<u64>, t: u64, start: u64)
    ensures
        count_since(times.push(t), start) == count_since(times, start) + if t >= start {
            1nat
        } else {
            0nat
        },
        count_since(Seq::<u64>::empty(), start) == 0,
{
    assert(times.push(t).drop_last() == times);
}

/// The rejection's kind and numbers as plain values.
pub open spec fn rejection_view(r: DownstreamAdmissionRejection) -> (u8, u64, u64, u64, u64) {
    match r {
        DownstreamAdmissionRejection::RuntimeCoordinationUnavailable => (0, 0, 0, 0, 0),
        DownstreamAdmissionRejection::ConcurrencyLimitExceeded { retry_after_seconds, limit, .. } => (
            1,
            retry_after_seconds,
            limit as u64,
            0,
            0,
        ),
        DownstreamAdmissionRejection::PerMinuteLimitExceeded { retry_after_seconds, limit, used } => (
            2,
            retry_after_seconds,
            limit as u64,
            used as u64,
            0,
        ),
        DownstreamAdmissionRejection::RequestQuotaExceeded { retry_after_seconds, limit, used, window_seconds } => (
            3,
            retry_after_seconds,
            limit as u64,
            used as u64,
            window_seconds,
        ),
        DownstreamAdmissionRejection::DailyCostQuotaExceeded { retry_after_seconds, limit, used } => (
            4,
            retry_after_seconds,
            limit,
            used,
            0,
        ),
    }
}

fn count_since_exec(window: &Vec<DownstreamRequestEvent>, start: u64) -> (r: (usize, Option<u64>))
    ensures
        r.0 == count_since(event_times(window@), start),
        r.1 == first_since(event_times(window@), start),
{
    let ghost ts = event_times(window@);
    let mut n: usize = 0;
    let mut first: Option<u64> = None;
    for i in 0..window.len()
        invariant
            ts == event_times(window@),
            n == count_since(ts.take(i as int), start),
            n <= i,
            first == first_since(ts.take(i as int), start),
    {
        assert(ts.take(i + 1).drop_last() == ts.take(i as int));
        assert(ts[i as int] == window@[i as int].created_at);
        proof {
            lemma_first_since_push(ts.take(i as int), ts[i as int], start);
            assert(ts.take(i + 1) == ts.take(i as int).push(ts[i as int]));
        }
        if window[i].created_at >= start {
            n = n + 1;
            if first.is_none() {
                first = Some(window[i].created_at);
            }
        }
    }
    assert(ts.take(ts.len() as int) == ts);
    (n, first)
}

proof fn lemma_first_since_push(times: Seq<u64>, t: u64, start: u64)
    ensures
        first_since(times.push(t), start) == match first_since(times, start) {
            Some(x) => Some(x),
            None => if t >= start {
                Some(t)
            } else {
                None
            },
        },
    decreases times.len(),
{
    if times.len() > 0 {
        assert(times.push(t)[0] == times[0]);
        assert(times.push(t).drop_first() == times.drop_first().push(t));
        lemma_first_since_push(times.drop_first(), t, start);
    } else {
        assert(times.push(t)[0] == t);
        assert(times.push(t).drop_first() == Seq::<u64>::empty());
        assert(first_since(Seq::<u64>::empty(), start) is None);
    }
}

fn retry_after_exec(first: Option<u64>, length: u64, now: u64) -> (r: u64)
    ensures
        r == (if sub_or_zero(add_or_max(match first { Some(t) => t, None => now }, length), now) == 0 {
            1
        } else {
            sub_or_zero(add_or_max(match first { Some(t) => t, None => now }, length), now)
        }),
{
    let oldest = match first {
        Some(t) => t,
        None => now,
    };
    let r = oldest.saturating_add(length).saturating_sub(now);
    if r == 0 { 1 } else { r }
}

fn quota_window_exec(d: &DownstreamConfig) -> (r: Option<u64>)
    ensures
        r == quota_window_seconds(*d),
{
    match (d.request_quota_window_hours, d.request_quota_requests) {
        (Some(h), Some(_)) => {
            let hours: u64 = if h == 0 { 1 } else { h as u64 };
            assert(hours * 3600 <= u64::MAX);
            Some(hours * 3600)
        },
        _ => None,
    }
}

/// Prunes the events older than the retention from the front of the window
/// (stopping at the first newer one), then says whether a new request is
/// admitted at `now` (see `window_verdict`); the window is not extended.
pub fn check_request_window(window: &mut Vec<DownstreamRequestEvent>, downstream: &DownstreamConfig, now: u64) -> (r:
    Result<(), DownstreamAdmissionRejection>)
    ensures
        ({
            let start = sub_or_zero(now, sub_or_zero(retention_seconds(*downstream), 1));
            let n = leading_older(event_times(old(window)@), start);
            &&& final(window)@ == old(window)@.skip(n as int)
            &&& event_times(final(window)@) == event_times(old(window)@).skip(n as int)
            &&& match window_verdict(*downstream, event_times(final(window)@), now) {
                Some(e) => r matches Err(x) && rejection_view(x) == rejection_view(e),
                None => r is Ok,
            }
        }),
{
    let quota_window = quota_window_exec(downstream);
    let retention = match quota_window {
        Some(w) => if w < 60 { 60 } else { w },
        None => 60,
    };
    let start = now.saturating_sub(retention.saturating_sub(1));
    let ghost ts0 = event_times(window@);
    let mut n: usize = 0;
    assert(ts0.skip(0) == ts0);
    while n < window.len() && window[n].created_at < start
        invariant
            n <= window@.len(),
            ts0 == event_times(window@),
            leading_older(ts0, start) == n + leading_older(ts0.skip(n as int), start),
        decreases window@.len() - n,
    {
        assert(ts0.skip(n as int)[0] == window@[n as int].created_at);
        assert(ts0.skip(n as int).drop_first() == ts0.skip(n + 1));
        n = n + 1;
    }
    proof {
        if n < window.len() {
            assert(ts0.skip(n as int)[0] == window@[n as int].created_at);
        }
        assert(leading_older(ts0.skip(n as int), start) == 0);
    }
    let mut kept: Vec<DownstreamRequestEvent> = Vec::new();
    let mut j: usize = n;
    while j < window.len()
        invariant
            n <= j <= window@.len(),
            ts0 == event_times(window@),
            event_times(kept@) == ts0.subrange(n as int, j as int),
            kept@ == window@.subrange(n as int, j as int),
        decreases window@.len() - j,
    {
        let e = DownstreamRequestEvent { event_id: window[j].event_id.clone(), created_at: window[j].created_at };
        assert(e == window@[j as int]);
        let ghost before = kept@;
        kept.push(e);
        assert(kept@ =~= window@.subrange(n as int, j + 1));
        assert(event_times(kept@) == event_times(before).push(e.created_at));
        assert(ts0.subrange(n as int, j + 1) == ts0.subrange(n as int, j as int).push(ts0[j as int]));
        j = j + 1;
    }
    assert(ts0.subrange(n as int, ts0.len() as int) == ts0.skip(n as int));
    assert(window@.subrange(n as int, window@.len() as int) =~= window@.skip(n as int));
    *window = kept;
    let minute_start = now.saturating_sub(59);
    let (minute_count, minute_first) = count_since_exec(window, minute_start);
    if minute_count >= downstream.per_minute_limit as usize {
        return Err(DownstreamAdmissionRejection::PerMinuteLimitExceeded {
            retry_after_seconds: retry_after_exec(minute_first, 60, now),
            limit: downstream.per_minute_limit,
            used: minute_count as u32,
        });
    }
    if !str_eq(downstream.billing_mode.as_str(), "token") {
        if let Some(w) = quota_window {
            let limit: u32 = match downstream.request_quota_requests {
                Some(q) => if q == 0 { 1 } else { q },
                None => 1,
            };
            let quota_start = now.saturating_sub(w.saturating_sub(1));
            let (quota_count, quota_first) = count_since_exec(window, quota_start);
            if quota_count >= limit as usize {
                return Err(DownstreamAdmissionRejection::RequestQuotaExceeded {
                    retry_after_seconds: retry_after_exec(quota_first, w, now),
                    limit,
                    used: quota_count as u32,
                    window_seconds: w,
                });
            }
        }
    }
    Ok(())
}

/// Records an admitted request at `now`.
pub fn record_request_event(window: &mut Vec<DownstreamRequestEvent>, event_id: String, now: u64)
    ensures
        final(window)@ == old(window)@.push(DownstreamRequestEvent { event_id, created_at: now }),
        event_times(final(window)@) == event_times(old(window)@).push(now),
{
    let ghost before = window@;
    window.push(DownstreamRequestEvent { event_id, created_at: now });
    assert(event_times(window@) == event_times(before).push(now));
}

pub open spec fn other_event(event_id: Seq<char>) -> spec_fn(DownstreamRequestEvent) -> bool {
    |e: DownstreamRequestEvent| e.event_id@ != event_id
}

/// Takes back the event `event_id` of a reservation that did not go
/// through; whether the window is left empty.
pub fn rollback_request_event(window: &mut Vec<DownstreamRequestEvent>, event_id: &str) -> (r: bool)
    ensures
        final(window)@ == old(window)@.filter(other_event(event_id@)),
        r == (final(window)@.len() == 0),
{
    let ghost w0 = window@;
    let mut kept: Vec<DownstreamRequestEvent> = Vec::new();
    let mut i: usize = 0;
    assert(kept@ =~= w0.take(0).filter(other_event(event_id@))) by {
        reveal(Seq::filter);
    }
    while i < window.len()
        invariant
            i <= window@.len(),
            w0 == window@,
            kept@ == w0.take(i as int).filter(other_event(event_id@)),
        decreases window@.len() - i,
    {
        proof {
            crate::lease_table::lemma_filter_take(w0, other_event(event_id@), i as int);
        }
        if !str_eq(window[i].event_id.as_str(), event_id) {
            let e = DownstreamRequestEvent { event_id: window[i].event_id.clone(), created_at: window[i].created_at };
            assert(e == w0[i as int]);
            kept.push(e);
        }
        i += 1;
    }
    assert(w0.take(w0.len() as int) =~= w0);
    *window = kept;
    window.len() == 0
}

} // verus!
