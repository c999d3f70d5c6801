//! Admitting a downstream request: a slot in its request window, then a
//! concurrency lease, all or nothing.
use vstd::prelude::*;
use crate::account_concurrency::random_token;
use crate::config::{DownstreamConfig, ModelConcurrencyGroup};
use crate::cost_window::{
    amount_since, amount_total, check_daily_cost_window, cost_verdict, daily_cost_limit, daily_cost_limit_spec, day_start,
    pruned_tokens, DownstreamTokenEvent,
};
use crate::downstream_runtime::{concurrency_reserved, BucketKey, BucketView, DownstreamRuntime};
use crate::request_window::{
    check_request_window, event_times, leading_older, record_request_event, rejection_view, retention_seconds,
    rollback_request_event, sub_or_zero, window_verdict, other_event, DownstreamRequestEvent,
};
use crate::runtime::{DownstreamAdmissionRejection, DownstreamConcurrencyLease, DownstreamRequestReservation};

verus! {

/// The window after pruning at `now`: the events older than the retention
/// dropped from the front.
pub open spec fn pruned_window(w: Seq<DownstreamRequestEvent>, d: DownstreamConfig, now: u64) -> Seq<DownstreamRequestEvent> {
    let start = sub_or_zero(now, sub_or_zero(retention_seconds(d), 1));
    w.skip(leading_older(event_times(w), start) as int)
}

/// What reserving a request slot does: a key without rate limiting gets no
/// event and its windows stay; otherwise the request window is pruned, and
/// a request it refuses (see `window_verdict`) leaves it so. A key with a
/// daily cost limit then has its cost window pruned, and a request that
/// window refuses (see `cost_verdict`) leaves both windows so. An admitted
/// request adds an event under a fresh id at `now` to the request window.
pub open spec fn request_reserved(
    before: Seq<DownstreamRequestEvent>,
    after: Seq<DownstreamRequestEvent>,
    tokens_before: Seq<DownstreamTokenEvent>,
    tokens_after: Seq<DownstreamTokenEvent>,
    d: DownstreamConfig,
    now: u64,
    r: Result<DownstreamRequestReservation, DownstreamAdmissionRejection>,
) -> bool {
    if !d.rate_limit_enabled {
        r matches Ok(res) && res.downstream_id@ == d.id@ && res.event_id is None && after == before
            && tokens_after == tokens_before
    } else {
        let pruned = pruned_window(before, d, now);
        match window_verdict(d, event_times(pruned), now) {
            Some(e) => r matches Err(x) && rejection_view(x) == rejection_view(e) && after == pruned
                && tokens_after == tokens_before,
            None => {
                let tokens = match daily_cost_limit_spec(d) {
                    Some(_) => pruned_tokens(tokens_before, now),
                    None => tokens_before,
                };
                let refusal = match daily_cost_limit_spec(d) {
                    Some(limit) => cost_verdict(tokens, limit, now),
                    None => None,
                };
                &&& tokens_after == tokens
                &&& match refusal {
                    Some(e) => r == Err::<DownstreamRequestReservation, DownstreamAdmissionRejection>(e) && after == pruned,
                    None => {
                        &&& r is Ok
                        &&& r->Ok_0.downstream_id@ == d.id@
                        &&& r->Ok_0.event_id is Some
                        &&& after == pruned.push(
                            DownstreamRequestEvent { event_id: r->Ok_0.event_id->Some_0, created_at: now },
                        )
                    },
                }
            },
        }
    }
}

/// An event taken back by id leaves the window as it was before the event
/// was added, when no earlier event had that id.
pub proof fn law_rollback_restores_window(w: Seq<DownstreamRequestEvent>, id: String, now: u64)
    requires
        forall|i: int| 0 <= i < w.len() ==> (#[trigger] w[i]).event_id@ != id@,
    ensures
        w.push(DownstreamRequestEvent { event_id: id, created_at: now }).filter(other_event(id@)) == w,
{
    reveal(Seq::filter);
    let t = w.push(DownstreamRequestEvent { event_id: id, created_at: now });
    assert(t.drop_last() =~= w);
    lemma_filter_keeps_all(w, other_event(id@));
}

proof fn lemma_filter_keeps_all(s: Seq<DownstreamRequestEvent>, p: spec_fn(DownstreamRequestEvent) -> bool)
    requires
        forall|i: int| 0 <= i < s.len() ==> #[trigger] p(s[i]),
    ensures
        s.filter(p) == s,
    decreases s.len(),
{
    reveal(Seq::filter);
    if s.len() > 0 {
        assert forall|i: int| 0 <= i < s.drop_last().len() implies #[trigger] p(s.drop_last()[i]) by {
            assert(s.drop_last()[i] == s[i]);
        }
        lemma_filter_keeps_all(s.drop_last(), p);
        assert(p(s[s.len() - 1]));
        assert(s.drop_last().push(s.last()) =~= s);
    }
}

/// Reserves a slot in the downstream's request window at `now` (unix
/// seconds), holding keys with a daily cost limit to their cost window.
pub fn reserve_downstream_request(
    window: &mut Vec<DownstreamRequestEvent>,
    token_window: &mut Vec<DownstreamTokenEvent>,
    downstream: &DownstreamConfig,
    now: u64,
) -> (r: Result<DownstreamRequestReservation, DownstreamAdmissionRejection>)
    requires
        amount_total(old(token_window)@) <= u64::MAX,
    ensures
        request_reserved(old(window)@, final(window)@, old(token_window)@, final(token_window)@, *downstream, now, r),
{
    if !downstream.rate_limit_enabled {
        return Ok(DownstreamRequestReservation { downstream_id: downstream.id.clone(), event_id: None });
    }
    match check_request_window(window, downstream, now) {
        Err(e) => {
            return Err(e);
        },
        Ok(()) => {},
    }
    match daily_cost_limit(downstream) {
        Some(limit) => match check_daily_cost_window(token_window, limit, now) {
            Err(e) => {
                return Err(e);
            },
            Ok(()) => {},
        },
        None => {},
    }
    let event_id = random_token();
    record_request_event(window, event_id.clone(), now);
    Ok(DownstreamRequestReservation { downstream_id: downstream.id.clone(), event_id: Some(event_id) })
}

/// What admitting a request did, given the slot reservation `rr` that left
/// the request window `mid`: a refused slot ends it; a granted one is
/// followed by a concurrency lease (see `concurrency_reserved`), and a
/// refused lease takes the slot's event back out of the window.
pub open spec fn admission_done(
    mid: Seq<DownstreamRequestEvent>,
    after: Seq<DownstreamRequestEvent>,
    runtime_before: Seq<(BucketKey, BucketView)>,
    runtime_after: Seq<(BucketKey, BucketView)>,
    d: DownstreamConfig,
    group: Option<&ModelConcurrencyGroup>,
    lease_ttl_seconds: u64,
    now_ms: u64,
    rr: Result<DownstreamRequestReservation, DownstreamAdmissionRejection>,
    r: Result<(DownstreamRequestReservation, DownstreamConcurrencyLease), DownstreamAdmissionRejection>,
) -> bool {
    match rr {
        Err(e) => r == Err::<(DownstreamRequestReservation, DownstreamConcurrencyLease), DownstreamAdmissionRejection>(e)
            && after == mid && runtime_after == runtime_before,
        Ok(res) => if !d.rate_limit_enabled {
            &&& runtime_after == runtime_before
            &&& after == mid
            &&& r matches Ok((x, l)) && x == res && l.downstream_id@ == d.id@ && l.group_name@ == Seq::<char>::empty()
                && l.lease_id is None
        } else {
            exists|rc: Result<DownstreamConcurrencyLease, DownstreamAdmissionRejection>|
            #[trigger] concurrency_reserved(runtime_before, runtime_after, d, group, lease_ttl_seconds, now_ms, rc)
                && match rc {
                Ok(l) => r == Ok::<(DownstreamRequestReservation, DownstreamConcurrencyLease), DownstreamAdmissionRejection>(
                    (res, l),
                ) && after == mid,
                Err(e) => r == Err::<(DownstreamRequestReservation, DownstreamConcurrencyLease), DownstreamAdmissionRejection>(e)
                    && after == match res.event_id {
                    Some(id) => mid.filter(other_event(id@)),
                    None => mid,
                },
            }
        },
    }
}

/// Admits a request of `downstream` all or nothing: a slot in its request
/// window (at `now_seconds`, see `reserve_downstream_request`), then a
/// concurrency lease in the bucket of its matched `group` (at `now_ms`); a
/// refused lease takes the slot back.
pub fn reserve_downstream_admission(
    window: &mut Vec<DownstreamRequestEvent>,
    token_window: &mut Vec<DownstreamTokenEvent>,
    runtime: &mut DownstreamRuntime,
    downstream: &DownstreamConfig,
    group: Option<&ModelConcurrencyGroup>,
    lease_ttl_seconds: u64,
    now_seconds: u64,
    now_ms: u64,
) -> (r: Result<(DownstreamRequestReservation, DownstreamConcurrencyLease), DownstreamAdmissionRejection>)
    requires
        old(runtime).wf(),
        amount_total(old(token_window)@) <= u64::MAX,
    ensures
        final(runtime).wf(),
        exists|rr: Result<DownstreamRequestReservation, DownstreamAdmissionRejection>, mid: Seq<DownstreamRequestEvent>|
            request_reserved(old(window)@, mid, old(token_window)@, final(token_window)@, *downstream, now_seconds, rr)
                && #[trigger] admission_done(
                mid,
                final(window)@,
                old(runtime)@,
                final(runtime)@,
                *downstream,
                group,
                lease_ttl_seconds,
                now_ms,
                rr,
                r,
            ),
{
    let rr = reserve_downstream_request(window, token_window, downstream, now_seconds);
    let ghost mid = window@;
    let reservation = match rr {
        Ok(res) => res,
        Err(e) => {
            assert(admission_done(mid, window@, old(runtime)@, runtime@, *downstream, group, lease_ttl_seconds, now_ms, rr, Err(e)));
            return Err(e);
        },
    };
    let rc = runtime.try_reserve_downstream_concurrency(downstream, group, lease_ttl_seconds, now_ms);
    match rc {
        Ok(lease) => {
            assert(downstream.rate_limit_enabled ==> concurrency_reserved(old(runtime)@, runtime@, *downstream, group, lease_ttl_seconds, now_ms, Ok(lease)));
            assert(rr == Ok::<DownstreamRequestReservation, DownstreamAdmissionRejection>(reservation));
            let out = Ok((reservation, lease));
            assert(admission_done(mid, window@, old(runtime)@, runtime@, *downstream, group, lease_ttl_seconds, now_ms, rr, out));
            out
        },
        Err(e) => {
            match &reservation.event_id {
                Some(id) => {
                    rollback_request_event(window, id.as_str());
                },
                None => {},
            }
            assert(admission_done(mid, window@, old(runtime)@, runtime@, *downstream, group, lease_ttl_seconds, now_ms, rr, Err(e)));
            Err(e)
        },
    }
}

/// A refused admission leaves no event in the request window that was not
/// there before: the slot of a refused lease is rolled back.
pub proof fn law_refused_admission_adds_no_event(
    before: Seq<DownstreamRequestEvent>,
    mid: Seq<DownstreamRequestEvent>,
    after: Seq<DownstreamRequestEvent>,
    tokens_before: Seq<DownstreamTokenEvent>,
    tokens_after: Seq<DownstreamTokenEvent>,
    runtime_before: Seq<(BucketKey, BucketView)>,
    runtime_after: Seq<(BucketKey, BucketView)>,
    d: DownstreamConfig,
    group: Option<&ModelConcurrencyGroup>,
    lease_ttl_seconds: u64,
    now_seconds: u64,
    now_ms: u64,
    rr: Result<DownstreamRequestReservation, DownstreamAdmissionRejection>,
    r: Result<(DownstreamRequestReservation, DownstreamConcurrencyLease), DownstreamAdmissionRejection>,
)
    requires
        request_reserved(before, mid, tokens_before, tokens_after, d, now_seconds, rr),
        admission_done(mid, after, runtime_before, runtime_after, d, group, lease_ttl_seconds, now_ms, rr, r),
        r is Err,
    ensures
        forall|e: DownstreamRequestEvent| #[trigger] after.contains(e) ==> before.contains(e),
{
    assert forall|e: DownstreamRequestEvent| #[trigger] after.contains(e) implies before.contains(e) by {
        let pruned = pruned_window(before, d, now_seconds);
        let n = leading_older(event_times(before), sub_or_zero(now_seconds, sub_or_zero(retention_seconds(d), 1)));
        lemma_leading_older_len(event_times(before), sub_or_zero(now_seconds, sub_or_zero(retention_seconds(d), 1)));
        assert forall|x: DownstreamRequestEvent| pruned.contains(x) implies before.contains(x) by {
            let k = choose|k: int| 0 <= k < pruned.len() && pruned[k] == x;
            assert(before[k + n] == x);
        }
        match rr {
            Err(_) => {},
            Ok(res) => {
                if let Some(id) = res.event_id {
                    if after.contains(e) {
                        mid.lemma_filter_contains_rev(other_event(id@), e);
                        let k = choose|k: int| 0 <= k < mid.filter(other_event(id@)).len() && mid.filter(other_event(id@))[k] == e;
                        mid.lemma_filter_pred(other_event(id@), k);
                        if mid.contains(e) {
                            let j = choose|j: int| 0 <= j < mid.len() && mid[j] == e;
                            if j < pruned.len() {
                                assert(pruned[j] == e);
                            }
                        }
                    }
                }
            }
        }
    }
}

proof fn lemma_leading_older_len(times: Seq<u64>, start: u64)
    ensures
        leading_older(times, start) <= times.len(),
    decreases times.len(),
{
    if times.len() > 0 && times[0] < start {
        lemma_leading_older_len(times.drop_first(), start);
    }
}


/// A rate-limited key billed by tokens, with a token price (input or
/// output) and a daily cost limit its billed amounts of the last day have
/// reached, is refused for its daily cost: the refusal names the limit and
/// the amount used, and no request event is added.
pub proof fn law_spent_daily_cost_refuses(
    before: Seq<DownstreamRequestEvent>,
    after: Seq<DownstreamRequestEvent>,
    tokens_before: Seq<DownstreamTokenEvent>,
    tokens_after: Seq<DownstreamTokenEvent>,
    d: DownstreamConfig,
    now: u64,
    r: Result<DownstreamRequestReservation, DownstreamAdmissionRejection>,
)
    requires
        request_reserved(before, after, tokens_before, tokens_after, d, now, r),
        d.rate_limit_enabled,
        window_verdict(d, event_times(pruned_window(before, d, now)), now) is None,
        d.billing_mode@ == "token"@,
        d.input_token_price_per_million_cents is Some || d.output_token_price_per_million_cents is Some,
        d.daily_cost_limit_cents matches Some(l) && l > 0 && amount_since(pruned_tokens(tokens_before, now), day_start(now))
            >= l,
        amount_since(pruned_tokens(tokens_before, now), day_start(now)) <= u64::MAX,
    ensures
        r matches Err(DownstreamAdmissionRejection::DailyCostQuotaExceeded { retry_after_seconds, limit, used })
            && Some(limit) == d.daily_cost_limit_cents && used == amount_since(pruned_tokens(tokens_before, now), day_start(now)),
        after == pruned_window(before, d, now),
        tokens_after == pruned_tokens(tokens_before, now),
{
    assert(daily_cost_limit_spec(d) == d.daily_cost_limit_cents);
}
} // verus!
