//! The rolling daily cost window of a downstream key billed by tokens: the
//! billed amounts of its recent requests, pruned from the front, summed over
//! the last day and held against the key's daily cost limit.
use vstd::prelude::*;
use crate::config::DownstreamConfig;
use crate::request_window::{add_or_max, sub_or_zero, token_billing};
use crate::runtime::DownstreamAdmissionRejection;

verus! {

/// How long the daily cost window reaches back, in seconds.
pub const DAILY_COST_WINDOW_SECONDS: u64 = 86_400;

/// One billed request: when it was made (unix seconds) and its amount.
#[derive(Clone, Copy, Debug, PartialEq, Eq, Structural)]
pub struct DownstreamTokenEvent {
    pub created_at: u64,
    pub tokens: u64,
}

/// The daily cost limit a key is held to: set for keys billed by tokens
/// that have a price and a daily cost limit.
pub open spec fn daily_cost_limit_spec(d: DownstreamConfig) -> Option<u64> {
    if token_billing(d) && (d.input_token_price_per_million_cents is Some
        || d.output_token_price_per_million_cents is Some) {
        d.daily_cost_limit_cents
    } else {
        None
    }
}

/// The key's daily cost limit, when it has one (see `daily_cost_limit_spec`).
pub fn daily_cost_limit(d: &DownstreamConfig) -> (r: Option<u64>)
    ensures
        r == daily_cost_limit_spec(*d),
{
    let token = crate::text::str_eq(d.billing_mode.as_str(), "token");
    if token && (d.input_token_price_per_million_cents.is_some() || d.output_token_price_per_million_cents.is_some()) {
        d.daily_cost_limit_cents
    } else {
        None
    }
}

/// A key billed by tokens with a daily cost limit and any token price set,
/// input or output, is held to that limit; no other key has one.
pub proof fn law_daily_cost_limit(d: DownstreamConfig)
    ensures
        d.billing_mode@ == "token"@ && (d.input_token_price_per_million_cents is Some
            || d.output_token_price_per_million_cents is Some) ==> daily_cost_limit_spec(d) == d.daily_cost_limit_cents,
        !(d.billing_mode@ == "token"@ && (d.input_token_price_per_million_cents is Some
            || d.output_token_price_per_million_cents is Some)) ==> daily_cost_limit_spec(d) is None,
{
}

/// How many leading events are older than `start`.
pub open spec fn leading_before(w: Seq<DownstreamTokenEvent>, start: u64) -> nat
    decreases w.len(),
{
    if w.len() == 0 || w[0].created_at >= start {
        0
    } else {
        1 + leading_before(w.drop_first(), start)
    }
}

/// The first second of the daily window ending at `now`.
pub open spec fn day_start(now: u64) -> u64 {
    sub_or_zero(now, (DAILY_COST_WINDOW_SECONDS - 1) as u64)
}

/// The window after dropping, from the front, the events before the day.
pub open spec fn pruned_tokens(w: Seq<DownstreamTokenEvent>, now: u64) -> Seq<DownstreamTokenEvent> {
    w.skip(leading_before(w, day_start(now)) as int)
}

/// The amounts of the events at `start` or later.
pub open spec fn amount_since(w: Seq<DownstreamTokenEvent>, start: u64) -> nat
    decreases w.len(),
{
    if w.len() == 0 {
        0
    } else {
        amount_since(w.drop_last(), start) + if w.last().created_at >= start {
            w.last().tokens as nat
        } else {
            0nat
        }
    }
}

/// The amount of all events.
pub open spec fn amount_total(w: Seq<DownstreamTokenEvent>) -> nat {
    amount_since(w, 0)
}

/// The time of the event (at `start` or later, oldest first) whose leaving
/// the window frees `excess` or more, counting from the oldest.
pub open spec fn freed_at(w: Seq<DownstreamTokenEvent>, start: u64, excess: nat) -> Option<u64>
    decreases w.len(),
{
    if w.len() == 0 {
        None
    } else if w[0].created_at >= start {
        if w[0].tokens >= excess {
            Some(w[0].created_at)
        } else {
            freed_at(w.drop_first(), start, (excess - w[0].tokens) as nat)
        }
    } else {
        freed_at(w.drop_first(), start, excess)
    }
}

/// The wait until the oldest events of the day have left the window and
/// taken `excess` with them; at least a second.
pub open spec fn cost_retry_after(w: Seq<DownstreamTokenEvent>, now: u64, excess: nat) -> u64 {
    let r = match freed_at(w, day_start(now), excess) {
        Some(t) => sub_or_zero(add_or_max(t, DAILY_COST_WINDOW_SECONDS), now),
        None => 0,
    };
    if r == 0 {
        1
    } else {
        r
    }
}

/// What the daily cost window (already pruned) says of one more request at
/// `now` under `limit` (at least one): refused once the day's amount reached
/// the limit.
pub open spec fn cost_verdict(w: Seq<DownstreamTokenEvent>, limit: u64, now: u64) -> Option<
    DownstreamAdmissionRejection,
> {
    let lim: u64 = if limit == 0 {
        1
    } else {
        limit
    };
    let used = amount_since(w, day_start(now));
    if used >= lim {
        Some(
            DownstreamAdmissionRejection::DailyCostQuotaExceeded {
                retry_after_seconds: cost_retry_after(w, now, (used + 1 - lim) as nat),
                limit: lim,
                used: used as u64,
            },
        )
    } else {
        None
    }
}

/// A request is refused for its daily cost exactly when the amounts billed
/// at or after the first second of the last day (`now` minus 86,399,
/// saturating) reach the limit (at least one); the refusal carries that
/// limit, the amount and a wait of at least a second.
pub proof fn law_cost_verdict(w: Seq<DownstreamTokenEvent>, limit: u64, now: u64)
    ensures
        ({
            let start: u64 = if now >= 86_399 {
                (now - 86_399) as u64
            } else {
                0
            };
            let lim: u64 = if limit == 0 {
                1
            } else {
                limit
            };
            &&& cost_verdict(w, limit, now) is Some <==> amount_since(w, start) >= lim
            &&& cost_verdict(w, limit, now) matches Some(e) ==> e matches DownstreamAdmissionRejection::DailyCostQuotaExceeded {
                retry_after_seconds,
                limit: l,
                used,
            } && l == lim && used == amount_since(w, start) as u64 && retry_after_seconds >= 1
        }),
{
}

/// An event counts towards the day's amount exactly when it was made at or
/// after the start, with its whole amount.
pub proof fn law_amount_since_step(w: Seq<DownstreamTokenEvent>, e: DownstreamTokenEvent, start: u64)
    ensures
        amount_since(w.push(e), start) == amount_since(w, start) + if e.created_at >= start {
            e.tokens as nat
        } else {
            0nat
        },
        amount_since(Seq::<DownstreamTokenEvent>::empty(), start) == 0,
{
    assert(w.push(e).drop_last() == w);
}

proof fn lemma_amount_prefix(w: Seq<DownstreamTokenEvent>, start: u64, n: int)
    requires
        0 <= n <= w.len(),
    ensures
        amount_since(w.take(n), start) <= amount_since(w, start),
        amount_since(w, start) <= amount_total(w),
    decreases w.len() - n,
{
    if n < w.len() {
        lemma_amount_prefix(w, start, n + 1);
        assert(w.take(n + 1).drop_last() == w.take(n));
    } else {
        assert(w.take(n) == w);
    }
    lemma_amount_since_total(w, start);
}

proof fn lemma_amount_since_total(w: Seq<DownstreamTokenEvent>, start: u64)
    ensures
        amount_since(w, start) <= amount_total(w),
    decreases w.len(),
{
    if w.len() > 0 {
        lemma_amount_since_total(w.drop_last(), start);
    }
}

proof fn lemma_amount_skip(w: Seq<DownstreamTokenEvent>, start: u64, n: int)
    requires
        0 <= n <= w.len(),
    ensures
        amount_since(w.skip(n), start) <= amount_since(w, start),
    decreases w.len(),
{
    if n < w.len() && w.len() > 0 {
        lemma_amount_skip(w.drop_last(), start, n);
        assert(w.skip(n).drop_last() == w.drop_last().skip(n));
        assert(w.skip(n).last() == w.last());
    } else {
        assert(w.skip(n).len() == 0);
    }
}

/// Sums the amounts of `w` at `start` or later.
fn sum_since(w: &Vec<DownstreamTokenEvent>, start: u64) -> (r: u64)
    requires
        amount_since(w@, start) <= u64::MAX,
    ensures
        r == amount_since(w@, start),
{
    let mut total: u64 = 0;
    let mut i: usize = 0;
    while i < w.len()
        invariant
            i <= w@.len(),
            amount_since(w@, start) <= u64::MAX,
            total == amount_since(w@.take(i as int), start),
        decreases w@.len() - i,
    {
        proof {
            lemma_amount_prefix(w@, start, i + 1);
            assert(w@.take(i + 1).drop_last() == w@.take(i as int));
            assert(w@.take(i + 1).last() == w@[i as int]);
        }
        if w[i].created_at >= start {
            total = total + w[i].tokens;
        }
        i = i + 1;
    }
    assert(w@.take(w@.len() as int) == w@);
    total
}

/// The wait of `cost_retry_after`, computed.
fn retry_after_exec(w: &Vec<DownstreamTokenEvent>, now: u64, excess: u64) -> (r: u64)
    ensures
        r == cost_retry_after(w@, now, excess as nat),
{
    let start = now.saturating_sub(DAILY_COST_WINDOW_SECONDS - 1);
    let mut left: u64 = excess;
    let mut i: usize = 0;
    let mut found: Option<u64> = None;
    assert(w@.skip(0) == w@);
    while i < w.len() && found.is_none()
        invariant
            i <= w@.len(),
            found is None ==> freed_at(w@, start, excess as nat) == freed_at(w@.skip(i as int), start, left as nat),
            found is Some ==> freed_at(w@, start, excess as nat) == found,
        decreases w@.len() - i,
    {
        let ghost rest = w@.skip(i as int);
        assert(rest[0] == w@[i as int]);
        assert(rest.drop_first() == w@.skip(i + 1));
        if w[i].created_at >= start {
            if w[i].tokens >= left {
                assert(freed_at(rest, start, left as nat) == Some(w@[i as int].created_at));
                found = Some(w[i].created_at);
            } else {
                left = left - w[i].tokens;
            }
        }
        i = i + 1;
    }
    proof {
        if found is None {
            assert(w@.skip(i as int) =~= Seq::<DownstreamTokenEvent>::empty());
        }
    }
    let r = match found {
        Some(t) => t.saturating_add(DAILY_COST_WINDOW_SECONDS).saturating_sub(now),
        None => 0,
    };
    if r == 0 {
        1
    } else {
        r
    }
}

/// Prunes the events before the day ending at `now` from the front of the
/// window (stopping at the first later one), then says whether a request
/// within `daily_cost_limit` (at least one) is admitted (see
/// `cost_verdict`); the window is not extended.
pub fn check_daily_cost_window(window: &mut Vec<DownstreamTokenEvent>, daily_cost_limit: u64, now: u64) -> (r: Result<
    (),
    DownstreamAdmissionRejection,
>)
    requires
        amount_total(old(window)@) <= u64::MAX,
    ensures
        final(window)@ == pruned_tokens(old(window)@, now),
        match cost_verdict(final(window)@, daily_cost_limit, now) {
            Some(e) => r == Err::<(), DownstreamAdmissionRejection>(e),
            None => r is Ok,
        },
{
    let start = now.saturating_sub(DAILY_COST_WINDOW_SECONDS - 1);
    let ghost w0 = window@;
    let mut n: usize = 0;
    assert(w0.skip(0) == w0);
    while n < window.len() && window[n].created_at < start
        invariant
            n <= window@.len(),
            w0 == window@,
            leading_before(w0, start) == n + leading_before(w0.skip(n as int), start),
        decreases window@.len() - n,
    {
        assert(w0.skip(n as int)[0] == window@[n as int]);
        assert(w0.skip(n as int).drop_first() == w0.skip(n + 1));
        n = n + 1;
    }
    proof {
        if n < window.len() {
            assert(w0.skip(n as int)[0] == window@[n as int]);
        }
        assert(leading_before(w0.skip(n as int), start) == 0);
    }
    let mut kept: Vec<DownstreamTokenEvent> = Vec::new();
    let mut j: usize = n;
    while j < window.len()
        invariant
            n <= j <= window@.len(),
            w0 == window@,
            kept@ == w0.subrange(n as int, j as int),
        decreases window@.len() - j,
    {
        kept.push(window[j]);
        assert(kept@ == w0.subrange(n as int, j + 1));
        j = j + 1;
    }
    assert(kept@ == w0.skip(n as int));
    *window = kept;
    proof {
        lemma_amount_skip(w0, start, n as int);
        lemma_amount_since_total(w0, start);
        lemma_amount_since_total(w0, 0);
    }
    let limit: u64 = if daily_cost_limit == 0 {
        1
    } else {
        daily_cost_limit
    };
    let used = sum_since(window, start);
    if used >= limit {
        let retry = retry_after_exec(window, now, used - limit + 1);
        return Err(DownstreamAdmissionRejection::DailyCostQuotaExceeded { retry_after_seconds: retry, limit, used });
    }
    Ok(())
}

/// Adds a billed amount made at `created_at` to the window.
pub fn record_token_event(window: &mut Vec<DownstreamTokenEvent>, created_at: u64, tokens: u64)
    ensures
        final(window)@ == old(window)@.push(DownstreamTokenEvent { created_at, tokens }),
{
    window.push(DownstreamTokenEvent { created_at, tokens });
}

} // verus!
