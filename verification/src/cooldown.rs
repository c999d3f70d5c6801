//! An upstream's cooldown after negative feedback (rate limiting, a full
//! account), and the runtime figures that report it.
use vstd::prelude::*;
use crate::hedge::UpstreamQuotaWindows;
use crate::lease_table::{room_for, UpstreamLeaseTable};
use crate::request_window::{add_or_max, sub_or_zero};
use crate::slot_wait::{upstream_waiting, LocalSlotWaiters};
use crate::text::owned;
use crate::upstream_snapshot::{upstream_lease_figures, UpstreamLeaseFigures};

verus! {

/// Until when (unix seconds) an upstream cools down, and the last feedback
/// that put it there.
#[derive(Clone, Debug)]
pub struct UpstreamCooldown {
    pub cooldown_until: u64,
    pub last_feedback_type: Option<String>,
    pub last_retry_after_seconds: Option<u64>,
}

pub open spec fn opt_text(v: Option<String>) -> Option<Seq<char>> {
    match v {
        Some(s) => Some(s@),
        None => None,
    }
}

/// The cooldown in seconds a full account asks for: its ms rounded up, at
/// least one.
pub open spec fn concurrency_cooldown_seconds(cooldown_ms: u64) -> u64 {
    let s = add_or_max(cooldown_ms, 999) / 1000;
    if s == 0 {
        1
    } else {
        s as u64
    }
}

impl UpstreamCooldown {
    /// No cooldown and no feedback yet.
    pub fn new() -> (r: Self)
        ensures
            r.cooldown_until == 0,
            r.last_feedback_type is None,
            r.last_retry_after_seconds is None,
    {
        UpstreamCooldown { cooldown_until: 0, last_feedback_type: None, last_retry_after_seconds: None }
    }

    /// Cools the upstream down for `cooldown_seconds` (at least one) from
    /// `now`, never shortening a cooldown already running, and records the
    /// feedback.
    pub fn mark_upstream_cooldown(&mut self, cooldown_seconds: u64, feedback_type: &str, now: u64)
        ensures
            ({
                let secs: u64 = if cooldown_seconds == 0 {
                    1
                } else {
                    cooldown_seconds
                };
                let until = add_or_max(now, secs);
                &&& final(self).cooldown_until == (if old(self).cooldown_until >= until {
                    old(self).cooldown_until
                } else {
                    until
                })
                &&& opt_text(final(self).last_feedback_type) == Some(feedback_type@)
                &&& final(self).last_retry_after_seconds == Some(secs)
            }),
    {
        let secs: u64 = if cooldown_seconds == 0 {
            1
        } else {
            cooldown_seconds
        };
        let until = now.saturating_add(secs);
        if self.cooldown_until < until {
            self.cooldown_until = until;
        }
        self.last_feedback_type = Some(owned(feedback_type));
        self.last_retry_after_seconds = Some(secs);
    }

    /// The upstream answered that it is rate limited for `retry_after_seconds`.
    pub fn mark_upstream_rate_limited(&mut self, retry_after_seconds: u64, now: u64)
        ensures
            ({
                let secs: u64 = if retry_after_seconds == 0 {
                    1
                } else {
                    retry_after_seconds
                };
                let until = add_or_max(now, secs);
                &&& final(self).cooldown_until == (if old(self).cooldown_until >= until {
                    old(self).cooldown_until
                } else {
                    until
                })
                &&& opt_text(final(self).last_feedback_type) == Some("rate_limited"@)
                &&& final(self).last_retry_after_seconds == Some(secs)
            }),
    {
        self.mark_upstream_cooldown(retry_after_seconds, "rate_limited", now);
    }

    /// The upstream answered that the account's concurrency is full, asking
    /// for `cooldown_ms` of rest.
    pub fn mark_upstream_concurrency_full(&mut self, cooldown_ms: u64, now: u64)
        ensures
            ({
                let secs = concurrency_cooldown_seconds(cooldown_ms);
                let until = add_or_max(now, secs);
                &&& final(self).cooldown_until == (if old(self).cooldown_until >= until {
                    old(self).cooldown_until
                } else {
                    until
                })
                &&& opt_text(final(self).last_feedback_type) == Some("concurrency_full"@)
                &&& final(self).last_retry_after_seconds == Some(secs)
            }),
    {
        let rounded = cooldown_ms.saturating_add(999) / 1000;
        let secs: u64 = if rounded == 0 {
            1
        } else {
            rounded
        };
        self.mark_upstream_cooldown(secs, "concurrency_full", now);
    }

    /// Ends the cooldown; the last feedback stays on record.
    pub fn clear_cooldown(&mut self)
        ensures
            final(self).cooldown_until == 0,
            opt_text(final(self).last_feedback_type) == opt_text(old(self).last_feedback_type),
            final(self).last_retry_after_seconds == old(self).last_retry_after_seconds,
    {
        self.cooldown_until = 0;
    }

    /// Seconds of cooldown left at `now`.
    pub fn cooldown_remaining(&self, now: u64) -> (r: u64)
        ensures
            r == sub_or_zero(self.cooldown_until, now),
    {
        self.cooldown_until.saturating_sub(now)
    }
}

/// An upstream's runtime figures together with its cooldown and feedback.
#[derive(Clone, Debug)]
pub struct UpstreamFeedbackFigures {
    pub figures: UpstreamLeaseFigures,
    pub cooldown_until: u64,
    pub cooldown_remaining: u64,
    pub last_feedback_type: Option<String>,
    pub last_retry_after_seconds: Option<u64>,
}

/// Takes `upstream_id`'s figures (see `upstream_lease_figures`) and adds its
/// cooldown at `now_s` and its last feedback.
pub fn upstream_feedback_figures(
    table: &mut UpstreamLeaseTable,
    quotas: &mut UpstreamQuotaWindows,
    waiters: &LocalSlotWaiters,
    cooldown: &UpstreamCooldown,
    upstream_id: &str,
    quota_window_seconds: u64,
    stale_after_ms: u64,
    now_s: u64,
    now_ms: u64,
) -> (r: UpstreamFeedbackFigures)
    requires
        old(table).wf(),
        room_for(old(table)@.leaked_reclaimed, old(table)@.leases.len()),
        room_for(old(table)@.stale_reclaimed, old(table)@.leases.len()),
        upstream_waiting(waiters.entries(), upstream_id@) <= usize::MAX,
    ensures
        final(table).wf(),
        r.cooldown_until == cooldown.cooldown_until,
        r.cooldown_remaining == sub_or_zero(cooldown.cooldown_until, now_s),
        opt_text(r.last_feedback_type) == opt_text(cooldown.last_feedback_type),
        r.last_retry_after_seconds == cooldown.last_retry_after_seconds,
        crate::upstream_snapshot::figures_taken(
            old(table)@,
            final(table)@,
            old(quotas).minute_events@,
            old(quotas).window_events@,
            final(quotas).minute_events@,
            final(quotas).window_events@,
            waiters.entries(),
            upstream_id@,
            quota_window_seconds,
            stale_after_ms,
            now_s,
            now_ms,
            r.figures,
        ),
{
    let figures = upstream_lease_figures(
        table,
        quotas,
        waiters,
        upstream_id,
        quota_window_seconds,
        stale_after_ms,
        now_s,
        now_ms,
    );
    let last_feedback_type = match &cooldown.last_feedback_type {
        Some(t) => Some(t.clone()),
        None => None,
    };
    UpstreamFeedbackFigures {
        figures,
        cooldown_until: cooldown.cooldown_until,
        cooldown_remaining: cooldown.cooldown_remaining(now_s),
        last_feedback_type,
        last_retry_after_seconds: cooldown.last_retry_after_seconds,
    }
}

} // verus!
