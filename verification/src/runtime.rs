//! Runtime bookkeeping of admitted requests: lease records, admission
//! rejections, probe batches, active-request snapshots, and the small pure
//! rules around them.
use vstd::prelude::*;
use crate::config::{UpstreamProtocol, WireProtocol};
use crate::text::{
    canonical_seq, chars_eq, chars_of, decimal_seq, lower_chars, owned, push_text,
    string_from_chars, trimmed_chars, views,
};

verus! {

/// Outcome of a legacy route-health repair pass.
#[derive(Debug, Clone, Copy, PartialEq, Eq)]
pub struct LegacyRouteHealthRepairReport {
    pub scanned_routes: u64,
    pub repaired_routes: u64,
}

/// A reservation of one downstream request slot.
#[derive(Clone, Debug)]
pub struct DownstreamRequestReservation {
    pub downstream_id: String,
    pub event_id: Option<String>,
}

/// Per-downstream runtime counters.
#[derive(Clone, Debug, Default, PartialEq, Eq)]
pub struct DownstreamRuntimeCounts {
    pub admitted: u32,
    pub waiting_upstream: u32,
    pub running: u32,
}

/// Admitted leases of one downstream bucket: lease id with its absolute
/// expiry (unix millis), and the lease ids waiting on an upstream.
#[derive(Debug)]
pub struct DownstreamLeaseState {
    pub admitted: Vec<(String, u64)>,
    pub waiting: Vec<String>,
}

pub open spec fn admitted_view(v: Seq<(String, u64)>) -> Seq<(Seq<char>, u64)> {
    v.map_values(|e: (String, u64)| (e.0@, e.1))
}

pub open spec fn alive_after(now_ms: u64) -> spec_fn((Seq<char>, u64)) -> bool {
    |e: (Seq<char>, u64)| e.1 > now_ms
}

pub open spec fn admitted_in(admitted: Seq<(Seq<char>, u64)>) -> spec_fn(Seq<char>) -> bool {
    |id: Seq<char>| exists|k: int| 0 <= k < admitted.len() && admitted[k].0 == id
}

/// The admitted leases alive at `now_ms` (expiry strictly later), in order.
pub open spec fn live_leases(v: Seq<(Seq<char>, u64)>, now_ms: u64) -> Seq<(Seq<char>, u64)> {
    v.filter(alive_after(now_ms))
}

/// The waiting ids whose lease is still admitted, in order.
pub open spec fn waiting_kept(w: Seq<Seq<char>>, admitted: Seq<(Seq<char>, u64)>) -> Seq<Seq<char>> {
    w.filter(admitted_in(admitted))
}

impl DownstreamLeaseState {
    pub fn new() -> (r: Self)
        ensures
            r.admitted@.len() == 0,
            r.waiting@.len() == 0,
    {
        DownstreamLeaseState { admitted: Vec::new(), waiting: Vec::new() }
    }

    /// Drops the leases expired at `now_ms`, then the waiting ids whose lease
    /// is gone: an unreleased lease stops holding capacity once it lapses.
    pub fn prune_expired(&mut self, now_ms: u64)
        ensures
            admitted_view(final(self).admitted@) == live_leases(admitted_view(old(self).admitted@), now_ms),
            views(final(self).waiting@) == waiting_kept(views(old(self).waiting@), admitted_view(final(self).admitted@)),
    {
        let ghost av = admitted_view(self.admitted@);
        let mut kept: Vec<(String, u64)> = Vec::new();
        for i in 0..self.admitted.len()
            invariant
                av == admitted_view(self.admitted@),
                admitted_view(kept@) == live_leases(av.take(i as int), now_ms),
        {
            assert(av.take(i + 1).drop_last() == av.take(i as int));
            assert(av.take(i + 1).last() == (self.admitted@[i as int].0@, self.admitted@[i as int].1));
            reveal_with_fuel(Seq::filter, 1);
            if self.admitted[i].1 > now_ms {
                let e = (self.admitted[i].0.clone(), self.admitted[i].1);
                let ghost before = admitted_view(kept@);
                kept.push(e);
                assert(admitted_view(kept@) =~= before.push((e.0@, e.1)));
            }
        }
        assert(av.take(av.len() as int) == av);
        let ghost kv = admitted_view(kept@);
        let ghost wv = views(self.waiting@);
        let mut waiting: Vec<String> = Vec::new();
        for i in 0..self.waiting.len()
            invariant
                wv == views(self.waiting@),
                kv == admitted_view(kept@),
                views(waiting@) == waiting_kept(wv.take(i as int), kv),
        {
            assert(wv.take(i + 1).drop_last() == wv.take(i as int));
            assert(wv.take(i + 1).last() == self.waiting@[i as int]@);
            reveal_with_fuel(Seq::filter, 1);
            let id = chars_of(self.waiting[i].as_str());
            let mut found = false;
            for k in 0..kept.len()
                invariant
                    kv == admitted_view(kept@),
                    found == exists|t: int| 0 <= t < k && kv[t].0 == id@,
            {
                assert(kv[k as int].0 == kept@[k as int].0@);
                if !found && chars_eq(&chars_of(kept[k].0.as_str()), &id) {
                    found = true;
                }
            }
            if found {
                let s = self.waiting[i].clone();
                proof {
                    crate::text::lemma_views_push(waiting@, s);
                }
                waiting.push(s);
            }
        }
        assert(wv.take(wv.len() as int) == wv);
        self.admitted = kept;
        self.waiting = waiting;
    }

    pub fn is_empty(&self) -> (r: bool)
        ensures
            r == (self.admitted@.len() == 0 && self.waiting@.len() == 0),
    {
        self.admitted.len() == 0 && self.waiting.len() == 0
    }
}

/// The admitted counts of every group bucket of one downstream.
pub open spec fn total_admitted(runtime: Seq<(Seq<char>, Seq<char>, nat)>, downstream_id: Seq<char>) -> nat
    decreases runtime.len(),
{
    if runtime.len() == 0 {
        0
    } else {
        total_admitted(runtime.drop_last(), downstream_id) + if runtime.last().0 == downstream_id {
            runtime.last().2
        } else {
            0
        }
    }
}

pub open spec fn buckets_view(v: Seq<((String, String), DownstreamLeaseState)>) -> Seq<(Seq<char>, Seq<char>, nat)> {
    v.map_values(|b: ((String, String), DownstreamLeaseState)| (b.0.0@, b.0.1@, b.1.admitted@.len()))
}

/// All admitted leases of a downstream across its group buckets.
pub fn downstream_total_admitted(runtime: &Vec<((String, String), DownstreamLeaseState)>, downstream_id: &str) -> (r: usize)
    requires
        total_admitted(buckets_view(runtime@), downstream_id@) <= usize::MAX,
    ensures
        r == total_admitted(buckets_view(runtime@), downstream_id@),
{
    let ghost bv = buckets_view(runtime@);
    let id = chars_of(downstream_id);
    let mut total: usize = 0;
    for i in 0..runtime.len()
        invariant
            bv == buckets_view(runtime@),
            id@ == downstream_id@,
            total == total_admitted(bv.take(i as int), downstream_id@),
            total_admitted(bv, downstream_id@) <= usize::MAX,
    {
        assert(bv.take(i + 1).drop_last() == bv.take(i as int));
        assert(bv.take(i + 1).last() == (runtime@[i as int].0.0@, runtime@[i as int].0.1@, runtime@[i as int].1.admitted@.len()));
        proof {
            lemma_total_admitted_prefix(bv, downstream_id@, i + 1);
        }
        if chars_eq(&chars_of(runtime[i].0.0.as_str()), &id) {
            total = total + runtime[i].1.admitted.len();
        }
    }
    assert(bv.take(bv.len() as int) == bv);
    total
}

proof fn lemma_total_admitted_prefix(s: Seq<(Seq<char>, Seq<char>, nat)>, id: Seq<char>, n: int)
    requires
        0 <= n <= s.len(),
    ensures
        total_admitted(s.take(n), id) <= total_admitted(s, id),
    decreases s.len() - n,
{
    if n < s.len() {
        assert(s.take(n + 1).drop_last() == s.take(n));
        lemma_total_admitted_prefix(s, id, n + 1);
    } else {
        assert(s.take(n) == s);
    }
}

/// A downstream concurrency lease: the downstream, the matched model group
/// (empty when none matched) and the runtime lease id when one was reserved.
#[derive(Clone, Debug)]
pub struct DownstreamConcurrencyLease {
    pub downstream_id: String,
    pub group_name: String,
    pub lease_id: Option<String>,
}

impl DownstreamConcurrencyLease {
    pub fn downstream_id(&self) -> (r: &str)
        ensures
            r@ == self.downstream_id@,
    {
        self.downstream_id.as_str()
    }

    pub fn group_name(&self) -> (r: &str)
        ensures
            r@ == self.group_name@,
    {
        self.group_name.as_str()
    }

    /// The runtime lease id, when a lease was actually reserved.
    pub fn lease_id(&self) -> (r: Option<&str>)
        ensures
            match self.lease_id {
                Some(id) => r matches Some(x) && x@ == id@,
                None => r is None,
            },
    {
        match &self.lease_id {
            Some(id) => Some(id.as_str()),
            None => None,
        }
    }
}

/// An upstream account lease.
#[derive(Clone, Debug)]
pub struct UpstreamRequestLease {
    pub account: crate::account_concurrency::AccountConcurrencyKey,
    pub lease_id: String,
}

impl UpstreamRequestLease {
    pub fn upstream_id(&self) -> (r: &str)
        ensures
            r@ == self.account.upstream_id@,
    {
        self.account.upstream_id.as_str()
    }
}

/// The release progress of a lease shared by its clones.
#[derive(Clone, Copy, Debug, PartialEq, Eq, Structural)]
pub enum LeaseReleaseState {
    Active,
    Releasing,
    Released,
}

/// The release of a lease is already in progress elsewhere.
#[derive(Clone, Copy, Debug, PartialEq, Eq, Structural)]
pub struct RuntimeCoordinationError;

/// Exclusive right to release a lease, obtained by moving it from `Active`
/// to `Releasing`.
#[derive(Debug)]
pub struct LeaseReleaseGuard {
    pub completed: bool,
}

impl LeaseReleaseGuard {
    /// Claims the release: an active lease becomes releasing and the caller
    /// gets the guard; a released lease yields `None`; a lease being released
    /// by someone else is an error.
    pub fn acquire(state: &mut LeaseReleaseState) -> (r: Result<Option<LeaseReleaseGuard>, RuntimeCoordinationError>)
        ensures
            *old(state) == LeaseReleaseState::Active ==> (r matches Ok(Some(g)) && !g.completed
                && *final(state) == LeaseReleaseState::Releasing),
            *old(state) == LeaseReleaseState::Released ==> (r matches Ok(None) && *final(state)
                == LeaseReleaseState::Released),
            *old(state) == LeaseReleaseState::Releasing ==> r is Err && *final(state)
                == LeaseReleaseState::Releasing,
    {
        match *state {
            LeaseReleaseState::Active => {
                *state = LeaseReleaseState::Releasing;
                Ok(Some(LeaseReleaseGuard { completed: false }))
            },
            LeaseReleaseState::Released => Ok(None),
            LeaseReleaseState::Releasing => Err(RuntimeCoordinationError),
        }
    }

    /// Finishes the release: the lease is released for good.
    pub fn complete(self, state: &mut LeaseReleaseState)
        ensures
            *final(state) == LeaseReleaseState::Released,
    {
        *state = LeaseReleaseState::Released;
    }

    /// Gives the claim up without releasing (what dropping an unfinished guard
    /// does): the lease is active again.
    pub fn abandon(self, state: &mut LeaseReleaseState)
        ensures
            self.completed ==> *final(state) == *old(state),
            !self.completed ==> *final(state) == LeaseReleaseState::Active,
    {
        if !self.completed {
            *state = LeaseReleaseState::Active;
        }
    }
}

/// The Chat Completions or Responses protocol of a wire protocol; Messages
/// has none.
pub fn upstream_protocol_from_wire(protocol: WireProtocol) -> (r: Option<UpstreamProtocol>)
    ensures
        r == match protocol {
            WireProtocol::ChatCompletions => Some(UpstreamProtocol::ChatCompletions),
            WireProtocol::Responses => Some(UpstreamProtocol::Responses),
            WireProtocol::Messages => None::<UpstreamProtocol>,
        },
{
    match protocol {
        WireProtocol::ChatCompletions => Some(UpstreamProtocol::ChatCompletions),
        WireProtocol::Responses => Some(UpstreamProtocol::Responses),
        WireProtocol::Messages => None,
    }
}

/// The key counting fallback-stage failures: the five parts canonicalized
/// and joined with `::`.
pub open spec fn fallback_key_spec(
    downstream_id: Seq<char>,
    client_family: Seq<char>,
    model_slug: Seq<char>,
    upstream_id: Seq<char>,
    stage: Seq<char>,
) -> Seq<char> {
    canonical_seq(downstream_id) + "::"@ + canonical_seq(client_family) + "::"@ + canonical_seq(
        model_slug,
    ) + "::"@ + canonical_seq(upstream_id) + "::"@ + canonical_seq(stage)
}

pub fn fallback_stage_failure_key(
    downstream_id: &str,
    client_family: &str,
    model_slug: &str,
    upstream_id: &str,
    stage: &str,
) -> (r: String)
    ensures
        r@ == fallback_key_spec(downstream_id@, client_family@, model_slug@, upstream_id@, stage@),
{
    let mut r = string_from_chars(&crate::text::canonical_chars(downstream_id));
    push_text(&mut r, "::");
    push_text(&mut r, string_from_chars(&crate::text::canonical_chars(client_family)).as_str());
    push_text(&mut r, "::");
    push_text(&mut r, string_from_chars(&crate::text::canonical_chars(model_slug)).as_str());
    push_text(&mut r, "::");
    push_text(&mut r, string_from_chars(&crate::text::canonical_chars(upstream_id)).as_str());
    push_text(&mut r, "::");
    push_text(&mut r, string_from_chars(&crate::text::canonical_chars(stage)).as_str());
    r
}

/// Why a downstream request was not admitted.
#[derive(Debug, Clone)]
pub enum DownstreamAdmissionRejection {
    RuntimeCoordinationUnavailable,
    ConcurrencyLimitExceeded { retry_after_seconds: u64, limit: u32, group: Option<String> },
    PerMinuteLimitExceeded { retry_after_seconds: u64, limit: u32, used: u32 },
    RequestQuotaExceeded { retry_after_seconds: u64, limit: u32, used: u32, window_seconds: u64 },
    DailyCostQuotaExceeded { retry_after_seconds: u64, limit: u64, used: u64 },
}

impl DownstreamAdmissionRejection {
    /// Seconds the client should wait: one when coordination is unavailable,
    /// else the carried delay, at least one.
    pub fn retry_after_seconds(&self) -> (r: u64)
        ensures
            r == match self {
                DownstreamAdmissionRejection::RuntimeCoordinationUnavailable => 1,
                DownstreamAdmissionRejection::ConcurrencyLimitExceeded { retry_after_seconds, .. }
                | DownstreamAdmissionRejection::PerMinuteLimitExceeded { retry_after_seconds, .. }
                | DownstreamAdmissionRejection::RequestQuotaExceeded { retry_after_seconds, .. }
                | DownstreamAdmissionRejection::DailyCostQuotaExceeded { retry_after_seconds, .. } =>
                    if *retry_after_seconds == 0 { 1 } else { *retry_after_seconds },
            },
            r >= 1,
    {
        match self {
            DownstreamAdmissionRejection::RuntimeCoordinationUnavailable => 1,
            DownstreamAdmissionRejection::ConcurrencyLimitExceeded { retry_after_seconds, .. }
            | DownstreamAdmissionRejection::PerMinuteLimitExceeded { retry_after_seconds, .. }
            | DownstreamAdmissionRejection::RequestQuotaExceeded { retry_after_seconds, .. }
            | DownstreamAdmissionRejection::DailyCostQuotaExceeded { retry_after_seconds, .. } => {
                if *retry_after_seconds == 0 {
                    1
                } else {
                    *retry_after_seconds
                }
            },
        }
    }
}

/// Why an upstream account request was not admitted.
#[derive(Debug, Clone, Copy, PartialEq, Eq, Structural)]
pub enum UpstreamAdmissionRejectionReason {
    LocalConcurrency,
    HedgeMinuteQuota,
    HedgeWindowQuota,
    RuntimeCoordinationUnavailable,
}

/// An upstream admission refusal with its retry delay.
#[derive(Debug, Clone)]
pub struct UpstreamAdmissionError {
    pub message: String,
    pub retry_after_seconds: u64,
    pub reason: UpstreamAdmissionRejectionReason,
}

impl UpstreamAdmissionError {
    /// A refusal whose retry delay is at least one second.
    pub fn new(reason: UpstreamAdmissionRejectionReason, message: String, retry_after_seconds: u64) -> (r: Self)
        ensures
            r.reason == reason,
            r.message == message,
            r.retry_after_seconds == if retry_after_seconds == 0 { 1 } else { retry_after_seconds },
    {
        UpstreamAdmissionError {
            message,
            retry_after_seconds: if retry_after_seconds == 0 {
                1
            } else {
                retry_after_seconds
            },
            reason,
        }
    }

    /// The refusal used when runtime coordination is unavailable.
    pub fn runtime_coordination_unavailable() -> (r: Self)
        ensures
            r.reason == UpstreamAdmissionRejectionReason::RuntimeCoordinationUnavailable,
            r.retry_after_seconds == 1,
            r.message@ == "runtime coordination unavailable"@,
    {
        UpstreamAdmissionError {
            message: owned("runtime coordination unavailable"),
            retry_after_seconds: 1,
            reason: UpstreamAdmissionRejectionReason::RuntimeCoordinationUnavailable,
        }
    }

    pub fn is_runtime_coordination_unavailable(&self) -> (r: bool)
        ensures
            r == (self.reason == UpstreamAdmissionRejectionReason::RuntimeCoordinationUnavailable),
    {
        self.reason == UpstreamAdmissionRejectionReason::RuntimeCoordinationUnavailable
    }
}

/// Whether an upstream account lease serves a streaming or a unary request.
#[derive(Debug, Clone, Copy, PartialEq, Eq, Structural)]
pub enum UpstreamLeaseKind {
    Streaming,
    Unary,
}

/// The start of a gateway request as the active-request board records it.
#[derive(Debug, Clone)]
pub struct ActiveGatewayRequestStart {
    pub request_id: String,
    pub downstream_id: String,
    pub downstream_name: String,
    pub endpoint: String,
    pub model: String,
    pub protocol: String,
    pub user_agent: Option<String>,
}

/// Retryable-capacity terminal errors of one (downstream, model) pair.
#[derive(Debug, Clone)]
pub struct RetryTerminalPoint {
    pub downstream_id: String,
    pub model: String,
    pub count: u64,
}

/// One row of the active-request board.
#[derive(Debug, Clone)]
pub struct ActiveGatewayRequestSnapshot {
    pub request_id: String,
    pub downstream_id: String,
    pub downstream_name: String,
    pub endpoint: String,
    pub model: String,
    pub protocol: String,
    pub user_agent: Option<String>,
    pub upstream_id: Option<String>,
    pub upstream_name: Option<String>,
    pub started_at: u64,
    pub last_event_at: u64,
    pub elapsed_seconds: u64,
    pub idle_seconds: u64,
    pub status: String,
    pub error_category: Option<String>,
    pub phase: String,
    pub queue_position: Option<usize>,
}

/// The longest character prefix of `s` that fits in `max_bytes` UTF-8 bytes.
pub open spec fn byte_prefix_len(s: Seq<char>, max_bytes: nat, k: int) -> bool {
    &&& 0 <= k <= s.len()
    &&& crate::text::utf8_len(s.take(k)) <= max_bytes
    &&& (k < s.len() ==> crate::text::utf8_len(s.take(k + 1)) > max_bytes)
}

/// Bytes of a user agent kept on the active-request board.
pub const ACTIVE_REQUEST_USER_AGENT_MAX_BYTES: usize = 256;

/// The user agent cut to at most 256 UTF-8 bytes on a character boundary.
pub fn truncate_active_request_user_agent(user_agent: String) -> (r: String)
    ensures
        exists|k: int| byte_prefix_len(user_agent@, 256, k) && r@ == user_agent@.take(k),
{
    let v = chars_of(user_agent.as_str());
    let mut total: usize = 0;
    let mut k: usize = 0;
    while k < v.len()
        invariant
            v@ == user_agent@,
            k <= v.len(),
            total == crate::text::utf8_len(v@.take(k as int)),
            total <= 256,
        decreases v.len() - k,
    {
        assert(v@.take(k + 1).drop_last() == v@.take(k as int));
        let w = crate::text::utf8_width_exec(v[k]);
        if total + w > 256 {
            assert(byte_prefix_len(user_agent@, 256, k as int));
            return string_from_chars(&crate::text::slice_chars(&v, 0, k));
        }
        total = total + w;
        k = k + 1;
    }
    assert(v@.take(k as int) == v@);
    assert(byte_prefix_len(user_agent@, 256, k as int));
    string_from_chars(&v)
}

/// Whether two downstream lists hold the same ids, hashes and plaintext
/// keys, pairwise.
pub fn downstream_plaintext_pairs_unchanged(
    before: &Vec<crate::config::DownstreamConfig>,
    after: &Vec<crate::config::DownstreamConfig>,
) -> (r: bool)
    ensures
        r == (before@.len() == after@.len() && forall|i: int|
            0 <= i < before@.len() ==> (#[trigger] before@[i]).id@ == after@[i].id@ && before@[i].hash@
                == after@[i].hash@ && crate::config::opt_view(before@[i].plaintext_key)
                == crate::config::opt_view(after@[i].plaintext_key)),
{
    if before.len() != after.len() {
        return false;
    }
    for i in 0..before.len()
        invariant
            before@.len() == after@.len(),
            forall|j: int|
                0 <= j < i ==> (#[trigger] before@[j]).id@ == after@[j].id@ && before@[j].hash@
                    == after@[j].hash@ && crate::config::opt_view(before@[j].plaintext_key)
                    == crate::config::opt_view(after@[j].plaintext_key),
    {
        let b = &before[i];
        let a = &after[i];
        if !crate::text::str_eq(b.id.as_str(), a.id.as_str()) || !crate::text::str_eq(b.hash.as_str(), a.hash.as_str()) {
            return false;
        }
        let same_plain = match (&b.plaintext_key, &a.plaintext_key) {
            (Some(x), Some(y)) => crate::text::str_eq(x.as_str(), y.as_str()),
            (None, None) => true,
            _ => false,
        };
        if !same_plain {
            return false;
        }
    }
    true
}

/// Where a candidate of a manual probe batch stands.
#[derive(Clone, Debug, PartialEq, Eq, Structural)]
pub enum ManualProbeBatchCandidateState {
    Queued,
    Reused,
    Running,
    Completed,
    Failed,
    CooldownSkipped,
    Superseded,
}

/// The terminal outcome of one capability probe job.
#[derive(Debug)]
pub enum ProbeJobExecution {
    Completed,
    Failed(String),
    CooldownSkipped { cooldown_remaining_ms: u64 },
    Superseded,
}

/// One candidate route of a probe batch.
#[derive(Clone, Debug)]
pub struct ProbeCandidateSummary {
    pub upstream_id: String,
    pub route_id: String,
    pub exposed_model_slug: String,
    pub runtime_model_slug: String,
    pub protocol: WireProtocol,
    pub state: ManualProbeBatchCandidateState,
    pub diagnostic_code: Option<String>,
}

/// The status of a capability probe batch.
#[derive(Clone, Debug)]
pub struct CapabilityProbeBatchStatus {
    pub batch_id: String,
    pub configuration_revision: u64,
    pub started_at: u64,
    pub queued_routes: usize,
    pub reused_routes: usize,
    pub models: Vec<String>,
    pub estimated_remaining_seconds: Option<u64>,
    pub candidates: Vec<ProbeCandidateSummary>,
    pub terminal_at: Option<u64>,
}

/// The receipt of a queued manual probe batch.
#[derive(Clone, Debug)]
pub struct ManualProbeBatchReceipt {
    pub batch_id: String,
    pub configuration_revision: u64,
    pub started_at: u64,
    pub queued_routes: usize,
    pub reused_routes: usize,
    pub models: Vec<String>,
    pub candidates: Vec<ProbeCandidateSummary>,
}

/// Why a manual probe batch could not be queued.
#[derive(Debug, Clone, Copy, PartialEq, Eq, Structural)]
pub enum ManualProbeBatchError {
    CapabilityPolicyMissing,
    CapabilityProbeDisabled,
    NoEligibleRoutes,
    QueueUnavailable,
}

/// A probe batch as the runtime keeps it: its status and its candidates.
#[derive(Clone)]
pub struct CapabilityProbeBatchRecord {
    pub status: CapabilityProbeBatchStatus,
    pub candidates: Vec<ProbeCandidateSummary>,
}

/// Finished batches are kept this long after they finish.
pub const CAPABILITY_PROBE_BATCH_RETENTION_SECONDS: u64 = 7200;

/// At most this many batches are kept.
pub const CAPABILITY_PROBE_BATCH_MAX_RECORDS: usize = 256;

/// A batch is still kept at `cutoff`: unfinished, or finished at or after it.
pub open spec fn batch_retained(e: (String, CapabilityProbeBatchRecord), cutoff: u64) -> bool {
    match e.1.status.terminal_at {
        Some(t) => t >= cutoff,
        None => true,
    }
}

/// Position of the first batch that started earliest.
pub open spec fn oldest_batch(s: Seq<(String, CapabilityProbeBatchRecord)>) -> int
    decreases s.len(),
{
    if s.len() <= 1 {
        0
    } else {
        let i = oldest_batch(s.drop_last());
        if s.last().1.status.started_at < s[i].1.status.started_at {
            s.len() - 1
        } else {
            i
        }
    }
}

pub proof fn lemma_oldest_batch(s: Seq<(String, CapabilityProbeBatchRecord)>)
    requires
        s.len() > 0,
    ensures
        0 <= oldest_batch(s) < s.len(),
        forall|j: int| 0 <= j < s.len() ==> s[oldest_batch(s)].1.status.started_at <= (
        #[trigger] s[j]).1.status.started_at,
    decreases s.len(),
{
    if s.len() > 1 {
        lemma_oldest_batch(s.drop_last());
        assert forall|j: int| 0 <= j < s.len() - 1 implies s[j] == s.drop_last()[j] by {}
    }
}

/// `s` with its `k` earliest-started batches removed, one at a time.
pub open spec fn evict_oldest(s: Seq<(String, CapabilityProbeBatchRecord)>, k: nat) -> Seq<
    (String, CapabilityProbeBatchRecord),
>
    decreases k,
{
    if k == 0 || s.len() == 0 {
        s
    } else {
        evict_oldest(s.remove(oldest_batch(s)), (k - 1) as nat)
    }
}

pub open spec fn cutoff_at(now: u64) -> u64 {
    if now >= CAPABILITY_PROBE_BATCH_RETENTION_SECONDS {
        (now - CAPABILITY_PROBE_BATCH_RETENTION_SECONDS) as u64
    } else {
        0
    }
}

/// The batches kept at `now`: finished batches past the retention leave,
/// then the earliest-started leave until at most the maximum remain.
pub open spec fn pruned_batches(s: Seq<(String, CapabilityProbeBatchRecord)>, now: u64) -> Seq<
    (String, CapabilityProbeBatchRecord),
> {
    let kept = s.filter(|e: (String, CapabilityProbeBatchRecord)| batch_retained(e, cutoff_at(now)));
    if kept.len() <= CAPABILITY_PROBE_BATCH_MAX_RECORDS {
        kept
    } else {
        evict_oldest(kept, (kept.len() - CAPABILITY_PROBE_BATCH_MAX_RECORDS) as nat)
    }
}

pub proof fn lemma_evict_len(s: Seq<(String, CapabilityProbeBatchRecord)>, k: nat)
    requires
        k <= s.len(),
    ensures
        evict_oldest(s, k).len() == s.len() - k,
    decreases k,
{
    if k > 0 && s.len() > 0 {
        lemma_oldest_batch(s);
        lemma_evict_len(s.remove(oldest_batch(s)), (k - 1) as nat);
    }
}

fn oldest_batch_exec(s: &Vec<(String, CapabilityProbeBatchRecord)>) -> (r: usize)
    requires
        s@.len() > 0,
    ensures
        r as int == oldest_batch(s@),
{
    let mut best: usize = 0;
    let mut i: usize = 1;
    while i < s.len()
        invariant
            1 <= i <= s@.len(),
            best as int == oldest_batch(s@.take(i as int)),
        decreases s@.len() - i,
    {
        proof {
            lemma_oldest_batch(s@.take(i as int));
        }
        assert(s@.take(i + 1).drop_last() == s@.take(i as int));
        assert(s@.take(i + 1).last() == s@[i as int]);
        assert(s@.take(i as int)[best as int] == s@[best as int]);
        if s[i].1.status.started_at < s[best].1.status.started_at {
            best = i;
        }
        i = i + 1;
    }
    assert(s@.take(i as int) == s@);
    best
}

/// Forgets finished batches past the retention, then the earliest-started
/// ones beyond the maximum count.
pub fn prune_capability_probe_batches(batches: &mut Vec<(String, CapabilityProbeBatchRecord)>, now: u64)
    ensures
        final(batches)@ == pruned_batches(old(batches)@, now),
        final(batches)@.len() <= CAPABILITY_PROBE_BATCH_MAX_RECORDS,
{
    let cutoff = now.saturating_sub(CAPABILITY_PROBE_BATCH_RETENTION_SECONDS);
    let ghost all = batches@;
    let mut kept: Vec<(String, CapabilityProbeBatchRecord)> = Vec::new();
    let mut rest: Vec<(String, CapabilityProbeBatchRecord)> = Vec::new();
    std::mem::swap(&mut rest, batches);
    let mut n: usize = 0;
    let total = rest.len();
    assert(all.skip(0) == all);
    assert(kept@ =~= all.take(0).filter(|e: (String, CapabilityProbeBatchRecord)| batch_retained(e, cutoff))) by {
        reveal_with_fuel(Seq::filter, 1);
    }
    while rest.len() > 0
        invariant
            n + rest@.len() == all.len(),
            total == all.len(),
            rest@ == all.skip(n as int),
            cutoff == cutoff_at(now),
            kept@ == all.take(n as int).filter(|e: (String, CapabilityProbeBatchRecord)| batch_retained(e, cutoff)),
        decreases rest@.len(),
    {
        let entry = rest.remove(0);
        assert(entry == all[n as int]);
        assert(rest@ =~= all.skip(n + 1));
        assert(all.take(n + 1).drop_last() == all.take(n as int));
        assert(all.take(n + 1).last() == all[n as int]);
        let keep = match entry.1.status.terminal_at {
            Some(t) => t >= cutoff,
            None => true,
        };
        if keep {
            kept.push(entry);
        }
        assert(kept@ == all.take(n + 1).filter(|e: (String, CapabilityProbeBatchRecord)| batch_retained(e, cutoff))) by {
            reveal_with_fuel(Seq::filter, 1);
        }
        n = n + 1;
    }
    assert(all.take(n as int) == all);
    if kept.len() > CAPABILITY_PROBE_BATCH_MAX_RECORDS {
        let excess = kept.len() - CAPABILITY_PROBE_BATCH_MAX_RECORDS;
        let ghost start = kept@;
        let mut k: usize = 0;
        while k < excess
            invariant
                k <= excess,
                excess == start.len() - CAPABILITY_PROBE_BATCH_MAX_RECORDS,
                start.len() > CAPABILITY_PROBE_BATCH_MAX_RECORDS,
                evict_oldest(start, excess as nat) == evict_oldest(kept@, (excess - k) as nat),
                kept@.len() == start.len() - k,
            decreases excess - k,
        {
            let i = oldest_batch_exec(&kept);
            proof {
                lemma_oldest_batch(kept@);
            }
            let ghost before = kept@;
            kept.remove(i);
            assert(evict_oldest(before, (excess - k) as nat) == evict_oldest(kept@, (excess - k - 1) as nat));
            k = k + 1;
        }
    }
    *batches = kept;
}

} // verus!
