//! What routing remembers between requests: the upstream that last served a
//! downstream's model (for a while), a round-robin counter per downstream,
//! model and protocol, and how often a fallback stage has failed.
use vstd::prelude::*;
use crate::config::UpstreamProtocol;
use crate::model_identity::canonical_model_id;
use crate::request_window::add_or_max;
use crate::runtime::{fallback_key_spec, fallback_stage_failure_key};
use crate::text::{canonical_chars, canonical_seq, owned, push_text, string_from_chars, trim_seq, trimmed};
use crate::text_map::{lacks_prefix, TextMap};

verus! {

/// The most failures a fallback stage counts.
pub const FALLBACK_STAGE_FAILURE_CAP: u8 = 3;

/// The model part of routing keys: canonical (trimmed, lowercased) when
/// matching ignores case, trimmed otherwise.
pub open spec fn model_key_spec(model: Seq<char>, case_insensitive: bool) -> Seq<char> {
    if case_insensitive {
        canonical_seq(model)
    } else {
        trim_seq(model)
    }
}

pub open spec fn affinity_key_spec(downstream_id: Seq<char>, model: Seq<char>, case_insensitive: bool) -> Seq<char> {
    downstream_id + "::"@ + model_key_spec(model, case_insensitive)
}

pub open spec fn protocol_name(protocol: UpstreamProtocol) -> Seq<char> {
    match protocol {
        UpstreamProtocol::ChatCompletions => "ChatCompletions"@,
        UpstreamProtocol::Responses => "Responses"@,
    }
}

pub open spec fn tie_breaker_key_spec(
    downstream_id: Seq<char>,
    model: Seq<char>,
    protocol: UpstreamProtocol,
    case_insensitive: bool,
) -> Seq<char> {
    affinity_key_spec(downstream_id, model, case_insensitive) + "::"@ + protocol_name(protocol)
}

/// The prefix shared by the failure keys of every stage of a route.
pub open spec fn fallback_prefix_spec(
    downstream_id: Seq<char>,
    client_family: Seq<char>,
    model_slug: Seq<char>,
    upstream_id: Seq<char>,
) -> Seq<char> {
    canonical_seq(downstream_id) + "::"@ + canonical_seq(client_family) + "::"@ + canonical_seq(model_slug) + "::"@
        + canonical_seq(upstream_id) + "::"@
}

/// An affinity set at `now` for `ttl_seconds` is what a lookup of the same
/// downstream and model finds until it expires, and only then.
pub proof fn law_affinity_read_after_write(
    m: Map<Seq<char>, RoutingAffinityEntry>,
    k: Seq<char>,
    e: RoutingAffinityEntry,
    ttl_seconds: u64,
    now: u64,
    later: u64,
)
    requires
        e.expires_at == add_or_max(now, if ttl_seconds == 0 { 1 } else { ttl_seconds }),
        now <= later,
    ensures
        m.insert(k, e).dom().contains(k),
        m.insert(k, e)[k] == e,
        later < now + (if ttl_seconds == 0 { 1 } else { ttl_seconds }) && later < u64::MAX ==> m.insert(k, e)[k].expires_at
            > later,
        later >= now + (if ttl_seconds == 0 { 1 } else { ttl_seconds }) ==> m.insert(k, e)[k].expires_at <= later,
{
}

/// Successive draws of one round-robin counter count up by one (until the
/// counter saturates).
pub proof fn law_tie_breakers_count_up(m: Map<Seq<char>, u64>, k: Seq<char>)
    requires
        counter_of(m, k, 0u64) < u64::MAX,
    ensures
        ({
            let first = counter_of(m, k, 0u64);
            let after = m.insert(k, (first + 1) as u64);
            counter_of(after, k, 0u64) == first + 1
        }),
{
}

/// A fallback stage never counts more than `FALLBACK_STAGE_FAILURE_CAP`
/// failures, however often it fails.
pub proof fn law_stage_failures_capped(m: Map<Seq<char>, u8>, k: Seq<char>)
    requires
        counter_of(m, k, 0u8) <= FALLBACK_STAGE_FAILURE_CAP,
    ensures
        ({
            let c = counter_of(m, k, 0u8);
            let next: u8 = if c >= FALLBACK_STAGE_FAILURE_CAP { FALLBACK_STAGE_FAILURE_CAP } else { (c + 1) as u8 };
            counter_of(m.insert(k, next), k, 0u8) <= FALLBACK_STAGE_FAILURE_CAP
        }),
{
}

/// The model part of routing keys.
pub fn routing_model_key(model: &str, case_insensitive: bool) -> (r: String)
    ensures
        r@ == model_key_spec(model@, case_insensitive),
{
    if case_insensitive {
        canonical_model_id(model)
    } else {
        trimmed(model)
    }
}

/// The affinity key of a downstream and model: `downstream::model`.
pub fn routing_affinity_key(downstream_id: &str, normalized_model: &str, case_insensitive: bool) -> (r: String)
    ensures
        r@ == affinity_key_spec(downstream_id@, normalized_model@, case_insensitive),
{
    let mut r = owned(downstream_id);
    push_text(&mut r, "::");
    push_text(&mut r, routing_model_key(normalized_model, case_insensitive).as_str());
    r
}

/// The round-robin key of a downstream, model and protocol:
/// `downstream::model::Protocol`.
pub fn routing_tie_breaker_key(
    downstream_id: &str,
    normalized_model: &str,
    protocol: UpstreamProtocol,
    case_insensitive: bool,
) -> (r: String)
    ensures
        r@ == tie_breaker_key_spec(downstream_id@, normalized_model@, protocol, case_insensitive),
{
    let mut r = routing_affinity_key(downstream_id, normalized_model, case_insensitive);
    push_text(&mut r, "::");
    match protocol {
        UpstreamProtocol::ChatCompletions => push_text(&mut r, "ChatCompletions"),
        UpstreamProtocol::Responses => push_text(&mut r, "Responses"),
    }
    r
}

/// The upstream a downstream's model was last routed to, and until when
/// (unix seconds) that holds.
pub struct RoutingAffinityEntry {
    pub upstream_id: String,
    pub expires_at: u64,
}

/// Route affinities by affinity key.
pub struct RoutingAffinity {
    entries: TextMap<RoutingAffinityEntry>,
}

impl View for RoutingAffinity {
    type V = Map<Seq<char>, RoutingAffinityEntry>;

    closed spec fn view(&self) -> Map<Seq<char>, RoutingAffinityEntry> {
        self.entries@
    }
}

impl RoutingAffinity {
    pub closed spec fn wf(&self) -> bool {
        self.entries.wf()
    }

    pub fn new() -> (r: Self)
        ensures
            r.wf(),
            r@ == Map::<Seq<char>, RoutingAffinityEntry>::empty(),
    {
        RoutingAffinity { entries: TextMap::new() }
    }

    /// The upstream remembered for the downstream's model while it has not
    /// expired at `now`; an expired affinity is forgotten.
    pub fn get_affinity_upstream(&mut self, downstream_id: &str, normalized_model: &str, case_insensitive: bool, now: u64) -> (r: Option<String>)
        requires
            old(self).wf(),
        ensures
            final(self).wf(),
            ({
                let k = affinity_key_spec(downstream_id@, normalized_model@, case_insensitive);
                if old(self)@.dom().contains(k) && old(self)@[k].expires_at > now {
                    &&& r matches Some(u) && u@ == old(self)@[k].upstream_id@
                    &&& final(self)@ == old(self)@
                } else {
                    &&& r is None
                    &&& final(self)@ == old(self)@.remove(k)
                }
            }),
    {
        let key = routing_affinity_key(downstream_id, normalized_model, case_insensitive);
        match self.entries.get(key.as_str()) {
            Some(entry) => {
                if entry.expires_at > now {
                    return Some(entry.upstream_id.clone());
                }
            },
            None => {},
        }
        self.entries.remove(key.as_str());
        None
    }

    /// Remembers `upstream_id` for the downstream's model for `ttl_seconds`
    /// (at least one) from `now`.
    pub fn set_affinity_upstream(
        &mut self,
        downstream_id: &str,
        normalized_model: &str,
        upstream_id: &str,
        ttl_seconds: u64,
        case_insensitive: bool,
        now: u64,
    )
        requires
            old(self).wf(),
        ensures
            final(self).wf(),
            final(self)@ == old(self)@.insert(
                affinity_key_spec(downstream_id@, normalized_model@, case_insensitive),
                RoutingAffinityEntry {
                    upstream_id: final(self)@[affinity_key_spec(downstream_id@, normalized_model@, case_insensitive)].upstream_id,
                    expires_at: add_or_max(now, if ttl_seconds == 0 { 1 } else { ttl_seconds }),
                },
            ),
            final(self)@[affinity_key_spec(downstream_id@, normalized_model@, case_insensitive)].upstream_id@ == upstream_id@,
    {
        let key = routing_affinity_key(downstream_id, normalized_model, case_insensitive);
        let ttl: u64 = if ttl_seconds == 0 {
            1
        } else {
            ttl_seconds
        };
        let entry = RoutingAffinityEntry { upstream_id: owned(upstream_id), expires_at: now.saturating_add(ttl) };
        self.entries.insert(key, entry);
    }

    /// Forgets the affinity of the downstream's model.
    pub fn clear_affinity_upstream(&mut self, downstream_id: &str, normalized_model: &str, case_insensitive: bool)
        requires
            old(self).wf(),
        ensures
            final(self).wf(),
            final(self)@ == old(self)@.remove(affinity_key_spec(downstream_id@, normalized_model@, case_insensitive)),
    {
        let key = routing_affinity_key(downstream_id, normalized_model, case_insensitive);
        self.entries.remove(key.as_str());
    }
}

/// Round-robin counters by tie-breaker key.
pub struct RoutingTieBreakers {
    counters: TextMap<u64>,
}

impl View for RoutingTieBreakers {
    type V = Map<Seq<char>, u64>;

    closed spec fn view(&self) -> Map<Seq<char>, u64> {
        self.counters@
    }
}

/// A counter's value: zero where it was never counted.
pub open spec fn counter_of<V>(m: Map<Seq<char>, V>, k: Seq<char>, zero: V) -> V {
    if m.dom().contains(k) {
        m[k]
    } else {
        zero
    }
}

impl RoutingTieBreakers {
    pub closed spec fn wf(&self) -> bool {
        self.counters.wf()
    }

    pub fn new() -> (r: Self)
        ensures
            r.wf(),
            r@ == Map::<Seq<char>, u64>::empty(),
    {
        RoutingTieBreakers { counters: TextMap::new() }
    }

    /// The current counter of the downstream, model and protocol; the
    /// counter then moves on by one (saturating).
    pub fn next_routing_tie_breaker(
        &mut self,
        downstream_id: &str,
        normalized_model: &str,
        protocol: UpstreamProtocol,
        case_insensitive: bool,
    ) -> (r: u64)
        requires
            old(self).wf(),
        ensures
            final(self).wf(),
            ({
                let k = tie_breaker_key_spec(downstream_id@, normalized_model@, protocol, case_insensitive);
                &&& r == counter_of(old(self)@, k, 0u64)
                &&& final(self)@ == old(self)@.insert(k, if r == u64::MAX { u64::MAX } else { (r + 1) as u64 })
            }),
    {
        let key = routing_tie_breaker_key(downstream_id, normalized_model, protocol, case_insensitive);
        let current: u64 = match self.counters.get(key.as_str()) {
            Some(v) => *v,
            None => 0,
        };
        self.counters.insert(key, current.saturating_add(1));
        current
    }
}

/// Failure counts of fallback stages, by stage key.
pub struct FallbackStageFailures {
    counts: TextMap<u8>,
}

impl View for FallbackStageFailures {
    type V = Map<Seq<char>, u8>;

    closed spec fn view(&self) -> Map<Seq<char>, u8> {
        self.counts@
    }
}

impl FallbackStageFailures {
    pub closed spec fn wf(&self) -> bool {
        self.counts.wf()
    }

    pub fn new() -> (r: Self)
        ensures
            r.wf(),
            r@ == Map::<Seq<char>, u8>::empty(),
    {
        FallbackStageFailures { counts: TextMap::new() }
    }

    /// How often the stage has failed, up to the cap.
    pub fn fallback_stage_failure_count(
        &self,
        downstream_id: &str,
        client_family: &str,
        model_slug: &str,
        upstream_id: &str,
        stage: &str,
    ) -> (r: u8)
        requires
            self.wf(),
        ensures
            r == counter_of(self@, fallback_key_spec(downstream_id@, client_family@, model_slug@, upstream_id@, stage@), 0u8),
    {
        let key = fallback_stage_failure_key(downstream_id, client_family, model_slug, upstream_id, stage);
        match self.counts.get(key.as_str()) {
            Some(v) => *v,
            None => 0,
        }
    }

    /// Counts one more failure of the stage, up to the cap.
    pub fn record_fallback_stage_failure(
        &mut self,
        downstream_id: &str,
        client_family: &str,
        model_slug: &str,
        upstream_id: &str,
        stage: &str,
    )
        requires
            old(self).wf(),
        ensures
            final(self).wf(),
            ({
                let k = fallback_key_spec(downstream_id@, client_family@, model_slug@, upstream_id@, stage@);
                let c = counter_of(old(self)@, k, 0u8);
                final(self)@ == old(self)@.insert(k, if c >= FALLBACK_STAGE_FAILURE_CAP { FALLBACK_STAGE_FAILURE_CAP } else { (c + 1) as u8 })
            }),
    {
        let key = fallback_stage_failure_key(downstream_id, client_family, model_slug, upstream_id, stage);
        let current: u8 = match self.counts.get(key.as_str()) {
            Some(v) => *v,
            None => 0,
        };
        let next: u8 = if current >= FALLBACK_STAGE_FAILURE_CAP {
            FALLBACK_STAGE_FAILURE_CAP
        } else {
            current + 1
        };
        self.counts.insert(key, next);
    }

    /// Forgets the failures of every stage of the route.
    pub fn clear_fallback_stage_failures(&mut self, downstream_id: &str, client_family: &str, model_slug: &str, upstream_id: &str)
        requires
            old(self).wf(),
        ensures
            final(self).wf(),
            final(self)@ == old(self)@.filter_keys(
                lacks_prefix(fallback_prefix_spec(downstream_id@, client_family@, model_slug@, upstream_id@)),
            ),
    {
        let mut prefix = string_from_chars(&canonical_chars(downstream_id));
        push_text(&mut prefix, "::");
        push_text(&mut prefix, string_from_chars(&canonical_chars(client_family)).as_str());
        push_text(&mut prefix, "::");
        push_text(&mut prefix, string_from_chars(&canonical_chars(model_slug)).as_str());
        push_text(&mut prefix, "::");
        push_text(&mut prefix, string_from_chars(&canonical_chars(upstream_id)).as_str());
        push_text(&mut prefix, "::");
        self.counts.retain_without_prefix(prefix.as_str());
    }
}

} // verus!
