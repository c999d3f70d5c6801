//! Per-account upstream concurrency coordination: a FIFO of waiters behind
//! a saturated account, one half-open probe at a time, and the cooldown
//! after a provider concurrency rejection.
//!
//! Time is the registry's own monotonic clock in milliseconds; every
//! duration below is in milliseconds unless its name says seconds.
use vstd::prelude::*;
use std::collections::hash_map::DefaultHasher;
use crate::text::str_eq;
use crate::config::AppConfig;

verus! {

/// Poll interval handed to a waiter that is not at the head of the queue.
pub const FIFO_POLL_INTERVAL_MS: u64 = 100;

/// An upstream account: the upstream and the fingerprint of its key.
#[derive(Clone, Debug, PartialEq, Eq)]
pub struct AccountConcurrencyKey {
    pub upstream_id: String,
    pub key_fingerprint: String,
}

impl AccountConcurrencyKey {
    pub fn new(upstream_id: String, key_fingerprint: String) -> (r: Self)
        ensures
            r.upstream_id == upstream_id,
            r.key_fingerprint == key_fingerprint,
    {
        AccountConcurrencyKey { upstream_id, key_fingerprint }
    }
}

/// An account key as plain values.
pub type KeyView = (Seq<char>, Seq<char>);

pub open spec fn key_view(k: AccountConcurrencyKey) -> KeyView {
    (k.upstream_id@, k.key_fingerprint@)
}

/// A request's place in an account's waiting queue.
#[derive(Clone, Debug, PartialEq, Eq)]
pub struct AccountWaitTicket {
    pub account: AccountConcurrencyKey,
    pub request_id: String,
    pub downstream_id: String,
    pub downstream_lease_id: String,
    pub generation: u64,
    pub registered_at_ms: u64,
    pub registration_token: String,
}

/// The right to send the one probe request an account admits while it
/// recovers from saturation.
#[derive(Clone, Debug, PartialEq, Eq)]
pub struct AccountProbeLease {
    pub account: AccountConcurrencyKey,
    pub request_id: String,
    pub generation: u64,
    pub owner_token: String,
    pub expires_at_ms: u64,
}

/// How a probe request ended.
#[derive(Clone, Copy, Debug, PartialEq, Eq)]
pub enum AccountProbeOutcome {
    /// The provider refused for concurrency, with its retry-after if given.
    ConcurrencyRejected { retry_after: Option<u64> },
    Accepted,
    AttemptFailed,
    Cancelled,
}

/// Answer to a waiter asking for the probe.
#[derive(Clone, Debug, PartialEq, Eq)]
pub enum ProbeDecision {
    Granted(AccountProbeLease),
    Wait { retry_after: u64 },
}

/// Where a provider concurrency reading came from.
#[derive(Clone, Copy, Debug, PartialEq, Eq)]
pub enum ProviderConcurrencyObservationSource {
    PrivateRequestStatus,
}

/// A provider's reported concurrency; times are unix seconds.
#[derive(Clone, Copy, Debug, PartialEq, Eq)]
pub struct ProviderConcurrencyObservation {
    pub source: ProviderConcurrencyObservationSource,
    pub concurrency: u32,
    pub concurrency_limit: u32,
    pub observed_at: u64,
    pub fresh_until: u64,
}

/// Timing of the coordination, all in milliseconds.
#[derive(Clone, Debug)]
pub struct AccountConcurrencyTuning {
    pub probe_delays: Vec<u64>,
    pub jitter_max: u64,
    pub waiter_budget: u64,
    pub waiter_ttl: u64,
    pub probe_ttl: u64,
    pub renewal_interval: u64,
    pub observation_freshness: u64,
    pub idle_retention: u64,
}

pub open spec fn sat_mul(a: u64, b: u64) -> u64 {
    if a * b > u64::MAX {
        u64::MAX
    } else {
        (a * b) as u64
    }
}

fn saturating_mul_exec(a: u64, b: u64) -> (r: u64)
    ensures
        r == sat_mul(a, b),
{
    match a.checked_mul(b) {
        Some(v) => v,
        None => u64::MAX,
    }
}

impl AccountConcurrencyTuning {
    /// The tuning of a gateway configuration: the configured probe delays,
    /// 100 ms of jitter, the recovery wait as waiting budget (plus a minute
    /// as waiter lease), the response-header timeout plus a minute as probe
    /// lease, 30 s renewals, the status refresh (at least a second) as
    /// reading freshness, and ten minutes of idle retention. Second counts
    /// too large for milliseconds saturate.
    pub fn from_config(config: &AppConfig) -> (r: Self)
        ensures
            r.probe_delays@ == config.upstream_concurrency_probe_delays_ms@,
            r.jitter_max == 100,
            r.waiter_budget == config.upstream_concurrency_recovery_max_wait_ms,
            r.waiter_ttl == sat_add(config.upstream_concurrency_recovery_max_wait_ms, 60_000),
            r.probe_ttl == sat_mul(sat_add(config.upstream_response_header_timeout_seconds, 60), 1000),
            r.renewal_interval == 30_000,
            r.observation_freshness == sat_mul(
                if config.upstream_concurrency_status_refresh_seconds >= 1 {
                    config.upstream_concurrency_status_refresh_seconds
                } else {
                    1
                },
                1000,
            ),
            r.idle_retention == 600_000,
    {
        let mut delays: Vec<u64> = Vec::new();
        for i in 0..config.upstream_concurrency_probe_delays_ms.len()
            invariant
                delays@ == config.upstream_concurrency_probe_delays_ms@.take(i as int),
        {
            delays.push(config.upstream_concurrency_probe_delays_ms[i]);
            assert(delays@ =~= config.upstream_concurrency_probe_delays_ms@.take(i + 1));
        }
        assert(config.upstream_concurrency_probe_delays_ms@.take(
            config.upstream_concurrency_probe_delays_ms@.len() as int,
        ) == config.upstream_concurrency_probe_delays_ms@);
        let refresh = if config.upstream_concurrency_status_refresh_seconds >= 1 {
            config.upstream_concurrency_status_refresh_seconds
        } else {
            1
        };
        AccountConcurrencyTuning {
            probe_delays: delays,
            jitter_max: 100,
            waiter_budget: config.upstream_concurrency_recovery_max_wait_ms,
            waiter_ttl: config.upstream_concurrency_recovery_max_wait_ms.saturating_add(60_000),
            probe_ttl: saturating_mul_exec(
                config.upstream_response_header_timeout_seconds.saturating_add(60),
                1000,
            ),
            renewal_interval: 30_000,
            observation_freshness: saturating_mul_exec(refresh, 1000),
            idle_retention: 600_000,
        }
    }
}

/// One account's state as a caller sees it.
#[derive(Clone, Debug, PartialEq, Eq)]
pub struct AccountConcurrencySnapshot {
    pub generation: u64,
    pub waiters: usize,
    pub probe_in_flight: bool,
    pub saturated: bool,
    pub retry_after: u64,
    pub observation: Option<ProviderConcurrencyObservation>,
}

impl Default for AccountConcurrencySnapshot {
    fn default() -> (r: Self)
        ensures
            r.generation == 0 && r.waiters == 0 && !r.probe_in_flight && !r.saturated,
            r.retry_after == 0 && r.observation is None,
    {
        AccountConcurrencySnapshot {
            generation: 0,
            waiters: 0,
            probe_in_flight: false,
            saturated: false,
            retry_after: 0,
            observation: None,
        }
    }
}

/// Why a ticket or probe lease was refused.
#[derive(Clone, Copy, Debug, PartialEq, Eq)]
pub enum AccountLeaseError {
    Missing,
    StaleGeneration,
    NotOwner,
    Expired,
}

/// Why a provider concurrency reading was refused.
#[derive(Clone, Copy, Debug, PartialEq, Eq)]
pub enum ObservationError {
    InvalidLimit,
    ConcurrencyExceedsLimit,
}

/// A queued ticket with its deadlines.
#[derive(Clone, Debug)]
pub struct TicketRecord {
    pub ticket: AccountWaitTicket,
    pub logical_deadline: u64,
    pub lease_deadline: u64,
}

/// The probe in flight and when it lapses.
#[derive(Clone, Debug)]
pub struct ProbeRecord {
    pub lease: AccountProbeLease,
    pub expires_at: u64,
}

/// The last provider reading and until when it counts.
#[derive(Clone, Debug)]
pub struct ObservationRecord {
    pub value: ProviderConcurrencyObservation,
    pub fresh_until: u64,
}

/// The holder of an account's status-poller role.
#[derive(Clone, Debug)]
pub struct PollerRecord {
    pub owner_token: String,
    pub expires_at: u64,
}

/// The coordination state of one account.
#[derive(Debug)]
pub struct AccountState {
    pub generation: u64,
    pub rejection_count: usize,
    pub cooldown_until: Option<u64>,
    pub explicit_retry_after_until: Option<u64>,
    pub tickets: Vec<TicketRecord>,
    pub probe: Option<ProbeRecord>,
    pub observation: Option<ObservationRecord>,
    pub saturated: bool,
    pub last_access: u64,
}

/// An account's state as a mathematical value.
#[verifier::ext_equal]
pub struct AccountModel {
    pub generation: u64,
    pub rejection_count: usize,
    pub cooldown_until: Option<u64>,
    pub explicit_retry_after_until: Option<u64>,
    pub tickets: Seq<TicketRecord>,
    pub probe: Option<ProbeRecord>,
    pub observation: Option<ObservationRecord>,
    pub saturated: bool,
    pub last_access: u64,
}

impl View for AccountState {
    type V = AccountModel;

    open spec fn view(&self) -> AccountModel {
        AccountModel {
            generation: self.generation,
            rejection_count: self.rejection_count,
            cooldown_until: self.cooldown_until,
            explicit_retry_after_until: self.explicit_retry_after_until,
            tickets: self.tickets@,
            probe: self.probe,
            observation: self.observation,
            saturated: self.saturated,
            last_access: self.last_access,
        }
    }
}

pub open spec fn sat_add(a: u64, b: u64) -> u64 {
    if a + b > u64::MAX {
        u64::MAX
    } else {
        (a + b) as u64
    }
}

pub open spec fn sat_sub(a: u64, b: u64) -> u64 {
    if a > b {
        (a - b) as u64
    } else {
        0
    }
}

/// A fresh account first seen at `now`.
pub open spec fn fresh_account(now: u64) -> AccountModel {
    AccountModel {
        generation: 0,
        rejection_count: 0,
        cooldown_until: None,
        explicit_retry_after_until: None,
        tickets: Seq::empty(),
        probe: None,
        observation: None,
        saturated: false,
        last_access: now,
    }
}

/// A ticket that neither its waiting budget nor its lease has run out at `now`.
pub open spec fn ticket_live(r: TicketRecord, now: u64) -> bool {
    now < r.logical_deadline && now < r.lease_deadline
}

/// An account with what has lapsed at `now` removed: dead tickets, an
/// expired probe (which also advances the generation), a stale reading and
/// passed deadlines.
pub open spec fn pruned(s: AccountModel, now: u64) -> AccountModel {
    let probe_expired = s.probe matches Some(p) && now >= p.expires_at;
    AccountModel {
        tickets: s.tickets.filter(|r: TicketRecord| ticket_live(r, now)),
        probe: if probe_expired {
            None
        } else {
            s.probe
        },
        generation: if probe_expired {
            sat_add(s.generation, 1)
        } else {
            s.generation
        },
        last_access: if probe_expired {
            now
        } else {
            s.last_access
        },
        observation: if s.observation matches Some(o) && now >= o.fresh_until {
            None
        } else {
            s.observation
        },
        explicit_retry_after_until: if s.explicit_retry_after_until matches Some(d) && now >= d {
            None
        } else {
            s.explicit_retry_after_until
        },
        cooldown_until: if s.cooldown_until matches Some(d) && now >= d {
            None
        } else {
            s.cooldown_until
        },
        ..s
    }
}

/// Time left until a deadline, zero when there is none.
pub open spec fn remaining(d: Option<u64>, now: u64) -> u64 {
    match d {
        Some(d) => sat_sub(d, now),
        None => 0,
    }
}

/// How long the account still refuses new probes.
pub open spec fn retry_after_of(s: AccountModel, now: u64) -> u64 {
    let a = remaining(s.explicit_retry_after_until, now);
    let b = remaining(s.cooldown_until, now);
    if a >= b {
        a
    } else {
        b
    }
}

/// Keys of a list of keyed entries are pairwise different.
pub open spec fn keys_distinct<V>(a: Seq<(AccountConcurrencyKey, V)>) -> bool {
    forall|i: int, j: int|
        0 <= i < a.len() && 0 <= j < a.len() && i != j ==> key_view(#[trigger] a[i].0) != key_view(
            #[trigger] a[j].0,
        )
}

pub open spec fn has_key<V>(a: Seq<(AccountConcurrencyKey, V)>, k: KeyView) -> bool {
    exists|i: int| 0 <= i < a.len() && key_view(#[trigger] a[i].0) == k
}

/// A list of keyed entries as a map.
pub open spec fn keyed<V>(a: Seq<(AccountConcurrencyKey, V)>) -> Map<KeyView, V> {
    Map::new(
        |k: KeyView| has_key(a, k),
        |k: KeyView| a[choose|i: int| 0 <= i < a.len() && key_view(#[trigger] a[i].0) == k].1,
    )
}

pub proof fn lemma_keyed_index<V>(a: Seq<(AccountConcurrencyKey, V)>, i: int)
    requires
        keys_distinct(a),
        0 <= i < a.len(),
    ensures
        keyed(a).dom().contains(key_view(a[i].0)),
        keyed(a)[key_view(a[i].0)] == a[i].1,
{
    let k = key_view(a[i].0);
    assert(has_key(a, k));
    let j = choose|j: int| 0 <= j < a.len() && key_view(#[trigger] a[j].0) == k;
    assert(i == j);
}

pub proof fn lemma_keyed_update<V>(a: Seq<(AccountConcurrencyKey, V)>, i: int, v: V)
    requires
        keys_distinct(a),
        0 <= i < a.len(),
    ensures
        keys_distinct(a.update(i, (a[i].0, v))),
        keyed(a.update(i, (a[i].0, v))) == keyed(a).insert(key_view(a[i].0), v),
{
    let b = a.update(i, (a[i].0, v));
    assert forall|x: int, y: int|
        0 <= x < b.len() && 0 <= y < b.len() && x != y implies key_view(#[trigger] b[x].0)
        != key_view(#[trigger] b[y].0) by {
        assert(b[x].0 == a[x].0);
        assert(b[y].0 == a[y].0);
    }
    assert forall|k: KeyView| #[trigger] has_key(b, k) == has_key(a, k) by {
        if has_key(a, k) {
            let j = choose|j: int| 0 <= j < a.len() && key_view(#[trigger] a[j].0) == k;
            assert(b[j].0 == a[j].0);
        }
        if has_key(b, k) {
            let j = choose|j: int| 0 <= j < b.len() && key_view(#[trigger] b[j].0) == k;
            assert(b[j].0 == a[j].0);
        }
    }
    assert forall|k: KeyView| #[trigger] keyed(b).dom().contains(k) implies keyed(b)[k] == keyed(
        a,
    ).insert(key_view(a[i].0), v)[k] by {
        let j = choose|j: int| 0 <= j < b.len() && key_view(#[trigger] b[j].0) == k;
        lemma_keyed_index(b, j);
        if j != i {
            lemma_keyed_index(a, j);
        }
    }
    assert(keyed(b) =~= keyed(a).insert(key_view(a[i].0), v));
}

pub proof fn lemma_keyed_push<V>(a: Seq<(AccountConcurrencyKey, V)>, key: AccountConcurrencyKey, v: V)
    requires
        keys_distinct(a),
        !keyed(a).dom().contains(key_view(key)),
    ensures
        keys_distinct(a.push((key, v))),
        keyed(a.push((key, v))) == keyed(a).insert(key_view(key), v),
{
    let b = a.push((key, v));
    assert forall|x: int, y: int|
        0 <= x < b.len() && 0 <= y < b.len() && x != y implies key_view(#[trigger] b[x].0)
        != key_view(#[trigger] b[y].0) by {
        if x < a.len() && y < a.len() {
            assert(b[x] == a[x] && b[y] == a[y]);
        } else if x < a.len() {
            assert(b[x] == a[x]);
            if key_view(a[x].0) == key_view(key) {
                assert(has_key(a, key_view(key)));
            }
        } else {
            assert(b[y] == a[y]);
            if key_view(a[y].0) == key_view(key) {
                assert(has_key(a, key_view(key)));
            }
        }
    }
    assert forall|k: KeyView| #[trigger] has_key(b, k) == (has_key(a, k) || k == key_view(key)) by {
        if has_key(a, k) {
            let j = choose|j: int| 0 <= j < a.len() && key_view(#[trigger] a[j].0) == k;
            assert(b[j] == a[j]);
        }
        if k == key_view(key) {
            assert(b[a.len() as int].0 == key);
        }
        if has_key(b, k) {
            let j = choose|j: int| 0 <= j < b.len() && key_view(#[trigger] b[j].0) == k;
            if j < a.len() {
                assert(b[j] == a[j]);
            }
        }
    }
    assert forall|k: KeyView| #[trigger] keyed(b).dom().contains(k) implies keyed(b)[k] == keyed(
        a,
    ).insert(key_view(key), v)[k] by {
        let j = choose|j: int| 0 <= j < b.len() && key_view(#[trigger] b[j].0) == k;
        lemma_keyed_index(b, j);
        if j < a.len() {
            assert(b[j] == a[j]);
            lemma_keyed_index(a, j);
        }
    }
    assert(keyed(b) =~= keyed(a).insert(key_view(key), v));
}

/// The index of the entry with key `k`.
pub(crate) fn find_entry<V>(a: &Vec<(AccountConcurrencyKey, V)>, k: &AccountConcurrencyKey) -> (r: Option<usize>)
    ensures
        match r {
            Some(i) => i < a@.len() && key_view(a@[i as int].0) == key_view(*k),
            None => !has_key(a@, key_view(*k)),
        },
{
    let mut i: usize = 0;
    while i < a.len()
        invariant
            i <= a@.len(),
            forall|j: int| 0 <= j < i ==> key_view(#[trigger] a@[j].0) != key_view(*k),
        decreases a@.len() - i,
    {
        if a[i].0.upstream_id == k.upstream_id && a[i].0.key_fingerprint == k.key_fingerprint {
            return Some(i);
        }
        i = i + 1;
    }
    None
}

pub proof fn lemma_keyed_len<V>(a: Seq<(AccountConcurrencyKey, V)>)
    requires
        keys_distinct(a),
    ensures
        keyed(a).dom().finite(),
        keyed(a).dom().len() == a.len(),
    decreases a.len(),
{
    if a.len() == 0 {
        assert(keyed(a).dom() =~= Set::empty());
    } else {
        let b = a.drop_last();
        assert(keys_distinct(b)) by {
            assert forall|x: int, y: int|
                0 <= x < b.len() && 0 <= y < b.len() && x != y implies key_view(#[trigger] b[x].0)
                != key_view(#[trigger] b[y].0) by {
                assert(b[x] == a[x] && b[y] == a[y]);
            }
        }
        lemma_keyed_len(b);
        if has_key(b, key_view(a.last().0)) {
            let j = choose|j: int| 0 <= j < b.len() && key_view(#[trigger] b[j].0) == key_view(
                a.last().0,
            );
            assert(b[j] == a[j]);
            assert(a[a.len() - 1] == a.last());
        }
        lemma_keyed_push(b, a.last().0, a.last().1);
        assert(b.push((a.last().0, a.last().1)) =~= a);
    }
}

/// The accounts as a map from key to state.
pub open spec fn models(a: Seq<(AccountConcurrencyKey, AccountState)>) -> Map<KeyView, AccountModel> {
    keyed(a).map_values(|s: AccountState| s@)
}

pub proof fn lemma_models_update(a: Seq<(AccountConcurrencyKey, AccountState)>, i: int, s: AccountState)
    requires
        keys_distinct(a),
        0 <= i < a.len(),
    ensures
        keys_distinct(a.update(i, (a[i].0, s))),
        models(a.update(i, (a[i].0, s))) == models(a).insert(key_view(a[i].0), s@),
{
    lemma_keyed_update(a, i, s);
    assert(models(a.update(i, (a[i].0, s))) =~= models(a).insert(key_view(a[i].0), s@));
}

pub proof fn lemma_models_push(a: Seq<(AccountConcurrencyKey, AccountState)>, k: AccountConcurrencyKey, s: AccountState)
    requires
        keys_distinct(a),
        !has_key(a, key_view(k)),
    ensures
        keys_distinct(a.push((k, s))),
        models(a.push((k, s))) == models(a).insert(key_view(k), s@),
{
    lemma_keyed_push(a, k, s);
    assert(models(a.push((k, s))) =~= models(a).insert(key_view(k), s@));
}

/// std: a fresh `DefaultHasher`. Nothing is stated of it.
#[verifier::external_body]
fn new_hasher() -> DefaultHasher {
    DefaultHasher::new()
}

/// std: `Hash::hash` of a string slice into a `DefaultHasher`. Nothing is
/// stated of the hasher's new state.
#[verifier::external_body]
fn hash_text(hasher: &mut DefaultHasher, text: &str) {
    std::hash::Hash::hash(text, hasher)
}

/// std: `Hash::hash` of a `u64` into a `DefaultHasher`. Nothing is stated
/// of the hasher's new state.
#[verifier::external_body]
fn hash_number(hasher: &mut DefaultHasher, value: u64) {
    std::hash::Hash::hash(&value, hasher)
}

/// std: `Hasher::finish`. The value is not stated: std does not promise
/// that its default hasher is the same across releases.
#[verifier::external_body]
fn finish_hash(hasher: &DefaultHasher) -> u64 {
    std::hash::Hasher::finish(hasher)
}

/// uuid: a random version-4 UUID in its hyphenated text form. Nothing is
/// stated of the text.
#[verifier::external_body]
pub(crate) fn random_token() -> String {
    uuid::Uuid::new_v4().to_string()
}

/// std: the system clock as whole seconds since the unix epoch (zero for a
/// clock set before it). Nothing is stated of the value.
#[verifier::external_body]
fn system_unix_seconds() -> u64 {
    match std::time::SystemTime::now().duration_since(std::time::UNIX_EPOCH) {
        Ok(elapsed) => elapsed.as_secs(),
        Err(_) => 0,
    }
}

pub fn copy_key(k: &AccountConcurrencyKey) -> (r: AccountConcurrencyKey)
    ensures
        r == *k,
{
    AccountConcurrencyKey { upstream_id: k.upstream_id.clone(), key_fingerprint: k.key_fingerprint.clone() }
}

pub fn copy_ticket(t: &AccountWaitTicket) -> (r: AccountWaitTicket)
    ensures
        r == *t,
{
    AccountWaitTicket {
        account: copy_key(&t.account),
        request_id: t.request_id.clone(),
        downstream_id: t.downstream_id.clone(),
        downstream_lease_id: t.downstream_lease_id.clone(),
        generation: t.generation,
        registered_at_ms: t.registered_at_ms,
        registration_token: t.registration_token.clone(),
    }
}

pub fn copy_lease(l: &AccountProbeLease) -> (r: AccountProbeLease)
    ensures
        r == *l,
{
    AccountProbeLease {
        account: copy_key(&l.account),
        request_id: l.request_id.clone(),
        generation: l.generation,
        owner_token: l.owner_token.clone(),
        expires_at_ms: l.expires_at_ms,
    }
}

/// Waiters of one account, oldest first, dropping those lapsed at `now`.
fn live_tickets(tickets: &Vec<TicketRecord>, now: u64) -> (r: Vec<TicketRecord>)
    ensures
        r@ == tickets@.filter(|t: TicketRecord| ticket_live(t, now)),
{
    let ghost all = tickets@;
    let mut kept: Vec<TicketRecord> = Vec::new();
    for i in 0..tickets.len()
        invariant
            all == tickets@,
            kept@ == all.take(i as int).filter(|t: TicketRecord| ticket_live(t, now)),
    {
        assert(all.take(i + 1).drop_last() == all.take(i as int));
        assert(all.take(i + 1).last() == all[i as int]);
        reveal_with_fuel(Seq::filter, 1);
        if now < tickets[i].logical_deadline && now < tickets[i].lease_deadline {
            kept.push(
                TicketRecord {
                    ticket: copy_ticket(&tickets[i].ticket),
                    logical_deadline: tickets[i].logical_deadline,
                    lease_deadline: tickets[i].lease_deadline,
                },
            );
        }
    }
    assert(all.take(all.len() as int) == all);
    kept
}

/// Removes from `s` what has lapsed at `now`.
fn prune_account(s: &mut AccountState, now: u64)
    ensures
        final(s)@ == pruned(old(s)@, now),
{
    s.tickets = live_tickets(&s.tickets, now);
    let expired = match &s.probe {
        Some(probe) => now >= probe.expires_at,
        None => false,
    };
    if expired {
        s.probe = None;
        s.generation = s.generation.saturating_add(1);
        s.last_access = now;
    }
    let stale = match &s.observation {
        Some(observation) => now >= observation.fresh_until,
        None => false,
    };
    if stale {
        s.observation = None;
    }
    if let Some(deadline) = s.explicit_retry_after_until {
        if now >= deadline {
            s.explicit_retry_after_until = None;
        }
    }
    if let Some(deadline) = s.cooldown_until {
        if now >= deadline {
            s.cooldown_until = None;
        }
    }
    assert(s@ =~= pruned(old(s)@, now));
}

fn remaining_exec(d: Option<u64>, now: u64) -> (r: u64)
    ensures
        r == remaining(d, now),
{
    match d {
        Some(d) => d.saturating_sub(now),
        None => 0,
    }
}

fn retry_after_exec(s: &AccountState, now: u64) -> (r: u64)
    ensures
        r == retry_after_of(s@, now),
{
    let a = remaining_exec(s.explicit_retry_after_until, now);
    let b = remaining_exec(s.cooldown_until, now);
    if a >= b {
        a
    } else {
        b
    }
}

/// Unix seconds of an instant of the registry's clock.
pub open spec fn unix_seconds_at(origin_unix_seconds: u64, now: u64) -> u64 {
    sat_add(origin_unix_seconds, now / 1000)
}

/// The account after a concurrency rejection at `now`: saturated, its
/// rejection count raised, and cooled down until the later of the next
/// scheduled delay (plus `jitter`) and any explicit retry-after.
pub open spec fn rejected(
    s: AccountModel,
    delays: Seq<u64>,
    jitter: u64,
    retry_after: Option<u64>,
    now: u64,
    advance_generation: bool,
) -> AccountModel {
    let index = if s.rejection_count < delays.len() - 1 {
        s.rejection_count as int
    } else {
        delays.len() - 1
    };
    let local_deadline = sat_add(now, sat_add(delays[index], jitter));
    let explicit = match retry_after {
        Some(r) => Some(
            match s.explicit_retry_after_until {
                Some(c) => if c >= sat_add(now, r) {
                    c
                } else {
                    sat_add(now, r)
                },
                None => sat_add(now, r),
            },
        ),
        None => s.explicit_retry_after_until,
    };
    AccountModel {
        generation: if advance_generation {
            sat_add(s.generation, 1)
        } else {
            s.generation
        },
        saturated: true,
        rejection_count: if s.rejection_count == usize::MAX {
            s.rejection_count
        } else {
            (s.rejection_count + 1) as usize
        },
        explicit_retry_after_until: explicit,
        cooldown_until: Some(
            match explicit {
                Some(x) => if x >= local_deadline {
                    x
                } else {
                    local_deadline
                },
                None => local_deadline,
            },
        ),
        last_access: now,
        ..s
    }
}

fn apply_rejection(
    s: &mut AccountState,
    delays: &Vec<u64>,
    jitter: u64,
    retry_after: Option<u64>,
    now: u64,
    advance_generation: bool,
)
    requires
        delays@.len() > 0,
    ensures
        final(s)@ == rejected(old(s)@, delays@, jitter, retry_after, now, advance_generation),
{
    if advance_generation {
        s.generation = s.generation.saturating_add(1);
    }
    s.saturated = true;
    let last = delays.len() - 1;
    let index = if s.rejection_count < last {
        s.rejection_count
    } else {
        last
    };
    let local_delay = delays[index].saturating_add(jitter);
    s.rejection_count = s.rejection_count.saturating_add(1);
    let local_deadline = now.saturating_add(local_delay);
    if let Some(retry_after) = retry_after {
        let explicit_deadline = now.saturating_add(retry_after);
        s.explicit_retry_after_until = Some(
            match s.explicit_retry_after_until {
                Some(current) => if current >= explicit_deadline {
                    current
                } else {
                    explicit_deadline
                },
                None => explicit_deadline,
            },
        );
    }
    s.cooldown_until = Some(
        match s.explicit_retry_after_until {
            Some(explicit) => if explicit >= local_deadline {
                explicit
            } else {
                local_deadline
            },
            None => local_deadline,
        },
    );
    s.last_access = now;
    assert(s@ =~= rejected(old(s)@, delays@, jitter, retry_after, now, advance_generation));
}

/// Putting any state back at position `i` of `rest` under key `k` gives
/// `target` with that state at `kv`, with keys still distinct.
spec fn reinsertable(
    rest: Seq<(AccountConcurrencyKey, AccountState)>,
    i: int,
    k: AccountConcurrencyKey,
    target: Map<KeyView, AccountModel>,
    kv: KeyView,
) -> bool {
    &&& 0 <= i <= rest.len()
    &&& forall|s: AccountState|
        #![trigger models(rest.insert(i, (k, s)))]
        keys_distinct(rest.insert(i, (k, s))) && models(rest.insert(i, (k, s))) == target.insert(kv, s@)
}

/// Tracks every account's waiters, probe and cooldown, and which caller
/// polls an account's provider status.
pub struct AccountConcurrencyRegistry {
    tuning: AccountConcurrencyTuning,
    origin_unix_seconds: u64,
    accounts: Vec<(AccountConcurrencyKey, AccountState)>,
    pollers: Vec<(AccountConcurrencyKey, PollerRecord)>,
}

impl View for AccountConcurrencyRegistry {
    type V = Map<KeyView, AccountModel>;

    closed spec fn view(&self) -> Map<KeyView, AccountModel> {
        models(self.accounts@)
    }
}

/// The account as it stands before an operation that creates it on demand.
pub open spec fn existing_or_fresh(m: Map<KeyView, AccountModel>, k: KeyView, now: u64) -> AccountModel {
    if m.dom().contains(k) {
        m[k]
    } else {
        fresh_account(now)
    }
}

/// The wait handed out when a ticket is unknown: the first scheduled
/// delay, else the renewal interval.
pub open spec fn default_wait(t: AccountConcurrencyTuning) -> u64 {
    if t.probe_delays@.len() > 0 {
        t.probe_delays@[0]
    } else {
        t.renewal_interval
    }
}

impl AccountConcurrencyRegistry {
    /// Every account appears once, every poller appears once, and there is
    /// at least one scheduled probe delay.
    pub closed spec fn wf(&self) -> bool {
        &&& keys_distinct(self.accounts@)
        &&& keys_distinct(self.pollers@)
        &&& self.tuning.probe_delays@.len() > 0
    }

    pub closed spec fn tuning(&self) -> AccountConcurrencyTuning {
        self.tuning
    }

    pub closed spec fn origin_unix_seconds(&self) -> u64 {
        self.origin_unix_seconds
    }

    /// The status pollers by account.
    pub closed spec fn pollers(&self) -> Map<KeyView, PollerRecord> {
        keyed(self.pollers@)
    }

    /// Tuning, clock origin and pollers are as in `other`.
    pub open spec fn same_setup(&self, other: &Self) -> bool {
        &&& self.tuning() == other.tuning()
        &&& self.origin_unix_seconds() == other.origin_unix_seconds()
        &&& self.pollers() == other.pollers()
    }

    /// An empty registry whose clock reads zero at the given unix second.
    /// An empty delay schedule becomes a single 100 ms delay.
    pub fn with_origin(tuning: AccountConcurrencyTuning, origin_unix_seconds: u64) -> (r: Self)
        ensures
            r.wf(),
            r@ == Map::<KeyView, AccountModel>::empty(),
            r.pollers() == Map::<KeyView, PollerRecord>::empty(),
            r.origin_unix_seconds() == origin_unix_seconds,
            r.tuning().probe_delays@ == if tuning.probe_delays@.len() == 0 {
                seq![100u64]
            } else {
                tuning.probe_delays@
            },
            r.tuning().jitter_max == tuning.jitter_max,
            r.tuning().waiter_budget == tuning.waiter_budget,
            r.tuning().waiter_ttl == tuning.waiter_ttl,
            r.tuning().probe_ttl == tuning.probe_ttl,
            r.tuning().renewal_interval == tuning.renewal_interval,
            r.tuning().observation_freshness == tuning.observation_freshness,
            r.tuning().idle_retention == tuning.idle_retention,
    {
        let mut tuning = tuning;
        if tuning.probe_delays.len() == 0 {
            tuning.probe_delays = vec![100];
        }
        let r = AccountConcurrencyRegistry {
            tuning,
            origin_unix_seconds,
            accounts: Vec::new(),
            pollers: Vec::new(),
        };
        assert(models(r.accounts@) =~= Map::<KeyView, AccountModel>::empty());
        assert(keyed(r.pollers@) =~= Map::<KeyView, PollerRecord>::empty());
        r
    }

    /// An empty registry whose clock starts now.
    pub fn new(tuning: AccountConcurrencyTuning) -> (r: Self)
        ensures
            r.wf(),
            r@ == Map::<KeyView, AccountModel>::empty(),
            r.pollers() == Map::<KeyView, PollerRecord>::empty(),
            r.tuning().probe_delays@.len() > 0,
    {
        Self::with_origin(tuning, system_unix_seconds())
    }

    /// The number of tracked accounts.
    pub fn entry_count(&self) -> (r: usize)
        requires
            self.wf(),
        ensures
            r == self@.len(),
    {
        proof {
            lemma_keyed_len(self.accounts@);
            assert(self@.dom() =~= keyed(self.accounts@).dom());
        }
        self.accounts.len()
    }

    /// The jitter added to a scheduled delay: a hash of the account and
    /// generation, reduced to at most `jitter_max`; none when `jitter_max` is
    /// zero. The hash is std's `DefaultHasher`, whose output std leaves
    /// unspecified, so no clause names the value beyond these bounds.
    fn jitter(&self, key: &AccountConcurrencyKey, generation: u64) -> (r: u64)
        ensures
            r <= self.tuning.jitter_max,
            self.tuning.jitter_max == 0 ==> r == 0,
    {
        let max = self.tuning.jitter_max;
        if max == 0 {
            return 0;
        }
        let mut hasher = new_hasher();
        hash_text(&mut hasher, key.upstream_id.as_str());
        hash_text(&mut hasher, key.key_fingerprint.as_str());
        hash_number(&mut hasher, generation);
        let bound = max.saturating_add(1);
        finish_hash(&hasher) % bound
    }

    fn unix_seconds(&self, now: u64) -> (r: u64)
        ensures
            r == unix_seconds_at(self.origin_unix_seconds, now),
    {
        self.origin_unix_seconds.saturating_add(now / 1000)
    }

    /// Removes the entry of `key`, creating it first if it is missing.
    fn take_or_create(&mut self, key: &AccountConcurrencyKey, now: u64) -> (r: (
        usize,
        AccountConcurrencyKey,
        AccountState,
    ))
        requires
            old(self).wf(),
        ensures
            key_view(r.1) == key_view(*key),
            r.2@ == existing_or_fresh(old(self)@, key_view(*key), now),
            reinsertable(final(self).accounts@, r.0 as int, r.1, old(self)@, key_view(*key)),
            final(self).tuning == old(self).tuning,
            final(self).origin_unix_seconds == old(self).origin_unix_seconds,
            final(self).pollers == old(self).pollers,
    {
        let ghost orig = self.accounts@;
        match find_entry(&self.accounts, key) {
            Some(i) => {
                proof {
                    lemma_keyed_index(orig, i as int);
                }
                let entry = self.accounts.remove(i);
                proof {
                    assert forall|s: AccountState|
                        #![trigger models(self.accounts@.insert(i as int, (entry.0, s)))]
                        keys_distinct(self.accounts@.insert(i as int, (entry.0, s))) && models(
                            self.accounts@.insert(i as int, (entry.0, s)),
                        ) == models(orig).insert(key_view(*key), s@) by {
                        assert(self.accounts@.insert(i as int, (entry.0, s)) =~= orig.update(
                            i as int,
                            (orig[i as int].0, s),
                        ));
                        lemma_models_update(orig, i as int, s);
                    }
                    assert(self.accounts@.insert(i as int, (entry.0, entry.1)) =~= orig);
                }
                (i, entry.0, entry.1)
            },
            None => {
                let n = self.accounts.len();
                let fresh = AccountState {
                    generation: 0,
                    rejection_count: 0,
                    cooldown_until: None,
                    explicit_retry_after_until: None,
                    tickets: Vec::new(),
                    probe: None,
                    observation: None,
                    saturated: false,
                    last_access: now,
                };
                proof {
                    assert forall|s: AccountState|
                        #![trigger models(self.accounts@.insert(n as int, (*key, s)))]
                        keys_distinct(self.accounts@.insert(n as int, (*key, s))) && models(
                            self.accounts@.insert(n as int, (*key, s)),
                        ) == models(orig).insert(key_view(*key), s@) by {
                        assert(self.accounts@.insert(n as int, (*key, s)) =~= orig.push((*key, s)));
                        lemma_models_push(orig, *key, s);
                    }
                    assert(fresh@ =~= fresh_account(now));
                }
                (n, copy_key(key), fresh)
            },
        }
    }
}

/// The account after a provider status reading at `now`: the reading is
/// kept until `now + freshness`, and a reading below the limit lifts the
/// cooldown.
pub open spec fn observed(
    s: AccountModel,
    current: u32,
    limit: u32,
    now: u64,
    origin_unix_seconds: u64,
    freshness: u64,
) -> AccountModel {
    let fresh_until = sat_add(now, freshness);
    AccountModel {
        observation: Some(
            ObservationRecord {
                value: ProviderConcurrencyObservation {
                    source: ProviderConcurrencyObservationSource::PrivateRequestStatus,
                    concurrency: current,
                    concurrency_limit: limit,
                    observed_at: unix_seconds_at(origin_unix_seconds, now),
                    fresh_until: unix_seconds_at(origin_unix_seconds, fresh_until),
                },
                fresh_until,
            },
        ),
        cooldown_until: if current < limit {
            None
        } else {
            s.cooldown_until
        },
        last_access: now,
        ..s
    }
}

/// The snapshot of an account that is not tracked.
pub open spec fn empty_snapshot() -> AccountConcurrencySnapshot {
    AccountConcurrencySnapshot {
        generation: 0,
        waiters: 0,
        probe_in_flight: false,
        saturated: false,
        retry_after: 0,
        observation: None,
    }
}

/// What a snapshot reports of an account at `now`.
pub open spec fn snapshot_of(s: AccountModel, now: u64) -> AccountConcurrencySnapshot {
    AccountConcurrencySnapshot {
        generation: s.generation,
        waiters: s.tickets.len() as usize,
        probe_in_flight: s.probe is Some,
        saturated: s.saturated,
        retry_after: retry_after_of(s, now),
        observation: match s.observation {
            Some(o) => Some(o.value),
            None => None,
        },
    }
}

/// Two tickets name the same registration (generation aside).
pub open spec fn same_ticket_identity(a: AccountWaitTicket, b: AccountWaitTicket) -> bool {
    &&& a.request_id@ == b.request_id@
    &&& a.downstream_id@ == b.downstream_id@
    &&& a.downstream_lease_id@ == b.downstream_lease_id@
    &&& a.registered_at_ms == b.registered_at_ms
    &&& a.registration_token@ == b.registration_token@
}

/// Two tickets name the same registration in the same generation.
pub open spec fn same_ticket(a: AccountWaitTicket, b: AccountWaitTicket) -> bool {
    same_ticket_identity(a, b) && a.generation == b.generation
}

/// The queue position of the first record of ticket `t`.
pub open spec fn ticket_position(ts: Seq<TicketRecord>, t: AccountWaitTicket) -> Option<int>
    decreases ts.len(),
{
    if ts.len() == 0 {
        None
    } else if same_ticket_identity(ts[0].ticket, t) {
        Some(0)
    } else {
        match ticket_position(ts.drop_first(), t) {
            Some(i) => Some(i + 1),
            None => None,
        }
    }
}

proof fn lemma_ticket_position(ts: Seq<TicketRecord>, t: AccountWaitTicket, p: int)
    requires
        0 <= p <= ts.len(),
        forall|j: int| 0 <= j < p ==> !same_ticket_identity(#[trigger] ts[j].ticket, t),
    ensures
        p < ts.len() && same_ticket_identity(ts[p].ticket, t) ==> ticket_position(ts, t) == Some(p),
        p == ts.len() ==> ticket_position(ts, t) is None,
    decreases p,
{
    if p > 0 {
        let rest = ts.drop_first();
        assert forall|j: int| 0 <= j < p - 1 implies !same_ticket_identity(
            #[trigger] rest[j].ticket,
            t,
        ) by {
            assert(rest[j] == ts[j + 1]);
        }
        lemma_ticket_position(rest, t, p - 1);
        if p < ts.len() {
            assert(rest[p - 1] == ts[p]);
        }
    }
}

fn ticket_identity_matches(a: &AccountWaitTicket, b: &AccountWaitTicket) -> (r: bool)
    ensures
        r == same_ticket_identity(*a, *b),
{
    a.request_id == b.request_id && a.downstream_id == b.downstream_id && a.downstream_lease_id
        == b.downstream_lease_id && a.registered_at_ms == b.registered_at_ms && a.registration_token
        == b.registration_token
}

fn ticket_matches(a: &AccountWaitTicket, b: &AccountWaitTicket) -> (r: bool)
    ensures
        r == same_ticket(*a, *b),
{
    ticket_identity_matches(a, b) && a.generation == b.generation
}

fn find_ticket(ts: &Vec<TicketRecord>, t: &AccountWaitTicket) -> (r: Option<usize>)
    ensures
        match r {
            Some(p) => p < ts@.len() && ticket_position(ts@, *t) == Some(p as int),
            None => ticket_position(ts@, *t) is None,
        },
{
    let mut i: usize = 0;
    while i < ts.len()
        invariant
            i <= ts@.len(),
            forall|j: int| 0 <= j < i ==> !same_ticket_identity(#[trigger] ts@[j].ticket, *t),
        decreases ts@.len() - i,
    {
        if ticket_identity_matches(&ts[i].ticket, t) {
            proof {
                lemma_ticket_position(ts@, *t, i as int);
            }
            return Some(i);
        }
        i = i + 1;
    }
    proof {
        lemma_ticket_position(ts@, *t, i as int);
    }
    None
}

/// The account after queuing ticket `t` at `now`: earlier records of the
/// same request leave, the new record goes last.
pub open spec fn enqueued(s: AccountModel, t: AccountWaitTicket, now: u64, budget: u64, ttl: u64) -> AccountModel {
    AccountModel {
        tickets: s.tickets.filter(|r: TicketRecord| r.ticket.request_id@ != t.request_id@).push(
            TicketRecord {
                ticket: t,
                logical_deadline: sat_add(now, budget),
                lease_deadline: sat_add(now, ttl),
            },
        ),
        last_access: now,
        ..s
    }
}

/// The account after cancelling ticket `t` at `now`.
pub open spec fn cancelled(s: AccountModel, t: AccountWaitTicket, now: u64) -> AccountModel {
    AccountModel {
        tickets: s.tickets.filter(|r: TicketRecord| !same_ticket(r.ticket, t)),
        last_access: now,
        ..s
    }
}

fn copy_record(r: &TicketRecord) -> (c: TicketRecord)
    ensures
        c == *r,
{
    TicketRecord {
        ticket: copy_ticket(&r.ticket),
        logical_deadline: r.logical_deadline,
        lease_deadline: r.lease_deadline,
    }
}

fn without_request(tickets: &Vec<TicketRecord>, request_id: &str) -> (r: Vec<TicketRecord>)
    ensures
        r@ == tickets@.filter(|t: TicketRecord| t.ticket.request_id@ != request_id@),
{
    let ghost all = tickets@;
    let mut kept: Vec<TicketRecord> = Vec::new();
    for i in 0..tickets.len()
        invariant
            all == tickets@,
            kept@ == all.take(i as int).filter(|t: TicketRecord| t.ticket.request_id@ != request_id@),
    {
        assert(all.take(i + 1).drop_last() == all.take(i as int));
        assert(all.take(i + 1).last() == all[i as int]);
        reveal_with_fuel(Seq::filter, 1);
        if !str_eq(tickets[i].ticket.request_id.as_str(), request_id) {
            kept.push(copy_record(&tickets[i]));
        }
    }
    assert(all.take(all.len() as int) == all);
    kept
}

fn without_ticket(tickets: &Vec<TicketRecord>, t: &AccountWaitTicket) -> (r: Vec<TicketRecord>)
    ensures
        r@ == tickets@.filter(|x: TicketRecord| !same_ticket(x.ticket, *t)),
{
    let ghost all = tickets@;
    let mut kept: Vec<TicketRecord> = Vec::new();
    for i in 0..tickets.len()
        invariant
            all == tickets@,
            kept@ == all.take(i as int).filter(|x: TicketRecord| !same_ticket(x.ticket, *t)),
    {
        assert(all.take(i + 1).drop_last() == all.take(i as int));
        assert(all.take(i + 1).last() == all[i as int]);
        reveal_with_fuel(Seq::filter, 1);
        if !ticket_matches(&tickets[i].ticket, t) {
            kept.push(copy_record(&tickets[i]));
        }
    }
    assert(all.take(all.len() as int) == all);
    kept
}

impl AccountConcurrencyRegistry {
    /// Puts an account taken out by `take_or_create` or `take_existing`
    /// back in its place.
    fn restore(
        &mut self,
        i: usize,
        k: AccountConcurrencyKey,
        st: AccountState,
        Ghost(target): Ghost<Map<KeyView, AccountModel>>,
        Ghost(kv): Ghost<KeyView>,
    )
        requires
            reinsertable(old(self).accounts@, i as int, k, target, kv),
            keys_distinct(old(self).pollers@),
            old(self).tuning.probe_delays@.len() > 0,
        ensures
            final(self).wf(),
            final(self)@ == target.insert(kv, st@),
            final(self).tuning == old(self).tuning,
            final(self).origin_unix_seconds == old(self).origin_unix_seconds,
            final(self).pollers == old(self).pollers,
    {
        proof {
            assert(models(self.accounts@.insert(i as int, (k, st))) == target.insert(kv, st@));
        }
        self.accounts.insert(i, (k, st));
    }

    /// Whether `key` is tracked.
    fn contains_account(&self, key: &AccountConcurrencyKey) -> (r: bool)
        requires
            self.wf(),
        ensures
            r == self@.dom().contains(key_view(*key)),
    {
        match find_entry(&self.accounts, key) {
            None => {
                assert(!keyed(self.accounts@).dom().contains(key_view(*key)));
                false
            },
            Some(i) => {
                proof {
                    lemma_keyed_index(self.accounts@, i as int);
                }
                true
            },
        }
    }

    /// Records a concurrency rejection of `key` at `now`. The generation
    /// advances unless a probe is in flight; the cooldown runs to the later
    /// of the scheduled delay plus jitter and any explicit retry-after.
    pub fn reject(&mut self, key: &AccountConcurrencyKey, retry_after: Option<u64>, now: u64)
        requires
            old(self).wf(),
        ensures
            final(self).wf(),
            final(self).same_setup(old(self)),
            exists|j: u64|
                j <= old(self).tuning().jitter_max && final(self)@ == old(self)@.insert(
                    key_view(*key),
                    #[trigger] rejected(
                        pruned(existing_or_fresh(old(self)@, key_view(*key), now), now),
                        old(self).tuning().probe_delays@,
                        j,
                        retry_after,
                        now,
                        pruned(existing_or_fresh(old(self)@, key_view(*key), now), now).probe is None,
                    ),
                ),
    {
        let (i, k, mut st) = self.take_or_create(key, now);
        prune_account(&mut st, now);
        let advance = st.probe.is_none();
        let generation = if advance {
            st.generation.saturating_add(1)
        } else {
            st.generation
        };
        let j = self.jitter(key, generation);
        apply_rejection(&mut st, &self.tuning.probe_delays, j, retry_after, now, advance);
        self.restore(i, k, st, Ghost(old(self)@), Ghost(key_view(*key)));
        proof {
            assert(j <= old(self).tuning().jitter_max && self@ == old(self)@.insert(
                key_view(*key),
                rejected(
                    pruned(existing_or_fresh(old(self)@, key_view(*key), now), now),
                    old(self).tuning().probe_delays@,
                    j,
                    retry_after,
                    now,
                    pruned(existing_or_fresh(old(self)@, key_view(*key), now), now).probe is None,
                ),
            ));
        }
    }

    /// Records the provider's reported concurrency of `key`. A limit of zero
    /// and a concurrency above the limit are refused.
    pub fn observe_provider_status(
        &mut self,
        key: &AccountConcurrencyKey,
        current: u32,
        limit: u32,
        now: u64,
    ) -> (r: Result<(), ObservationError>)
        requires
            old(self).wf(),
        ensures
            final(self).wf(),
            final(self).same_setup(old(self)),
            limit == 0 ==> r == Err::<(), ObservationError>(ObservationError::InvalidLimit)
                && final(self)@ == old(self)@,
            limit > 0 && current > limit ==> r == Err::<(), ObservationError>(
                ObservationError::ConcurrencyExceedsLimit,
            ) && final(self)@ == old(self)@,
            limit > 0 && current <= limit ==> r is Ok && final(self)@ == old(self)@.insert(
                key_view(*key),
                observed(
                    pruned(existing_or_fresh(old(self)@, key_view(*key), now), now),
                    current,
                    limit,
                    now,
                    old(self).origin_unix_seconds(),
                    old(self).tuning().observation_freshness,
                ),
            ),
    {
        if limit == 0 {
            return Err(ObservationError::InvalidLimit);
        }
        if current > limit {
            return Err(ObservationError::ConcurrencyExceedsLimit);
        }
        let (i, k, mut st) = self.take_or_create(key, now);
        prune_account(&mut st, now);
        let fresh_until = now.saturating_add(self.tuning.observation_freshness);
        st.observation = Some(
            ObservationRecord {
                value: ProviderConcurrencyObservation {
                    source: ProviderConcurrencyObservationSource::PrivateRequestStatus,
                    concurrency: current,
                    concurrency_limit: limit,
                    observed_at: self.unix_seconds(now),
                    fresh_until: self.unix_seconds(fresh_until),
                },
                fresh_until,
            },
        );
        if current < limit {
            st.cooldown_until = None;
        }
        st.last_access = now;
        proof {
            assert(st@ =~= observed(
                pruned(existing_or_fresh(old(self)@, key_view(*key), now), now),
                current,
                limit,
                now,
                self.origin_unix_seconds,
                self.tuning.observation_freshness,
            ));
        }
        self.restore(i, k, st, Ghost(old(self)@), Ghost(key_view(*key)));
        Ok(())
    }

    /// The state of `key` at `now`, after dropping what has lapsed.
    pub fn snapshot(&mut self, key: &AccountConcurrencyKey, now: u64) -> (r: AccountConcurrencySnapshot)
        requires
            old(self).wf(),
        ensures
            final(self).wf(),
            final(self).same_setup(old(self)),
            if old(self)@.dom().contains(key_view(*key)) {
                &&& r == snapshot_of(pruned(old(self)@[key_view(*key)], now), now)
                &&& final(self)@ == old(self)@.insert(
                    key_view(*key),
                    pruned(old(self)@[key_view(*key)], now),
                )
            } else {
                r == empty_snapshot() && final(self)@ == old(self)@
            },
    {
        if !self.contains_account(key) {
            return AccountConcurrencySnapshot::default();
        }
        {
            let (i, k, mut st) = self.take_or_create(key, now);
            {
                prune_account(&mut st, now);
                let observation = match &st.observation {
                    Some(o) => Some(o.value),
                    None => None,
                };
                let r = AccountConcurrencySnapshot {
                    generation: st.generation,
                    waiters: st.tickets.len(),
                    probe_in_flight: st.probe.is_some(),
                    saturated: st.saturated,
                    retry_after: retry_after_exec(&st, now),
                    observation,
                };
                self.restore(i, k, st, Ghost(old(self)@), Ghost(key_view(*key)));
                r
            }
        }
    }

    fn enqueue(&self, st: &mut AccountState, key: AccountConcurrencyKey, request_id: &str, downstream_id: &str, downstream_lease_id: &str, now: u64) -> (t: AccountWaitTicket)
        ensures
            t.account == key,
            t.request_id@ == request_id@,
            t.downstream_id@ == downstream_id@,
            t.downstream_lease_id@ == downstream_lease_id@,
            t.generation == old(st).generation,
            t.registered_at_ms == now,
            final(st)@ == enqueued(old(st)@, t, now, self.tuning.waiter_budget, self.tuning.waiter_ttl),
    {
        let mut tickets = without_request(&st.tickets, request_id);
        let ticket = AccountWaitTicket {
            account: key,
            request_id: request_id.to_string(),
            downstream_id: downstream_id.to_string(),
            downstream_lease_id: downstream_lease_id.to_string(),
            generation: st.generation,
            registered_at_ms: now,
            registration_token: random_token(),
        };
        tickets.push(
            TicketRecord {
                ticket: copy_ticket(&ticket),
                logical_deadline: now.saturating_add(self.tuning.waiter_budget),
                lease_deadline: now.saturating_add(self.tuning.waiter_ttl),
            },
        );
        st.tickets = tickets;
        st.last_access = now;
        assert(st@ =~= enqueued(old(st)@, ticket, now, self.tuning.waiter_budget, self.tuning.waiter_ttl));
        ticket
    }

    /// Queues `request_id` behind `key`'s earlier waiters, replacing an
    /// earlier registration of the same request.
    pub fn register_waiter(
        &mut self,
        key: AccountConcurrencyKey,
        request_id: &str,
        downstream_id: &str,
        downstream_lease_id: &str,
        now: u64,
    ) -> (t: AccountWaitTicket)
        requires
            old(self).wf(),
        ensures
            final(self).wf(),
            final(self).same_setup(old(self)),
            t.account == key,
            t.request_id@ == request_id@,
            t.downstream_id@ == downstream_id@,
            t.downstream_lease_id@ == downstream_lease_id@,
            t.registered_at_ms == now,
            t.generation == pruned(existing_or_fresh(old(self)@, key_view(key), now), now).generation,
            final(self)@ == old(self)@.insert(
                key_view(key),
                enqueued(
                    pruned(existing_or_fresh(old(self)@, key_view(key), now), now),
                    t,
                    now,
                    old(self).tuning().waiter_budget,
                    old(self).tuning().waiter_ttl,
                ),
            ),
    {
        let ghost kv = key_view(key);
        let (i, k, mut st) = self.take_or_create(&key, now);
        prune_account(&mut st, now);
        let t = self.enqueue(&mut st, key, request_id, downstream_id, downstream_lease_id, now);
        self.restore(i, k, st, Ghost(old(self)@), Ghost(kv));
        t
    }

    /// Queues `request_id` as `register_waiter` does, but only while `key`
    /// is saturated; an unknown account stays untracked.
    pub fn register_waiter_if_saturated(
        &mut self,
        key: AccountConcurrencyKey,
        request_id: &str,
        downstream_id: &str,
        downstream_lease_id: &str,
        now: u64,
    ) -> (r: Option<AccountWaitTicket>)
        requires
            old(self).wf(),
        ensures
            final(self).wf(),
            final(self).same_setup(old(self)),
            !old(self)@.dom().contains(key_view(key)) ==> r is None && final(self)@ == old(self)@,
            old(self)@.dom().contains(key_view(key)) && !pruned(old(self)@[key_view(key)], now).saturated
                ==> r is None && final(self)@ == old(self)@.insert(
                key_view(key),
                pruned(old(self)@[key_view(key)], now),
            ),
            old(self)@.dom().contains(key_view(key)) && pruned(old(self)@[key_view(key)], now).saturated
                ==> (r matches Some(t) && {
                &&& t.account == key
                &&& t.request_id@ == request_id@
                &&& t.downstream_id@ == downstream_id@
                &&& t.downstream_lease_id@ == downstream_lease_id@
                &&& t.registered_at_ms == now
                &&& t.generation == pruned(old(self)@[key_view(key)], now).generation
                &&& final(self)@ == old(self)@.insert(
                    key_view(key),
                    enqueued(
                        pruned(old(self)@[key_view(key)], now),
                        t,
                        now,
                        old(self).tuning().waiter_budget,
                        old(self).tuning().waiter_ttl,
                    ),
                )
            }),
    {
        let ghost kv = key_view(key);
        if !self.contains_account(&key) {
            return None;
        }
        {
            let (i, k, mut st) = self.take_or_create(&key, now);
            {
                prune_account(&mut st, now);
                if !st.saturated {
                    self.restore(i, k, st, Ghost(old(self)@), Ghost(kv));
                    return None;
                }
                let t = self.enqueue(&mut st, key, request_id, downstream_id, downstream_lease_id, now);
                self.restore(i, k, st, Ghost(old(self)@), Ghost(kv));
                Some(t)
            }
        }
    }

    /// Withdraws `ticket` from its account's queue.
    pub fn cancel_waiter(&mut self, ticket: &AccountWaitTicket, now: u64)
        requires
            old(self).wf(),
        ensures
            final(self).wf(),
            final(self).same_setup(old(self)),
            if old(self)@.dom().contains(key_view(ticket.account)) {
                final(self)@ == old(self)@.insert(
                    key_view(ticket.account),
                    cancelled(old(self)@[key_view(ticket.account)], *ticket, now),
                )
            } else {
                final(self)@ == old(self)@
            },
    {
        if !self.contains_account(&ticket.account) {
            return;
        }
        {
            let (i, k, mut st) = self.take_or_create(&ticket.account, now);
            {
                st.tickets = without_ticket(&st.tickets, ticket);
                st.last_access = now;
                assert(st@ =~= cancelled(old(self)@[key_view(ticket.account)], *ticket, now));
                self.restore(i, k, st, Ghost(old(self)@), Ghost(key_view(ticket.account)));
            }
        }
    }
}

/// What a waiter asking for the probe is told, before any token is drawn.
#[derive(Clone, Copy, Debug, PartialEq, Eq)]
pub enum ProbeVerdict {
    Wait(u64),
    Grant,
}

/// The answer to ticket `t` asking for the probe of account `s` (already
/// pruned) at `now`: unknown or stale tickets wait the default; only the
/// head of the queue may probe, only while no probe is in flight and no
/// cooldown runs.
pub open spec fn probe_verdict(s: AccountModel, t: AccountWaitTicket, now: u64, default: u64) -> ProbeVerdict {
    match ticket_position(s.tickets, t) {
        None => ProbeVerdict::Wait(default),
        Some(p) => if s.tickets[p].ticket.generation != t.generation {
            ProbeVerdict::Wait(default)
        } else if p != 0 {
            ProbeVerdict::Wait(FIFO_POLL_INTERVAL_MS)
        } else if s.probe is Some {
            ProbeVerdict::Wait(sat_sub(s.probe->0.expires_at, now))
        } else if retry_after_of(s, now) != 0 {
            ProbeVerdict::Wait(retry_after_of(s, now))
        } else {
            ProbeVerdict::Grant
        },
    }
}

/// The account after granting `lease` to the head waiter at `now`.
pub open spec fn granted(s: AccountModel, lease: AccountProbeLease, now: u64) -> AccountModel {
    AccountModel {
        tickets: s.tickets.drop_first(),
        probe: Some(ProbeRecord { lease, expires_at: lease.expires_at_ms }),
        last_access: now,
        ..s
    }
}

/// Whether ticket `t` may be renewed in account `s` at `now`, and at which
/// queue position.
pub open spec fn waiter_renewal(s: AccountModel, t: AccountWaitTicket, now: u64) -> Result<int, AccountLeaseError> {
    match ticket_position(s.tickets, t) {
        None => Err(AccountLeaseError::Missing),
        Some(p) => if s.tickets[p].ticket.generation != t.generation {
            Err(AccountLeaseError::StaleGeneration)
        } else if now >= s.tickets[p].logical_deadline || now >= s.tickets[p].lease_deadline {
            Err(AccountLeaseError::Expired)
        } else {
            Ok(p)
        },
    }
}

/// The account after extending the lease of the ticket at position `p`.
pub open spec fn renewed_ticket(s: AccountModel, p: int, now: u64, ttl: u64) -> AccountModel {
    AccountModel {
        tickets: s.tickets.update(
            p,
            TicketRecord { lease_deadline: sat_add(now, ttl), ..s.tickets[p] },
        ),
        last_access: now,
        ..s
    }
}

/// Whether `lease` is the probe in flight of account `s`.
pub open spec fn probe_check(s: AccountModel, lease: AccountProbeLease) -> Result<(), AccountLeaseError> {
    if s.generation != lease.generation {
        Err(AccountLeaseError::StaleGeneration)
    } else {
        match s.probe {
            None => Err(AccountLeaseError::Missing),
            Some(p) => if p.lease.owner_token@ != lease.owner_token@ || p.lease.request_id@
                != lease.request_id@ {
                Err(AccountLeaseError::NotOwner)
            } else {
                Ok(())
            },
        }
    }
}

/// The account after extending its probe at `now`.
pub open spec fn renewed_probe(s: AccountModel, now: u64, ttl: u64) -> AccountModel {
    let p = s.probe->0;
    AccountModel {
        probe: Some(
            ProbeRecord {
                lease: AccountProbeLease { expires_at_ms: sat_add(now, ttl), ..p.lease },
                expires_at: sat_add(now, ttl),
            },
        ),
        last_access: now,
        ..s
    }
}

/// The account once its probe has ended at `now`.
pub open spec fn released(s: AccountModel, now: u64) -> AccountModel {
    AccountModel { probe: None, last_access: now, ..s }
}

/// The account after a probe the provider accepted: no cooldown, no
/// rejections counted, not saturated.
pub open spec fn accepted(s: AccountModel) -> AccountModel {
    AccountModel {
        cooldown_until: None,
        explicit_retry_after_until: None,
        rejection_count: 0,
        saturated: false,
        ..s
    }
}

fn validate_probe(s: &AccountState, lease: &AccountProbeLease) -> (r: Result<(), AccountLeaseError>)
    ensures
        r == probe_check(s@, *lease),
{
    if s.generation != lease.generation {
        return Err(AccountLeaseError::StaleGeneration);
    }
    match &s.probe {
        None => Err(AccountLeaseError::Missing),
        Some(probe) => {
            if probe.lease.owner_token != lease.owner_token {
                return Err(AccountLeaseError::NotOwner);
            }
            if probe.lease.request_id != lease.request_id {
                return Err(AccountLeaseError::NotOwner);
            }
            Ok(())
        },
    }
}

impl AccountConcurrencyRegistry {
    fn default_retry_after(&self) -> (r: u64)
        ensures
            r == default_wait(self.tuning),
    {
        if self.tuning.probe_delays.len() > 0 {
            self.tuning.probe_delays[0]
        } else {
            self.tuning.renewal_interval
        }
    }

    /// Extends the lease of a queued ticket. Unknown tickets are `Missing`,
    /// tickets of an earlier generation are `StaleGeneration`.
    pub fn renew_waiter(&mut self, ticket: &AccountWaitTicket, now: u64) -> (r: Result<(), AccountLeaseError>)
        requires
            old(self).wf(),
        ensures
            final(self).wf(),
            final(self).same_setup(old(self)),
            if old(self)@.dom().contains(key_view(ticket.account)) {
                let s = pruned(old(self)@[key_view(ticket.account)], now);
                match waiter_renewal(s, *ticket, now) {
                    Err(e) => r == Err::<(), AccountLeaseError>(e) && final(self)@ == old(self)@.insert(
                        key_view(ticket.account),
                        s,
                    ),
                    Ok(p) => r is Ok && final(self)@ == old(self)@.insert(
                        key_view(ticket.account),
                        renewed_ticket(s, p, now, old(self).tuning().waiter_ttl),
                    ),
                }
            } else {
                r == Err::<(), AccountLeaseError>(AccountLeaseError::Missing) && final(self)@ == old(self)@
            },
    {
        if !self.contains_account(&ticket.account) {
            return Err(AccountLeaseError::Missing);
        }
        let ghost kv = key_view(ticket.account);
        let (i, k, mut st) = self.take_or_create(&ticket.account, now);
        prune_account(&mut st, now);
        let position = match find_ticket(&st.tickets, ticket) {
            None => {
                self.restore(i, k, st, Ghost(old(self)@), Ghost(kv));
                return Err(AccountLeaseError::Missing);
            },
            Some(p) => p,
        };
        if st.tickets[position].ticket.generation != ticket.generation {
            self.restore(i, k, st, Ghost(old(self)@), Ghost(kv));
            return Err(AccountLeaseError::StaleGeneration);
        }
        if now >= st.tickets[position].logical_deadline || now >= st.tickets[position].lease_deadline {
            self.restore(i, k, st, Ghost(old(self)@), Ghost(kv));
            return Err(AccountLeaseError::Expired);
        }
        let mut record = st.tickets.remove(position);
        record.lease_deadline = now.saturating_add(self.tuning.waiter_ttl);
        st.tickets.insert(position, record);
        st.last_access = now;
        proof {
            let s = pruned(old(self)@[kv], now);
            assert(st@ =~= renewed_ticket(s, position as int, now, self.tuning.waiter_ttl));
        }
        self.restore(i, k, st, Ghost(old(self)@), Ghost(kv));
        Ok(())
    }

    /// Asks whether `ticket` may send the account's probe now.
    pub fn try_probe(&mut self, ticket: &AccountWaitTicket, now: u64) -> (r: ProbeDecision)
        requires
            old(self).wf(),
        ensures
            final(self).wf(),
            final(self).same_setup(old(self)),
            if old(self)@.dom().contains(key_view(ticket.account)) {
                let s = pruned(old(self)@[key_view(ticket.account)], now);
                match probe_verdict(s, *ticket, now, default_wait(old(self).tuning())) {
                    ProbeVerdict::Wait(w) => r == ProbeDecision::Wait { retry_after: w } && final(self)@ == old(self)@.insert(key_view(ticket.account), s),
                    ProbeVerdict::Grant => r matches ProbeDecision::Granted(l) && {
                        &&& l.account == ticket.account
                        &&& l.request_id == s.tickets[0].ticket.request_id
                        &&& l.generation == s.generation
                        &&& l.expires_at_ms == sat_add(now, old(self).tuning().probe_ttl)
                        &&& final(self)@ == old(self)@.insert(
                            key_view(ticket.account),
                            granted(s, l, now),
                        )
                    },
                }
            } else {
                r == ProbeDecision::Wait { retry_after: default_wait(old(self).tuning()) } && final(self)@ == old(self)@
            },
    {
        let default = self.default_retry_after();
        if !self.contains_account(&ticket.account) {
            return ProbeDecision::Wait { retry_after: default };
        }
        let ghost kv = key_view(ticket.account);
        let (i, k, mut st) = self.take_or_create(&ticket.account, now);
        prune_account(&mut st, now);
        let position = match find_ticket(&st.tickets, ticket) {
            None => {
                self.restore(i, k, st, Ghost(old(self)@), Ghost(kv));
                return ProbeDecision::Wait { retry_after: default };
            },
            Some(p) => p,
        };
        if st.tickets[position].ticket.generation != ticket.generation {
            self.restore(i, k, st, Ghost(old(self)@), Ghost(kv));
            return ProbeDecision::Wait { retry_after: default };
        }
        if position != 0 {
            self.restore(i, k, st, Ghost(old(self)@), Ghost(kv));
            return ProbeDecision::Wait { retry_after: FIFO_POLL_INTERVAL_MS };
        }
        let probe_wait = match &st.probe {
            Some(probe) => Some(probe.expires_at.saturating_sub(now)),
            None => None,
        };
        if let Some(wait) = probe_wait {
            self.restore(i, k, st, Ghost(old(self)@), Ghost(kv));
            return ProbeDecision::Wait { retry_after: wait };
        }
        let retry_after = retry_after_exec(&st, now);
        if retry_after != 0 {
            self.restore(i, k, st, Ghost(old(self)@), Ghost(kv));
            return ProbeDecision::Wait { retry_after };
        }
        let ghost s = st@;
        let record = st.tickets.remove(0);
        let expires_at = now.saturating_add(self.tuning.probe_ttl);
        let lease = AccountProbeLease {
            account: copy_key(&ticket.account),
            request_id: record.ticket.request_id,
            generation: st.generation,
            owner_token: random_token(),
            expires_at_ms: expires_at,
        };
        st.probe = Some(ProbeRecord { lease: copy_lease(&lease), expires_at });
        st.last_access = now;
        proof {
            assert(st@ =~= granted(s, lease, now));
        }
        self.restore(i, k, st, Ghost(old(self)@), Ghost(kv));
        ProbeDecision::Granted(lease)
    }

    /// Extends the probe lease while its holder is still working.
    pub fn renew_probe(&mut self, lease: &AccountProbeLease, now: u64) -> (r: Result<(), AccountLeaseError>)
        requires
            old(self).wf(),
        ensures
            final(self).wf(),
            final(self).same_setup(old(self)),
            if old(self)@.dom().contains(key_view(lease.account)) {
                let s = pruned(old(self)@[key_view(lease.account)], now);
                match probe_check(s, *lease) {
                    Err(e) => r == Err::<(), AccountLeaseError>(e) && final(self)@ == old(self)@.insert(
                        key_view(lease.account),
                        s,
                    ),
                    Ok(_) => r is Ok && final(self)@ == old(self)@.insert(
                        key_view(lease.account),
                        renewed_probe(s, now, old(self).tuning().probe_ttl),
                    ),
                }
            } else {
                r == Err::<(), AccountLeaseError>(AccountLeaseError::Missing) && final(self)@ == old(self)@
            },
    {
        if !self.contains_account(&lease.account) {
            return Err(AccountLeaseError::Missing);
        }
        let ghost kv = key_view(lease.account);
        let (i, k, mut st) = self.take_or_create(&lease.account, now);
        prune_account(&mut st, now);
        if let Err(e) = validate_probe(&st, lease) {
            self.restore(i, k, st, Ghost(old(self)@), Ghost(kv));
            return Err(e);
        }
        let ghost s = st@;
        let expires_at = now.saturating_add(self.tuning.probe_ttl);
        let probe = st.probe.take();
        match probe {
            Some(mut probe) => {
                probe.expires_at = expires_at;
                probe.lease.expires_at_ms = expires_at;
                st.probe = Some(probe);
            },
            None => {},
        }
        st.last_access = now;
        proof {
            assert(st@ =~= renewed_probe(s, now, self.tuning.probe_ttl));
        }
        self.restore(i, k, st, Ghost(old(self)@), Ghost(kv));
        Ok(())
    }

    /// Ends the probe of `lease` with `outcome`: a concurrency rejection
    /// starts the next cooldown in a new generation, an acceptance clears
    /// cooldown and saturation, anything else only frees the probe.
    pub fn finish_probe(
        &mut self,
        lease: AccountProbeLease,
        outcome: AccountProbeOutcome,
        now: u64,
    ) -> (r: Result<(), AccountLeaseError>)
        requires
            old(self).wf(),
        ensures
            final(self).wf(),
            final(self).same_setup(old(self)),
            if old(self)@.dom().contains(key_view(lease.account)) {
                let s = pruned(old(self)@[key_view(lease.account)], now);
                match probe_check(s, lease) {
                    Err(e) => r == Err::<(), AccountLeaseError>(e) && final(self)@ == old(self)@.insert(
                        key_view(lease.account),
                        s,
                    ),
                    Ok(_) => r is Ok && match outcome {
                        AccountProbeOutcome::ConcurrencyRejected { retry_after } => exists|j: u64|
                            j <= old(self).tuning().jitter_max && final(self)@ == old(self)@.insert(
                                key_view(lease.account),
                                #[trigger] rejected(
                                    released(s, now),
                                    old(self).tuning().probe_delays@,
                                    j,
                                    retry_after,
                                    now,
                                    true,
                                ),
                            ),
                        AccountProbeOutcome::Accepted => final(self)@ == old(self)@.insert(
                            key_view(lease.account),
                            accepted(released(s, now)),
                        ),
                        _ => final(self)@ == old(self)@.insert(
                            key_view(lease.account),
                            released(s, now),
                        ),
                    },
                }
            } else {
                r == Err::<(), AccountLeaseError>(AccountLeaseError::Missing) && final(self)@ == old(self)@
            },
    {
        if !self.contains_account(&lease.account) {
            return Err(AccountLeaseError::Missing);
        }
        let ghost kv = key_view(lease.account);
        let (i, k, mut st) = self.take_or_create(&lease.account, now);
        prune_account(&mut st, now);
        if let Err(e) = validate_probe(&st, &lease) {
            self.restore(i, k, st, Ghost(old(self)@), Ghost(kv));
            return Err(e);
        }
        let ghost s = st@;
        st.probe = None;
        st.last_access = now;
        assert(st@ =~= released(s, now));
        match outcome {
            AccountProbeOutcome::ConcurrencyRejected { retry_after } => {
                let generation = st.generation.saturating_add(1);
                let j = self.jitter(&lease.account, generation);
                apply_rejection(&mut st, &self.tuning.probe_delays, j, retry_after, now, true);
                self.restore(i, k, st, Ghost(old(self)@), Ghost(kv));
                proof {
                    assert(j <= old(self).tuning().jitter_max && self@ == old(self)@.insert(
                        key_view(lease.account),
                        rejected(
                            released(s, now),
                            old(self).tuning().probe_delays@,
                            j,
                            retry_after,
                            now,
                            true,
                        ),
                    ));
                }
            },
            AccountProbeOutcome::Accepted => {
                st.cooldown_until = None;
                st.explicit_retry_after_until = None;
                st.rejection_count = 0;
                st.saturated = false;
                assert(st@ =~= accepted(released(s, now)));
                self.restore(i, k, st, Ghost(old(self)@), Ghost(kv));
            },
            _ => {
                self.restore(i, k, st, Ghost(old(self)@), Ghost(kv));
            },
        }
        Ok(())
    }
}

pub proof fn lemma_take_push<V>(a: Seq<(AccountConcurrencyKey, V)>, i: int)
    requires
        keys_distinct(a),
        0 <= i < a.len(),
    ensures
        keys_distinct(a.take(i)),
        !keyed(a.take(i)).dom().contains(key_view(a[i].0)),
        keys_distinct(a.take(i + 1)),
        keyed(a.take(i + 1)) == keyed(a.take(i)).insert(key_view(a[i].0), a[i].1),
{
    let b = a.take(i);
    assert forall|x: int, y: int|
        0 <= x < b.len() && 0 <= y < b.len() && x != y implies key_view(#[trigger] b[x].0)
        != key_view(#[trigger] b[y].0) by {
        assert(b[x] == a[x] && b[y] == a[y]);
    }
    if has_key(b, key_view(a[i].0)) {
        let j = choose|j: int| 0 <= j < b.len() && key_view(#[trigger] b[j].0) == key_view(a[i].0);
        assert(b[j] == a[j]);
    }
    lemma_keyed_push(b, a[i].0, a[i].1);
    assert(b.push((a[i].0, a[i].1)) =~= a.take(i + 1));
}

/// The pollers whose role has not lapsed at `now`.
pub open spec fn live_pollers(m: Map<KeyView, PollerRecord>, now: u64) -> Map<KeyView, PollerRecord> {
    Map::new(|k: KeyView| m.dom().contains(k) && m[k].expires_at > now, |k: KeyView| m[k])
}

fn live_poller_entries(pollers: &Vec<(AccountConcurrencyKey, PollerRecord)>, now: u64) -> (r: Vec<
    (AccountConcurrencyKey, PollerRecord),
>)
    requires
        keys_distinct(pollers@),
    ensures
        keys_distinct(r@),
        keyed(r@) == live_pollers(keyed(pollers@), now),
{
    let ghost all = pollers@;
    let mut kept: Vec<(AccountConcurrencyKey, PollerRecord)> = Vec::new();
    assert(keyed(kept@) =~= live_pollers(keyed(all.take(0)), now));
    for i in 0..pollers.len()
        invariant
            all == pollers@,
            keys_distinct(all),
            keys_distinct(kept@),
            keyed(kept@) == live_pollers(keyed(all.take(i as int)), now),
    {
        proof {
            lemma_take_push(all, i as int);
        }
        let ghost before = keyed(all.take(i as int));
        let ghost k = key_view(all[i as int].0);
        if pollers[i].1.expires_at > now {
            let entry = (
                copy_key(&pollers[i].0),
                PollerRecord {
                    owner_token: pollers[i].1.owner_token.clone(),
                    expires_at: pollers[i].1.expires_at,
                },
            );
            proof {
                lemma_keyed_push(kept@, entry.0, entry.1);
            }
            kept.push(entry);
            assert(keyed(kept@) =~= live_pollers(keyed(all.take(i + 1)), now));
        } else {
            assert(keyed(kept@) =~= live_pollers(keyed(all.take(i + 1)), now));
        }
    }
    assert(all.take(all.len() as int) == all);
    kept
}

/// Whether an account is kept by idle pruning at `now`: it still cools
/// down, has waiters, a probe or a reading, or was used within the
/// retention.
pub open spec fn retained(s: AccountModel, now: u64, retention: u64) -> bool {
    ||| retry_after_of(s, now) > 0
    ||| s.tickets.len() > 0
    ||| s.probe is Some
    ||| s.observation is Some
    ||| sat_sub(now, s.last_access) <= retention
}

/// The accounts left by idle pruning at `now`, each pruned.
pub open spec fn idle_pruned(m: Map<KeyView, AccountModel>, now: u64, retention: u64) -> Map<
    KeyView,
    AccountModel,
> {
    Map::new(
        |k: KeyView| m.dom().contains(k) && retained(pruned(m[k], now), now, retention),
        |k: KeyView| pruned(m[k], now),
    )
}

impl AccountConcurrencyRegistry {
    /// Claims the status-poller role of `key` for `owner_token` for `ttl`.
    /// Lapsed roles are dropped first; the holder renews, anyone else is
    /// refused while the role is held.
    pub fn acquire_status_poller(
        &mut self,
        key: &AccountConcurrencyKey,
        owner_token: &str,
        ttl: u64,
        now: u64,
    ) -> (r: bool)
        requires
            old(self).wf(),
        ensures
            final(self).wf(),
            final(self)@ == old(self)@,
            final(self).tuning() == old(self).tuning(),
            final(self).origin_unix_seconds() == old(self).origin_unix_seconds(),
            r == (!live_pollers(old(self).pollers(), now).dom().contains(key_view(*key)) || live_pollers(
                old(self).pollers(),
                now,
            )[key_view(*key)].owner_token@ == owner_token@),
            r ==> {
                &&& final(self).pollers().dom().contains(key_view(*key))
                &&& final(self).pollers()[key_view(*key)].owner_token@ == owner_token@
                &&& final(self).pollers()[key_view(*key)].expires_at == sat_add(now, ttl)
                &&& final(self).pollers().remove(key_view(*key)) == live_pollers(
                    old(self).pollers(),
                    now,
                ).remove(key_view(*key))
            },
            !r ==> final(self).pollers() == live_pollers(old(self).pollers(), now),
    {
        let mut live = live_poller_entries(&self.pollers, now);
        let ghost lv = live@;
        let ghost kv = key_view(*key);
        match find_entry(&live, key) {
            Some(i) => {
                proof {
                    lemma_keyed_index(lv, i as int);
                }
                if str_eq(live[i].1.owner_token.as_str(), owner_token) {
                    let (k, mut poller) = live.remove(i);
                    poller.expires_at = now.saturating_add(ttl);
                    proof {
                        lemma_keyed_update(lv, i as int, poller);
                        assert(live@.insert(i as int, (k, poller)) =~= lv.update(
                            i as int,
                            (lv[i as int].0, poller),
                        ));
                    }
                    live.insert(i, (k, poller));
                    self.pollers = live;
                    proof {
                        assert(keyed(self.pollers@).remove(kv) =~= keyed(lv).remove(kv));
                    }
                    true
                } else {
                    self.pollers = live;
                    false
                }
            },
            None => {
                let entry = (
                    copy_key(key),
                    PollerRecord { owner_token: owner_token.to_string(), expires_at: now.saturating_add(ttl) },
                );
                proof {
                    lemma_keyed_push(lv, entry.0, entry.1);
                }
                live.push(entry);
                self.pollers = live;
                proof {
                    assert(keyed(self.pollers@).remove(kv) =~= keyed(lv).remove(kv));
                }
                true
            },
        }
    }
}

fn retained_exec(s: &AccountState, now: u64, retention: u64) -> (r: bool)
    ensures
        r == retained(s@, now, retention),
{
    retry_after_exec(s, now) > 0 || s.tickets.len() > 0 || s.probe.is_some() || s.observation.is_some()
        || now.saturating_sub(s.last_access) <= retention
}

impl AccountConcurrencyRegistry {
    /// Drops lapsed poller roles, prunes every account, and forgets the
    /// accounts that hold nothing and have been idle past the retention.
    /// Returns how many accounts were forgotten.
    pub fn prune_idle(&mut self, now: u64) -> (r: usize)
        requires
            old(self).wf(),
        ensures
            final(self).wf(),
            final(self).tuning() == old(self).tuning(),
            final(self).origin_unix_seconds() == old(self).origin_unix_seconds(),
            final(self).pollers() == live_pollers(old(self).pollers(), now),
            final(self)@ == idle_pruned(old(self)@, now, old(self).tuning().idle_retention),
            r == old(self)@.len() - final(self)@.len(),
    {
        let live = live_poller_entries(&self.pollers, now);
        self.pollers = live;
        let retention = self.tuning.idle_retention;
        let mut rest: Vec<(AccountConcurrencyKey, AccountState)> = Vec::new();
        std::mem::swap(&mut rest, &mut self.accounts);
        let ghost all = rest@;
        let before = rest.len();
        let mut kept: Vec<(AccountConcurrencyKey, AccountState)> = Vec::new();
        let mut n: usize = 0;
        assert(all.skip(0) == all);
        assert(models(kept@) =~= idle_pruned(models(all.take(0)), now, retention));
        while rest.len() > 0
            invariant
                n + rest@.len() == all.len(),
                before == all.len(),
                rest@ == all.skip(n as int),
                keys_distinct(all),
                keys_distinct(kept@),
                models(kept@) == idle_pruned(models(all.take(n as int)), now, retention),
                kept@.len() <= n,
            decreases rest@.len(),
        {
            proof {
                lemma_take_push(all, n as int);
                assert(models(all.take(n + 1)) =~= models(all.take(n as int)).insert(
                    key_view(all[n as int].0),
                    all[n as int].1@,
                ));
            }
            let ghost prev = models(all.take(n as int));
            let ghost kn = key_view(all[n as int].0);
            let (k, mut st) = rest.remove(0);
            assert(rest@ =~= all.skip(n + 1));
            prune_account(&mut st, now);
            if retained_exec(&st, now, retention) {
                proof {
                    assert(models(kept@).dom() =~= keyed(kept@).dom());
                    assert(prev.dom() =~= keyed(all.take(n as int)).dom());
                    assert(!keyed(kept@).dom().contains(kn));
                    lemma_models_push(kept@, k, st);
                }
                kept.push((k, st));
                assert(models(kept@) =~= idle_pruned(models(all.take(n + 1)), now, retention));
            } else {
                assert(models(kept@) =~= idle_pruned(models(all.take(n + 1)), now, retention));
            }
            n = n + 1;
        }
        proof {
            assert(all.take(all.len() as int) == all);
            lemma_keyed_len(all);
            lemma_keyed_len(kept@);
            assert(models(all).dom() =~= keyed(all).dom());
            assert(models(kept@).dom() =~= keyed(kept@).dom());
        }
        let after = kept.len();
        self.accounts = kept;
        before - after
    }
}

/// Only the head of the queue, in the current generation, with no probe in
/// flight and no cooldown running, is granted the probe.
pub proof fn law_probe_only_for_head(s: AccountModel, t: AccountWaitTicket, now: u64, default: u64)
    requires
        probe_verdict(s, t, now, default) == ProbeVerdict::Grant,
    ensures
        ticket_position(s.tickets, t) == Some(0int),
        s.tickets[0].ticket.generation == t.generation,
        s.probe is None,
        retry_after_of(s, now) == 0,
{
}

/// While a granted probe has not lapsed, no ticket is granted another one.
pub proof fn law_single_probe(
    s: AccountModel,
    lease: AccountProbeLease,
    now: u64,
    t: AccountWaitTicket,
    later: u64,
    default: u64,
)
    requires
        later < lease.expires_at_ms,
    ensures
        probe_verdict(pruned(granted(s, lease, now), later), t, later, default) is Wait,
{
}

/// No operation lowers an account's generation; a rejection without a probe
/// in flight, a rejected probe and a lapsed probe raise it (unless it is
/// already at its largest value).
pub proof fn law_generation_monotone(
    s: AccountModel,
    now: u64,
    delays: Seq<u64>,
    jitter: u64,
    retry_after: Option<u64>,
    advance: bool,
    t: AccountWaitTicket,
    lease: AccountProbeLease,
    budget: u64,
    ttl: u64,
    p: int,
    current: u32,
    limit: u32,
    origin: u64,
)
    ensures
        pruned(s, now).generation >= s.generation,
        rejected(s, delays, jitter, retry_after, now, advance).generation >= s.generation,
        advance && s.generation < u64::MAX ==> rejected(
            s,
            delays,
            jitter,
            retry_after,
            now,
            advance,
        ).generation > s.generation,
        (s.probe matches Some(pr) && now >= pr.expires_at) && s.generation < u64::MAX
            ==> pruned(s, now).generation > s.generation,
        enqueued(s, t, now, budget, ttl).generation == s.generation,
        cancelled(s, t, now).generation == s.generation,
        granted(s, lease, now).generation == s.generation,
        renewed_ticket(s, p, now, ttl).generation == s.generation,
        renewed_probe(s, now, ttl).generation == s.generation,
        released(s, now).generation == s.generation,
        accepted(s).generation == s.generation,
        observed(s, current, limit, now, origin, ttl).generation == s.generation,
{
}

/// After an accepted probe the account is no longer saturated and admits
/// the next probe at once: no cooldown remains at any later time.
pub proof fn law_accept_clears_cooldown(s: AccountModel, now: u64, later: u64)
    ensures
        !snapshot_of(pruned(accepted(released(s, now)), later), later).saturated,
        snapshot_of(pruned(accepted(released(s, now)), later), later).retry_after == 0,
        !snapshot_of(pruned(accepted(released(s, now)), later), later).probe_in_flight,
{
}

/// A lease stops being valid once the generation moves on: after its probe
/// is rejected, and after it lapses.
pub proof fn law_stale_lease(
    s: AccountModel,
    lease: AccountProbeLease,
    now: u64,
    delays: Seq<u64>,
    jitter: u64,
    retry_after: Option<u64>,
)
    requires
        s.generation == lease.generation,
        s.generation < u64::MAX,
    ensures
        probe_check(rejected(released(s, now), delays, jitter, retry_after, now, true), lease)
            == Err::<(), AccountLeaseError>(AccountLeaseError::StaleGeneration),
        (s.probe matches Some(pr) && now >= pr.expires_at) ==> probe_check(pruned(s, now), lease)
            == Err::<(), AccountLeaseError>(AccountLeaseError::StaleGeneration),
{
}

/// A rejection at `now` leaves the account saturated and refusing probes
/// for at least the scheduled delay, when the delays are positive and the
/// clock is far from its end.
pub proof fn law_rejection_cools_down(
    s: AccountModel,
    delays: Seq<u64>,
    jitter: u64,
    retry_after: Option<u64>,
    now: u64,
    advance: bool,
)
    requires
        delays.len() > 0,
        forall|i: int| 0 <= i < delays.len() ==> #[trigger] delays[i] > 0,
        now < u64::MAX,
    ensures
        rejected(s, delays, jitter, retry_after, now, advance).saturated,
        retry_after_of(pruned(rejected(s, delays, jitter, retry_after, now, advance), now), now) > 0,
{
    let r = rejected(s, delays, jitter, retry_after, now, advance);
    let index = if s.rejection_count < delays.len() - 1 {
        s.rejection_count as int
    } else {
        delays.len() - 1
    };
    assert(delays[index] > 0);
}

/// A request that registers at `now` while another request waits on the
/// account, and then asks for the probe at once, is told to poll again: it
/// is not granted the probe ahead of the earlier waiter.
pub proof fn law_later_waiter_polls(
    x: AccountModel,
    t: AccountWaitTicket,
    now: u64,
    budget: u64,
    ttl: u64,
    default: u64,
    other: int,
)
    requires
        0 <= other < pruned(x, now).tickets.len(),
        pruned(x, now).tickets[other].ticket.request_id@ != t.request_id@,
        t.generation == pruned(x, now).generation,
        budget > 0,
        ttl > 0,
        now < u64::MAX,
    ensures
        probe_verdict(
            pruned(enqueued(pruned(x, now), t, now, budget, ttl), now),
            t,
            now,
            default,
        ) == ProbeVerdict::Wait(FIFO_POLL_INTERVAL_MS),
{
    broadcast use vstd::seq_lib::group_filter_ensures;

    let s = pruned(x, now);
    let live = |r: TicketRecord| ticket_live(r, now);
    let other_request = |r: TicketRecord| r.ticket.request_id@ != t.request_id@;
    let f = s.tickets.filter(other_request);
    let rec = TicketRecord {
        ticket: t,
        logical_deadline: sat_add(now, budget),
        lease_deadline: sat_add(now, ttl),
    };
    let e = enqueued(s, t, now, budget, ttl);
    assert(e.tickets == f.push(rec));
    let g = f.filter(live);
    assert(f.push(rec).filter(live) == g.push(rec)) by {
        reveal_with_fuel(Seq::filter, 1);
        assert(f.push(rec).drop_last() == f);
    }
    let pe = pruned(e, now);
    assert(pe.tickets == g.push(rec));
    let w = s.tickets[other];
    assert(x.tickets.filter(live).contains(w));
    x.tickets.lemma_filter_contains_rev(live, w);
    assert(ticket_live(w, now));
    assert(f.contains(w));
    let wi = choose|i: int| 0 <= i < f.len() && f[i] == w;
    assert(g.contains(f[wi]));
    assert(g.len() > 0);
    assert forall|j: int| 0 <= j < g.len() implies !same_ticket_identity(
        #[trigger] pe.tickets[j].ticket,
        t,
    ) by {
        assert(pe.tickets[j] == g[j]);
        assert(g.contains(g[j]));
        f.lemma_filter_contains_rev(live, g[j]);
        let fi = choose|i: int| 0 <= i < f.len() && f[i] == g[j];
        assert(other_request(f[fi]));
    }
    lemma_ticket_position(pe.tickets, t, g.len() as int);
    assert(pe.tickets[g.len() as int] == rec);
}

/// While a poller's role has not lapsed, a caller with another token is
/// refused it.
pub proof fn law_poller_exclusive(
    m: Map<KeyView, PollerRecord>,
    k: KeyView,
    holder: Seq<char>,
    other: Seq<char>,
    later: u64,
)
    requires
        m.dom().contains(k),
        m[k].owner_token@ == holder,
        later < m[k].expires_at,
        holder != other,
    ensures
        live_pollers(m, later).dom().contains(k),
        live_pollers(m, later)[k].owner_token@ != other,
{
}

} // verus!
