//! Periodic and targeted rediscovery of the models each upstream key serves:
//! configuration fingerprints, deterministic start-up jitter, and the rule
//! that a model vanishes from a key only after it was found missing twice.
use vstd::prelude::*;
use sha2::Digest;
use vstd::string::StringSliceAdditionalSpecFns;
use crate::config::{key_models_view, ApiKeyModelConfig, KeyModelsView, UpstreamConfig};
use crate::model_discovery::KeyModelDiscoveryResult;
use crate::normalize::{flatten_models, normalized_list, stored_form};
use crate::keyed::{as_map, contains_key, distinct_keys, lemma_as_map_empty, lemma_as_map_index, lemma_as_map_push, lemma_as_map_remove, lemma_as_map_update, lemma_as_map_len};
use crate::text::{blank, chars_of, clone_strings, contains_text, is_blank, owned, push_text, str_eq, views};

verus! {

/// What one synchronisation pass did.
#[derive(Debug, Clone, PartialEq, Eq)]
pub struct ModelKeySyncSummary {
    pub upstreams_scanned: usize,
    pub upstreams_updated: usize,
    pub upstreams_unchanged: usize,
    pub skipped: usize,
    pub keys_succeeded: usize,
    pub keys_failed: usize,
}

impl Default for ModelKeySyncSummary {
    fn default() -> (r: Self)
        ensures
            r.upstreams_scanned == 0 && r.upstreams_updated == 0 && r.upstreams_unchanged == 0,
            r.skipped == 0 && r.keys_succeeded == 0 && r.keys_failed == 0,
    {
        ModelKeySyncSummary {
            upstreams_scanned: 0,
            upstreams_updated: 0,
            upstreams_unchanged: 0,
            skipped: 0,
            keys_succeeded: 0,
            keys_failed: 0,
        }
    }
}

/// Targeted discoveries that may be queued at once.
pub const TARGETED_DISCOVERY_QUEUE_CAPACITY: usize = 256;

/// Milliseconds that must pass between two sightings of a missing model
/// before the second one counts.
pub const MISSING_MODEL_CONFIRMATION_INTERVAL_MS: u64 = 60_000;

/// FNV-1a offset basis and prime (64 bit).
pub const FNV_OFFSET_BASIS: u64 = 0xcbf29ce484222325;

pub const FNV_PRIME: u64 = 0x100000001b3;

/// One FNV-1a step: xor in the byte, multiply modulo 2^64.
pub open spec fn fnv_step(hash: u64, byte: u8) -> u64 {
    (((hash ^ (byte as u64)) as nat * FNV_PRIME as nat) % 0x1_0000_0000_0000_0000) as u64
}

/// The 64-bit FNV-1a hash of `bytes`.
pub open spec fn fnv1a(bytes: Seq<u8>) -> u64
    decreases bytes.len(),
{
    if bytes.len() == 0 {
        FNV_OFFSET_BASIS
    } else {
        fnv_step(fnv1a(bytes.drop_last()), bytes.last())
    }
}

/// `minimum` plus the hash reduced modulo `spread` (at least 1), saturating.
pub open spec fn jitter_seconds(hash: u64, minimum: u64, spread: u64) -> u64 {
    let m: u64 = if spread == 0 { 1 } else { spread };
    let sum = minimum + hash % m;
    if sum > u64::MAX { u64::MAX } else { sum as u64 }
}

/// A delay in seconds drawn deterministically from `seed`: `minimum` plus the
/// FNV-1a hash of its UTF-8 bytes modulo `spread`.
pub fn deterministic_jitter(seed: &str, minimum: u64, spread: u64) -> (r: u64)
    ensures
        r == jitter_seconds(fnv1a(seed.spec_bytes()), minimum, spread),
{
    let bytes = seed.as_bytes();
    let mut hash: u64 = FNV_OFFSET_BASIS;
    let mut i: usize = 0;
    while i < bytes.len()
        invariant
            i <= bytes@.len(),
            bytes@ == seed.spec_bytes(),
            hash == fnv1a(bytes@.take(i as int)),
        decreases bytes@.len() - i,
    {
        assert(bytes@.take(i + 1).drop_last() == bytes@.take(i as int));
        let mixed = hash ^ (bytes[i] as u64);
        hash = mixed.wrapping_mul(FNV_PRIME);
        i = i + 1;
    }
    assert(bytes@.take(bytes@.len() as int) == bytes@);
    let m: u64 = if spread == 0 { 1 } else { spread };
    minimum.saturating_add(hash % m)
}

/// The delay before the first periodic pass of a store at `store_path`:
/// between 30 and 90 seconds.
pub fn startup_delay(store_path: &str) -> (r: u64)
    ensures
        r == jitter_seconds(fnv1a(store_path.spec_bytes()), 30, 61),
        30 <= r < 91,
{
    deterministic_jitter(store_path, 30, 61)
}

/// The SHA-256 digest of a byte string.
pub uninterp spec fn sha256_of(data: Seq<u8>) -> Seq<u8>;

/// sha2: `Sha256::digest` of `data`. Claimed: the 32-byte digest, a function
/// of the bytes alone.
#[verifier::external_body]
fn sha256(data: &[u8]) -> (r: Vec<u8>)
    ensures
        r@ == sha256_of(data@),
        r@.len() == 32,
{
    sha2::Sha256::digest(data).to_vec()
}

/// A nibble as a lowercase hexadecimal digit.
pub open spec fn hex_digit(d: u8) -> char {
    if d < 10 {
        (d + 48) as char
    } else {
        (d + 87) as char
    }
}

/// Two lowercase hexadecimal digits per byte, high nibble first.
pub open spec fn lower_hex(bytes: Seq<u8>) -> Seq<char>
    decreases bytes.len(),
{
    if bytes.len() == 0 {
        Seq::empty()
    } else {
        let b = bytes.last();
        lower_hex(bytes.drop_last()) + seq![hex_digit(b / 16), hex_digit(b % 16)]
    }
}

proof fn lemma_lower_hex_len(bytes: Seq<u8>)
    ensures
        lower_hex(bytes).len() == 2 * bytes.len(),
    decreases bytes.len(),
{
    if bytes.len() > 0 {
        lemma_lower_hex_len(bytes.drop_last());
    }
}

fn hex_digit_exec(d: u8) -> (c: char)
    requires
        d < 16,
    ensures
        c == hex_digit(d),
{
    if d < 10 {
        (d + 48) as char
    } else {
        (d + 87) as char
    }
}

/// `bytes` written as lowercase hexadecimal.
pub fn lower_hex_string(bytes: &[u8]) -> (s: String)
    ensures
        s@ == lower_hex(bytes@),
{
    let mut s = String::new();
    let mut i: usize = 0;
    while i < bytes.len()
        invariant
            i <= bytes@.len(),
            s@ == lower_hex(bytes@.take(i as int)),
        decreases bytes@.len() - i,
    {
        assert(bytes@.take(i + 1).drop_last() == bytes@.take(i as int));
        let b = bytes[i];
        let hi = hex_digit_exec(b / 16);
        let lo = hex_digit_exec(b % 16);
        crate::text::push_char(&mut s, hi);
        crate::text::push_char(&mut s, lo);
        i = i + 1;
    }
    assert(bytes@.take(bytes@.len() as int) == bytes@);
    s
}

/// The route fingerprint of one upstream key: the key-independent route
/// material itself for a blank key fingerprint, else the lowercase hex
/// SHA-256 of the material, a zero byte and the key fingerprint.
pub open spec fn keyed_route_fingerprint_spec(legacy: Seq<char>, legacy_bytes: Seq<u8>, key_fingerprint: Seq<char>, key_bytes: Seq<u8>) -> Seq<char> {
    if is_blank(key_fingerprint) {
        legacy
    } else {
        lower_hex(sha256_of(legacy_bytes.push(0u8) + key_bytes))
    }
}

/// The route fingerprint of one upstream key from the key-independent route
/// material.
pub fn keyed_route_fingerprint(legacy: &str, key_fingerprint: &str) -> (r: String)
    ensures
        r@ == keyed_route_fingerprint_spec(legacy@, legacy.spec_bytes(), key_fingerprint@, key_fingerprint.spec_bytes()),
{
    if blank(key_fingerprint) {
        return owned(legacy);
    }
    let a = legacy.as_bytes();
    let b = key_fingerprint.as_bytes();
    let mut data: Vec<u8> = Vec::new();
    let mut i: usize = 0;
    while i < a.len()
        invariant
            i <= a@.len(),
            data@ == a@.take(i as int),
        decreases a@.len() - i,
    {
        data.push(a[i]);
        i = i + 1;
    }
    assert(a@.take(a@.len() as int) == a@);
    data.push(0u8);
    let ghost prefix = data@;
    let mut j: usize = 0;
    while j < b.len()
        invariant
            j <= b@.len(),
            data@ == prefix + b@.take(j as int),
        decreases b@.len() - j,
    {
        data.push(b[j]);
        j = j + 1;
    }
    assert(b@.take(b@.len() as int) == b@);
    let digest = sha256(data.as_slice());
    lower_hex_string(digest.as_slice())
}

/// The domain separator hashed before the configuration bytes.
pub open spec fn fingerprint_prefix() -> Seq<u8> {
    "chat2responses:model-key-sync:v1".spec_bytes().push(0u8)
}

/// The configuration fingerprint of an upstream whose stable serialisation
/// is `stable`: the lowercase hex SHA-256 of the prefix and those bytes.
pub open spec fn configuration_fingerprint(stable: Seq<u8>) -> Seq<char> {
    lower_hex(sha256_of(fingerprint_prefix() + stable))
}

/// The fingerprint of a configuration from its stable serialisation (see
/// `stabilize_for_fingerprint`): 64 lowercase hexadecimal digits.
pub fn sync_configuration_fingerprint(stable_json: &[u8]) -> (r: String)
    ensures
        r@ == configuration_fingerprint(stable_json@),
        r@.len() == 64,
{
    let tag = "chat2responses:model-key-sync:v1";
    let tag_bytes = tag.as_bytes();
    let mut data: Vec<u8> = Vec::new();
    let mut i: usize = 0;
    while i < tag_bytes.len()
        invariant
            i <= tag_bytes@.len(),
            data@ == tag_bytes@.take(i as int),
        decreases tag_bytes@.len() - i,
    {
        data.push(tag_bytes[i]);
        i = i + 1;
    }
    assert(tag_bytes@.take(tag_bytes@.len() as int) == tag_bytes@);
    data.push(0u8);
    let ghost prefix = data@;
    let mut j: usize = 0;
    while j < stable_json.len()
        invariant
            j <= stable_json@.len(),
            data@ == prefix + stable_json@.take(j as int),
        decreases stable_json@.len() - j,
    {
        data.push(stable_json[j]);
        j = j + 1;
    }
    assert(stable_json@.take(stable_json@.len() as int) == stable_json@);
    let digest = sha256(data.as_slice());
    proof {
        lemma_lower_hex_len(digest@);
    }
    lower_hex_string(digest.as_slice())
}

/// Clears the two fields that change without a change of configuration (the
/// failure count and the last sync time), so that the serialisation of the
/// result fingerprints the configuration itself.
pub fn stabilize_for_fingerprint(upstream: &mut UpstreamConfig)
    ensures
        *final(upstream) == (UpstreamConfig { failure_count: 0, last_synced_at: 0, ..*old(upstream) }),
{
    upstream.failure_count = 0;
    upstream.last_synced_at = 0;
}

/// The seed of an upstream's per-pass delay: its id, a colon, and its
/// configuration fingerprint.
pub open spec fn upstream_delay_seed(id: Seq<char>, fingerprint: Seq<char>) -> Seq<char> {
    id + seq![':'] + fingerprint
}

/// The delay in seconds before an upstream is scanned in a periodic pass,
/// between 1 and 30: drawn from its id and the fingerprint of its stable
/// serialisation `stable_json`.
pub fn upstream_delay(upstream: &UpstreamConfig, stable_json: &[u8]) -> (r: u64)
    ensures
        r == jitter_seconds(
            fnv1a(
                vstd::utf8::encode_utf8(
                    upstream_delay_seed(upstream.id@, configuration_fingerprint(stable_json@)),
                ),
            ),
            1,
            30,
        ),
        1 <= r <= 30,
{
    let fingerprint = sync_configuration_fingerprint(stable_json);
    let mut seed = String::new();
    push_text(&mut seed, upstream.id.as_str());
    push_text(&mut seed, ":");
    push_text(&mut seed, fingerprint.as_str());
    let seed_str = seed.as_str();
    proof {
        reveal_strlit(":");
    }
    let r = deterministic_jitter(seed_str, 1, 30);
    assert(seed_str@ == upstream_delay_seed(upstream.id@, configuration_fingerprint(stable_json@)));
    r
}

/// Which model of which key of which upstream was seen missing: upstream id,
/// key fingerprint, model.
pub type ObservationKey = (Seq<char>, Seq<char>, Seq<char>);

/// What is remembered of a missing model: sightings counted, the clock (ms)
/// of the last counted sighting, and the configuration fingerprint then.
pub type ObservationState = (u8, u64, Seq<char>);

/// One remembered missing model.
#[derive(Clone, Debug)]
pub struct MissingObservation {
    pub upstream_id: String,
    pub key_fingerprint: String,
    pub model: String,
    pub count: u8,
    pub last_successful_missing_at: u64,
    pub configuration_fingerprint: String,
}

pub open spec fn observation_entry(o: MissingObservation) -> (ObservationKey, ObservationState) {
    (
        (o.upstream_id@, o.key_fingerprint@, o.model@),
        (o.count, o.last_successful_missing_at, o.configuration_fingerprint@),
    )
}

pub open spec fn observation_entries(v: Seq<MissingObservation>) -> Seq<(ObservationKey, ObservationState)> {
    v.map_values(|o: MissingObservation| observation_entry(o))
}

/// The state after one more successful discovery found the model of `k`
/// missing under configuration `fingerprint` at `now`: a sighting under the
/// same configuration counts once the confirmation interval has passed since
/// the last counted one; any other sighting starts over at one.
pub open spec fn sighted(
    m: Map<ObservationKey, ObservationState>,
    k: ObservationKey,
    now: u64,
    fingerprint: Seq<char>,
) -> Map<ObservationKey, ObservationState> {
    if m.contains_key(k) && m[k].2 == fingerprint {
        if now >= m[k].1 + MISSING_MODEL_CONFIRMATION_INTERVAL_MS {
            let c: u8 = if m[k].0 == u8::MAX { u8::MAX } else { (m[k].0 + 1) as u8 };
            m.insert(k, (c, now, fingerprint))
        } else {
            m
        }
    } else {
        m.insert(k, (1u8, now, fingerprint))
    }
}

/// Whether a sighting confirms the model gone: two counted sightings.
pub open spec fn confirmed_after(m: Map<ObservationKey, ObservationState>, k: ObservationKey) -> bool {
    m[k].0 >= 2
}

/// Every entry of `upstream_id` recorded under configuration `from` moved to
/// configuration `to`.
pub open spec fn rebound(
    m: Map<ObservationKey, ObservationState>,
    upstream_id: Seq<char>,
    from: Seq<char>,
    to: Seq<char>,
) -> Map<ObservationKey, ObservationState> {
    Map::new(
        |k: ObservationKey| m.contains_key(k),
        |k: ObservationKey|
            if k.0 == upstream_id && m[k].2 == from {
                (m[k].0, m[k].1, to)
            } else {
                m[k]
            },
    )
}

/// Models seen missing from keys, each remembered once.
pub struct MissingObservations {
    entries: Vec<MissingObservation>,
}

impl View for MissingObservations {
    type V = Map<ObservationKey, ObservationState>;

    closed spec fn view(&self) -> Map<ObservationKey, ObservationState> {
        as_map(observation_entries(self.entries@))
    }
}

impl MissingObservations {
    /// Each observation key occurs once.
    pub closed spec fn wf(&self) -> bool {
        distinct_keys(observation_entries(self.entries@))
    }

    pub fn new() -> (r: Self)
        ensures
            r.wf(),
            r@ == Map::<ObservationKey, ObservationState>::empty(),
    {
        let r = MissingObservations { entries: Vec::new() };
        proof {
            lemma_as_map_empty(observation_entries(r.entries@));
        }
        r
    }

    /// How many models are remembered.
    pub fn len(&self) -> (n: usize)
        requires
            self.wf(),
        ensures
            self@.dom().finite(),
            n == self@.dom().len(),
    {
        proof {
            lemma_as_map_len(observation_entries(self.entries@));
        }
        self.entries.len()
    }

    fn position(&self, upstream_id: &str, key_fingerprint: &str, model: &str) -> (r: Option<usize>)
        requires
            self.wf(),
        ensures
            match r {
                Some(i) => i < self.entries@.len() && observation_entries(self.entries@)[i as int].0
                    == (upstream_id@, key_fingerprint@, model@),
                None => !self@.contains_key((upstream_id@, key_fingerprint@, model@)),
            },
    {
        let ghost es = observation_entries(self.entries@);
        let mut i: usize = 0;
        while i < self.entries.len()
            invariant
                i <= self.entries@.len(),
                es == observation_entries(self.entries@),
                forall|j: int| 0 <= j < i ==> (#[trigger] es[j]).0 != (upstream_id@, key_fingerprint@, model@),
            decreases self.entries@.len() - i,
        {
            let e = &self.entries[i];
            if str_eq(e.upstream_id.as_str(), upstream_id) && str_eq(e.key_fingerprint.as_str(), key_fingerprint)
                && str_eq(e.model.as_str(), model) {
                return Some(i);
            }
            i = i + 1;
        }
        proof {
            if contains_key(es, (upstream_id@, key_fingerprint@, model@)) {
                let j = choose|j: int| 0 <= j < es.len() && (#[trigger] es[j]).0 == (upstream_id@, key_fingerprint@, model@);
                assert(es[j].0 != (upstream_id@, key_fingerprint@, model@));
            }
        }
        None
    }

    /// The remembered state of a model, if any: sightings, last counted
    /// sighting, configuration fingerprint.
    pub fn get(&self, upstream_id: &str, key_fingerprint: &str, model: &str) -> (r: Option<(u8, u64, String)>)
        requires
            self.wf(),
        ensures
            match r {
                Some(t) => self@.contains_key((upstream_id@, key_fingerprint@, model@)) && self@[(
                    upstream_id@,
                    key_fingerprint@,
                    model@,
                )] == (t.0, t.1, t.2@),
                None => !self@.contains_key((upstream_id@, key_fingerprint@, model@)),
            },
    {
        match self.position(upstream_id, key_fingerprint, model) {
            Some(i) => {
                proof {
                    lemma_as_map_index(observation_entries(self.entries@), i as int);
                }
                let e = &self.entries[i];
                Some((e.count, e.last_successful_missing_at, e.configuration_fingerprint.clone()))
            },
            None => None,
        }
    }

    /// Forgets a model.
    pub fn forget(&mut self, upstream_id: &str, key_fingerprint: &str, model: &str)
        requires
            old(self).wf(),
        ensures
            final(self).wf(),
            final(self)@ == old(self)@.remove((upstream_id@, key_fingerprint@, model@)),
    {
        match self.position(upstream_id, key_fingerprint, model) {
            Some(i) => {
                let ghost es = observation_entries(self.entries@);
                proof {
                    lemma_as_map_remove(es, i as int);
                }
                self.entries.remove(i);
                assert(observation_entries(self.entries@) == es.remove(i as int));
            },
            None => {
                assert(self@ == self@.remove((upstream_id@, key_fingerprint@, model@)));
            },
        }
    }

    /// Records that a successful discovery at `now` found the model missing
    /// under configuration `configuration_fingerprint`, and says whether it
    /// is now confirmed gone.
    pub fn sight(
        &mut self,
        upstream_id: &str,
        key_fingerprint: &str,
        model: &str,
        now: u64,
        configuration_fingerprint: &str,
    ) -> (confirmed: bool)
        requires
            old(self).wf(),
        ensures
            final(self).wf(),
            final(self)@ == sighted(
                old(self)@,
                (upstream_id@, key_fingerprint@, model@),
                now,
                configuration_fingerprint@,
            ),
            confirmed == confirmed_after(final(self)@, (upstream_id@, key_fingerprint@, model@)),
    {
        let ghost k = (upstream_id@, key_fingerprint@, model@);
        let ghost es = observation_entries(self.entries@);
        match self.position(upstream_id, key_fingerprint, model) {
            Some(i) => {
                proof {
                    lemma_as_map_index(es, i as int);
                }
                let e = &self.entries[i];
                if str_eq(e.configuration_fingerprint.as_str(), configuration_fingerprint) {
                    let count = e.count;
                    let last = e.last_successful_missing_at;
                    if now >= last && now - last >= MISSING_MODEL_CONFIRMATION_INTERVAL_MS {
                        let c: u8 = if count == u8::MAX { u8::MAX } else { count + 1 };
                        let updated = MissingObservation {
                            upstream_id: e.upstream_id.clone(),
                            key_fingerprint: e.key_fingerprint.clone(),
                            model: e.model.clone(),
                            count: c,
                            last_successful_missing_at: now,
                            configuration_fingerprint: e.configuration_fingerprint.clone(),
                        };
                        proof {
                            lemma_as_map_update(es, i as int, (c, now, configuration_fingerprint@));
                        }
                        self.entries.set(i, updated);
                        assert(observation_entries(self.entries@) == es.update(
                            i as int,
                            (es[i as int].0, (c, now, configuration_fingerprint@)),
                        ));
                        c >= 2
                    } else {
                        count >= 2
                    }
                } else {
                    let updated = MissingObservation {
                        upstream_id: e.upstream_id.clone(),
                        key_fingerprint: e.key_fingerprint.clone(),
                        model: e.model.clone(),
                        count: 1,
                        last_successful_missing_at: now,
                        configuration_fingerprint: configuration_fingerprint.to_string(),
                    };
                    proof {
                        lemma_as_map_update(es, i as int, (1u8, now, configuration_fingerprint@));
                    }
                    self.entries.set(i, updated);
                    assert(observation_entries(self.entries@) == es.update(
                        i as int,
                        (es[i as int].0, (1u8, now, configuration_fingerprint@)),
                    ));
                    false
                }
            },
            None => {
                let fresh = MissingObservation {
                    upstream_id: upstream_id.to_string(),
                    key_fingerprint: key_fingerprint.to_string(),
                    model: model.to_string(),
                    count: 1,
                    last_successful_missing_at: now,
                    configuration_fingerprint: configuration_fingerprint.to_string(),
                };
                proof {
                    lemma_as_map_push(es, k, (1u8, now, configuration_fingerprint@));
                }
                self.entries.push(fresh);
                assert(observation_entries(self.entries@) == es.push(
                    (k, (1u8, now, configuration_fingerprint@)),
                ));
                false
            },
        }
    }

    /// Moves the entries of `upstream_id` recorded under configuration
    /// `from` to configuration `to`.
    pub fn rebind_configuration(&mut self, upstream_id: &str, from: &str, to: &str)
        requires
            old(self).wf(),
        ensures
            final(self).wf(),
            final(self)@ == rebound(old(self)@, upstream_id@, from@, to@),
    {
        let ghost es0 = observation_entries(self.entries@);
        let ghost m0 = self@;
        let n = self.entries.len();
        let mut i: usize = 0;
        while i < n
            invariant
                n == self.entries@.len(),
                es0.len() == n,
                0 <= i <= n,
                m0 == as_map(es0),
                distinct_keys(es0),
                forall|j: int| 0 <= j < n ==> (#[trigger] observation_entries(self.entries@)[j]).0 == es0[j].0,
                forall|j: int|
                    0 <= j < n ==> (#[trigger] observation_entries(self.entries@)[j]).1 == if j < i
                        && es0[j].0.0 == upstream_id@ && es0[j].1.2 == from@ {
                        (es0[j].1.0, es0[j].1.1, to@)
                    } else {
                        es0[j].1
                    },
            decreases n - i,
        {
            let ghost before = self.entries@;
            proof {
                assert(observation_entries(before)[i as int].0 == es0[i as int].0);
                assert(observation_entries(before)[i as int].1 == es0[i as int].1);
                assert(observation_entries(before)[i as int] == observation_entry(before[i as int]));
            }
            let e = &self.entries[i];
            if str_eq(e.upstream_id.as_str(), upstream_id) && str_eq(
                e.configuration_fingerprint.as_str(),
                from,
            ) {
                let updated = MissingObservation {
                    upstream_id: e.upstream_id.clone(),
                    key_fingerprint: e.key_fingerprint.clone(),
                    model: e.model.clone(),
                    count: e.count,
                    last_successful_missing_at: e.last_successful_missing_at,
                    configuration_fingerprint: to.to_string(),
                };
                self.entries.set(i, updated);
                assert forall|j: int| 0 <= j < n implies observation_entries(self.entries@)[j]
                    == if j == i {
                    observation_entry(updated)
                } else {
                    observation_entries(before)[j]
                } by {}
            }
            i = i + 1;
        }
        let ghost es = observation_entries(self.entries@);
        assert(distinct_keys(es)) by {
            assert forall|x: int, y: int|
                0 <= x < es.len() && 0 <= y < es.len() && x != y implies (#[trigger] es[x]).0 != (
                #[trigger] es[y]).0 by {
                assert(es0[x].0 != es0[y].0);
            }
        }
        assert forall|k: ObservationKey| #[trigger] contains_key(es, k) == contains_key(es0, k) by {
            if contains_key(es, k) {
                let j = choose|j: int| 0 <= j < es.len() && (#[trigger] es[j]).0 == k;
                assert(es0[j].0 == k);
            }
            if contains_key(es0, k) {
                let j = choose|j: int| 0 <= j < es0.len() && (#[trigger] es0[j]).0 == k;
                assert(es[j].0 == k);
            }
        }
        assert forall|k: ObservationKey| #[trigger] as_map(es).contains_key(k) implies as_map(es)[k]
            == rebound(m0, upstream_id@, from@, to@)[k] by {
            let j = choose|j: int| 0 <= j < es.len() && (#[trigger] es[j]).0 == k;
            lemma_as_map_index(es, j);
            lemma_as_map_index(es0, j);
        }
        assert(as_map(es) =~= rebound(m0, upstream_id@, from@, to@));
    }
}

/// Whether `(upstream_id, key_fingerprint)` is one of `valid`.
pub open spec fn pair_listed(
    valid: Seq<(String, String)>,
    upstream_id: Seq<char>,
    key_fingerprint: Seq<char>,
) -> bool {
    exists|i: int| 0 <= i < valid.len() && (#[trigger] valid[i]).0@ == upstream_id && valid[i].1@ == key_fingerprint
}

fn pair_listed_exec(valid: &Vec<(String, String)>, upstream_id: &str, key_fingerprint: &str) -> (r: bool)
    ensures
        r == pair_listed(valid@, upstream_id@, key_fingerprint@),
{
    let mut i: usize = 0;
    while i < valid.len()
        invariant
            i <= valid@.len(),
            forall|j: int| 0 <= j < i ==> !((#[trigger] valid@[j]).0@ == upstream_id@ && valid@[j].1@ == key_fingerprint@),
        decreases valid@.len() - i,
    {
        if str_eq(valid[i].0.as_str(), upstream_id) && str_eq(valid[i].1.as_str(), key_fingerprint) {
            return true;
        }
        i = i + 1;
    }
    false
}

fn copy_observation(o: &MissingObservation) -> (r: MissingObservation)
    ensures
        observation_entry(r) == observation_entry(*o),
{
    MissingObservation {
        upstream_id: o.upstream_id.clone(),
        key_fingerprint: o.key_fingerprint.clone(),
        model: o.model.clone(),
        count: o.count,
        last_successful_missing_at: o.last_successful_missing_at,
        configuration_fingerprint: o.configuration_fingerprint.clone(),
    }
}

impl MissingObservations {
    /// Keeps only the models of keys that still exist: those whose upstream
    /// and key fingerprint are listed in `valid`.
    pub fn retain_keys(&mut self, valid: &Vec<(String, String)>)
        requires
            old(self).wf(),
        ensures
            final(self).wf(),
            final(self)@ == old(self)@.restrict(
                Set::new(|k: ObservationKey| pair_listed(valid@, k.0, k.1)),
            ),
    {
        let ghost es0 = observation_entries(self.entries@);
        let ghost keep = Set::new(|k: ObservationKey| pair_listed(valid@, k.0, k.1));
        let mut kept: Vec<MissingObservation> = Vec::new();
        let n = self.entries.len();
        proof {
            lemma_as_map_empty(observation_entries(kept@));
            assert(as_map(es0.take(0)) =~= Map::<ObservationKey, ObservationState>::empty());
        }
        for i in 0..n
            invariant
                n == self.entries@.len(),
                es0 == observation_entries(self.entries@),
                keep == Set::new(|k: ObservationKey| pair_listed(valid@, k.0, k.1)),
                distinct_keys(es0),
                distinct_keys(observation_entries(kept@)),
                forall|q: ObservationKey| #[trigger] contains_key(observation_entries(kept@), q) ==> exists|j: int| 0 <= j < i && es0[j].0 == q,
                as_map(observation_entries(kept@)) == as_map(es0.take(i as int)).restrict(keep),
        {
            let ghost before = observation_entries(kept@);
            let ghost k = es0[i as int].0;
            let ghost t = es0.take(i as int);
            proof {
                assert(es0.take(i + 1) == t.push(es0[i as int]));
                assert(!contains_key(t, k)) by {
                    if contains_key(t, k) {
                        let j = choose|j: int| 0 <= j < t.len() && (#[trigger] t[j]).0 == k;
                        assert(es0[j].0 == k);
                    }
                }
                assert(distinct_keys(t)) by {
                    assert forall|x: int, y: int|
                        0 <= x < t.len() && 0 <= y < t.len() && x != y implies (#[trigger] t[x]).0 != (
                        #[trigger] t[y]).0 by {
                        assert(t[x] == es0[x] && t[y] == es0[y]);
                    }
                }
                lemma_as_map_push(t, k, es0[i as int].1);
            }
            let e = &self.entries[i];
            assert(es0[i as int] == observation_entry(self.entries@[i as int]));
            if pair_listed_exec(valid, e.upstream_id.as_str(), e.key_fingerprint.as_str()) {
                proof {
                    assert(!contains_key(before, k)) by {
                        if contains_key(before, k) {
                            let j = choose|j: int| 0 <= j < i && es0[j].0 == k;
                            assert(es0[j].0 != es0[i as int].0);
                        }
                    }
                    lemma_as_map_push(before, k, es0[i as int].1);
                }
                kept.push(copy_observation(e));
                proof {
                    assert(observation_entries(kept@) == before.push(es0[i as int]));
                    assert forall|q: ObservationKey| #[trigger] contains_key(observation_entries(kept@), q) implies exists|j: int| 0 <= j < i + 1 && es0[j].0 == q by {
                        if q == k {
                            assert(es0[i as int].0 == q);
                        } else {
                            let j = choose|j: int| 0 <= j < kept@.len() && (#[trigger] observation_entries(kept@)[j]).0 == q;
                            assert(observation_entries(kept@)[j] == before[j]);
                            assert(contains_key(before, q));
                        }
                    }
                    assert(as_map(observation_entries(kept@)) =~= as_map(es0.take(i + 1)).restrict(keep));
                }
            } else {
                proof {
                    assert(!keep.contains(k));
                    assert(as_map(observation_entries(kept@)) =~= as_map(es0.take(i + 1)).restrict(keep));
                }
            }
        }
        proof {
            assert(es0.take(n as int) == es0);
        }
        self.entries = kept;
    }
}

/// The keys with a targeted discovery queued: (upstream id, key fingerprint).
pub type PendingKey = (Seq<char>, Seq<char>);

pub open spec fn pending_entries(v: Seq<(String, String)>) -> Seq<(PendingKey, ())> {
    v.map_values(|p: (String, String)| ((p.0@, p.1@), ()))
}

/// The keys with a targeted discovery queued or running, at most
/// `TARGETED_DISCOVERY_QUEUE_CAPACITY` of them.
pub struct TargetedPending {
    keys: Vec<(String, String)>,
}

impl View for TargetedPending {
    type V = Set<PendingKey>;

    closed spec fn view(&self) -> Set<PendingKey> {
        as_map(pending_entries(self.keys@)).dom()
    }
}

impl TargetedPending {
    /// Each key occurs once.
    pub closed spec fn wf(&self) -> bool {
        distinct_keys(pending_entries(self.keys@))
    }

    pub fn new() -> (r: Self)
        ensures
            r.wf(),
            r@ == Set::<PendingKey>::empty(),
    {
        let r = TargetedPending { keys: Vec::new() };
        proof {
            lemma_as_map_empty(pending_entries(r.keys@));
        }
        r
    }

    /// How many keys are pending.
    pub fn len(&self) -> (n: usize)
        requires
            self.wf(),
        ensures
            self@.finite(),
            n == self@.len(),
    {
        proof {
            lemma_as_map_len(pending_entries(self.keys@));
        }
        self.keys.len()
    }

    fn position(&self, upstream_id: &str, key_fingerprint: &str) -> (r: Option<usize>)
        requires
            self.wf(),
        ensures
            match r {
                Some(i) => i < self.keys@.len() && pending_entries(self.keys@)[i as int].0 == (
                    upstream_id@,
                    key_fingerprint@,
                ),
                None => !self@.contains((upstream_id@, key_fingerprint@)),
            },
    {
        let ghost es = pending_entries(self.keys@);
        let mut i: usize = 0;
        while i < self.keys.len()
            invariant
                i <= self.keys@.len(),
                es == pending_entries(self.keys@),
                forall|j: int| 0 <= j < i ==> (#[trigger] es[j]).0 != (upstream_id@, key_fingerprint@),
            decreases self.keys@.len() - i,
        {
            if str_eq(self.keys[i].0.as_str(), upstream_id) && str_eq(self.keys[i].1.as_str(), key_fingerprint) {
                return Some(i);
            }
            i = i + 1;
        }
        proof {
            if contains_key(es, (upstream_id@, key_fingerprint@)) {
                let j = choose|j: int| 0 <= j < es.len() && (#[trigger] es[j]).0 == (upstream_id@, key_fingerprint@);
                assert(es[j].0 != (upstream_id@, key_fingerprint@));
            }
        }
        None
    }

    /// Whether a discovery for the key is pending.
    pub fn contains(&self, upstream_id: &str, key_fingerprint: &str) -> (r: bool)
        requires
            self.wf(),
        ensures
            r == self@.contains((upstream_id@, key_fingerprint@)),
    {
        match self.position(upstream_id, key_fingerprint) {
            Some(i) => {
                proof {
                    lemma_as_map_index(pending_entries(self.keys@), i as int);
                }
                true
            },
            None => false,
        }
    }

    /// Takes a key in, unless the queue is full or the key is already
    /// pending; says whether it was taken in.
    pub fn try_enqueue(&mut self, upstream_id: &str, key_fingerprint: &str) -> (admitted: bool)
        requires
            old(self).wf(),
        ensures
            final(self).wf(),
            old(self)@.finite(),
            admitted == (old(self)@.len() < TARGETED_DISCOVERY_QUEUE_CAPACITY && !old(self)@.contains(
                (upstream_id@, key_fingerprint@),
            )),
            final(self)@ == if admitted {
                old(self)@.insert((upstream_id@, key_fingerprint@))
            } else {
                old(self)@
            },
    {
        let n = self.len();
        if n >= TARGETED_DISCOVERY_QUEUE_CAPACITY {
            return false;
        }
        if self.contains(upstream_id, key_fingerprint) {
            return false;
        }
        let ghost es = pending_entries(self.keys@);
        proof {
            lemma_as_map_push(es, (upstream_id@, key_fingerprint@), ());
        }
        self.keys.push((upstream_id.to_string(), key_fingerprint.to_string()));
        assert(pending_entries(self.keys@) == es.push(((upstream_id@, key_fingerprint@), ())));
        assert(self@ =~= as_map(es).insert((upstream_id@, key_fingerprint@), ()).dom());
        true
    }

    /// Lets a key go.
    pub fn release(&mut self, upstream_id: &str, key_fingerprint: &str)
        requires
            old(self).wf(),
        ensures
            final(self).wf(),
            final(self)@ == old(self)@.remove((upstream_id@, key_fingerprint@)),
    {
        match self.position(upstream_id, key_fingerprint) {
            Some(i) => {
                let ghost es = pending_entries(self.keys@);
                proof {
                    lemma_as_map_remove(es, i as int);
                }
                self.keys.remove(i);
                assert(pending_entries(self.keys@) == es.remove(i as int));
                assert(self@ =~= as_map(es).remove(es[i as int].0).dom());
            },
            None => {
                assert(self@ =~= self@.remove((upstream_id@, key_fingerprint@)));
            },
        }
    }

    /// Lets every key go.
    pub fn clear(&mut self)
        ensures
            final(self).wf(),
            final(self)@ == Set::<PendingKey>::empty(),
    {
        self.keys = Vec::new();
        proof {
            lemma_as_map_empty(pending_entries(self.keys@));
        }
    }

    /// Keeps only the keys listed in `valid`.
    pub fn retain_valid(&mut self, valid: &Vec<(String, String)>)
        requires
            old(self).wf(),
        ensures
            final(self).wf(),
            final(self)@ == old(self)@.filter(|k: PendingKey| pair_listed(valid@, k.0, k.1)),
    {
        let ghost es0 = pending_entries(self.keys@);
        let mut kept: Vec<(String, String)> = Vec::new();
        let n = self.keys.len();
        proof {
            lemma_as_map_empty(pending_entries(kept@));
        }
        for i in 0..n
            invariant
                n == self.keys@.len(),
                es0 == pending_entries(self.keys@),
                distinct_keys(es0),
                distinct_keys(pending_entries(kept@)),
                forall|q: PendingKey| #[trigger] contains_key(pending_entries(kept@), q) <==> (exists|x: int| 0 <= x < i && es0[x].0 == q) && pair_listed(valid@, q.0, q.1),
        {
            let ghost before = pending_entries(kept@);
            let ghost k = es0[i as int].0;
            assert(k == (self.keys@[i as int].0@, self.keys@[i as int].1@));
            if pair_listed_exec(valid, self.keys[i].0.as_str(), self.keys[i].1.as_str()) {
                proof {
                    assert(!contains_key(before, k)) by {
                        if contains_key(before, k) {
                            let x = choose|x: int| 0 <= x < i && es0[x].0 == k;
                            assert(es0[x].0 != es0[i as int].0);
                        }
                    }
                    lemma_as_map_push(before, k, ());
                }
                let p = (self.keys[i].0.clone(), self.keys[i].1.clone());
                kept.push(p);
                proof {
                    assert(pending_entries(kept@) == before.push((k, ())));
                    assert forall|q: PendingKey| #[trigger] contains_key(pending_entries(kept@), q) <==> (exists|x: int| 0 <= x < i + 1 && es0[x].0 == q) && pair_listed(valid@, q.0, q.1) by {
                        if contains_key(pending_entries(kept@), q) {
                            let j = choose|j: int| 0 <= j < kept@.len() && (#[trigger] pending_entries(kept@)[j]).0 == q;
                            if j < before.len() {
                                assert(pending_entries(kept@)[j] == before[j]);
                                assert(contains_key(before, q));
                            }
                        }
                        if (exists|x: int| 0 <= x < i + 1 && es0[x].0 == q) && pair_listed(valid@, q.0, q.1) {
                            if q == k {
                                assert(pending_entries(kept@)[before.len() as int].0 == q);
                            } else {
                                let x = choose|x: int| 0 <= x < i + 1 && es0[x].0 == q;
                                assert(x < i);
                                assert(contains_key(before, q));
                                let j = choose|j: int| 0 <= j < before.len() && (#[trigger] before[j]).0 == q;
                                assert(pending_entries(kept@)[j] == before[j]);
                            }
                        }
                    }
                }
            } else {
                proof {
                    assert forall|q: PendingKey| #[trigger] contains_key(pending_entries(kept@), q) <==> (exists|x: int| 0 <= x < i + 1 && es0[x].0 == q) && pair_listed(valid@, q.0, q.1) by {
                        if (exists|x: int| 0 <= x < i + 1 && es0[x].0 == q) && pair_listed(valid@, q.0, q.1) {
                            let x = choose|x: int| 0 <= x < i + 1 && es0[x].0 == q;
                            if x == i {
                                assert(es0[i as int].0 == (self.keys@[i as int].0@, self.keys@[i as int].1@));
                            }
                        }
                    }
                }
            }
        }
        proof {
            let m = pending_entries(kept@);
            assert forall|q: PendingKey| as_map(m).dom().contains(q) == old(self)@.filter(|k: PendingKey| pair_listed(valid@, k.0, k.1)).contains(q) by {
                if contains_key(es0, q) {
                    let x = choose|x: int| 0 <= x < es0.len() && (#[trigger] es0[x]).0 == q;
                    assert(0 <= x < n && es0[x].0 == q);
                }
                if exists|x: int| 0 <= x < n && es0[x].0 == q {
                    let x = choose|x: int| 0 <= x < n && es0[x].0 == q;
                    assert(es0[x].0 == q);
                    assert(contains_key(es0, q));
                }
            }
            assert(as_map(m).dom() =~= old(self)@.filter(|k: PendingKey| pair_listed(valid@, k.0, k.1)));
        }
        self.keys = kept;
    }
}

/// How many discoveries succeeded.
pub open spec fn successful_count(rs: Seq<KeyModelDiscoveryResult>) -> nat
    decreases rs.len(),
{
    if rs.len() == 0 {
        0
    } else {
        successful_count(rs.drop_last()) + if rs.last().error is None {
            1nat
        } else {
            0nat
        }
    }
}

/// The position of the last discovery for key `i`.
pub open spec fn last_result(rs: Seq<KeyModelDiscoveryResult>, i: int) -> Option<int>
    decreases rs.len(),
{
    if rs.len() == 0 {
        None
    } else if rs.last().key_index == i {
        Some(rs.len() - 1)
    } else {
        last_result(rs.drop_last(), i)
    }
}

/// The models the last discovery for key `i` found, when it succeeded.
pub open spec fn discovered_for(rs: Seq<KeyModelDiscoveryResult>, i: int) -> Option<Seq<Seq<char>>> {
    match last_result(rs, i) {
        Some(j) => if rs[j].error is None {
            Some(views(rs[j].models@))
        } else {
            None
        },
        None => None,
    }
}

/// The model list of the last per-key entry for exactly `key`; empty when
/// there is none.
pub open spec fn existing_models(es: Seq<KeyModelsView>, key: Seq<char>) -> Seq<Seq<char>>
    decreases es.len(),
{
    if es.len() == 0 {
        Seq::empty()
    } else if es.last().0 == key {
        es.last().1
    } else {
        existing_models(es.drop_last(), key)
    }
}

/// `m` without the observations of models in `models` for key `f` of
/// upstream `u`.
pub open spec fn cleared(
    m: Map<ObservationKey, ObservationState>,
    u: Seq<char>,
    f: Seq<char>,
    models: Seq<Seq<char>>,
) -> Map<ObservationKey, ObservationState> {
    m.remove_keys(Set::new(|k: ObservationKey| k.0 == u && k.1 == f && models.contains(k.2)))
}

/// The previously listed models of key `f` taken in order against a
/// successful discovery `discovered`: those still discovered are left to the
/// discovery; each other one is sighted missing, and dropped (its
/// observation forgotten) once confirmed, else kept. Gives the observations
/// after and the models kept.
pub open spec fn reconcile_missing(
    m: Map<ObservationKey, ObservationState>,
    u: Seq<char>,
    f: Seq<char>,
    discovered: Seq<Seq<char>>,
    previous: Seq<Seq<char>>,
    now: u64,
    fingerprint: Seq<char>,
) -> (Map<ObservationKey, ObservationState>, Seq<Seq<char>>)
    decreases previous.len(),
{
    if previous.len() == 0 {
        (m, Seq::empty())
    } else {
        let (m1, kept) = reconcile_missing(m, u, f, discovered, previous.drop_last(), now, fingerprint);
        let x = previous.last();
        if discovered.contains(x) {
            (m1, kept)
        } else {
            let m2 = sighted(m1, (u, f, x), now, fingerprint);
            if confirmed_after(m2, (u, f, x)) {
                (m2.remove((u, f, x)), kept)
            } else {
                (m2, kept.push(x))
            }
        }
    }
}

/// The new model list of one key and the observations after it: without a
/// successful discovery the previous list; with one, the discovered models
/// followed by the previous ones not yet confirmed gone.
pub open spec fn key_outcome(
    m: Map<ObservationKey, ObservationState>,
    u: Seq<char>,
    f: Seq<char>,
    previous: Seq<Seq<char>>,
    discovered: Option<Seq<Seq<char>>>,
    now: u64,
    fingerprint: Seq<char>,
) -> (Map<ObservationKey, ObservationState>, Seq<Seq<char>>) {
    match discovered {
        None => (m, previous),
        Some(d) => {
            let r = reconcile_missing(cleared(m, u, f, d), u, f, d, previous, now, fingerprint);
            (r.0, d + r.1)
        },
    }
}

/// Every key taken in order: the per-key entries built and the observations
/// after them.
pub open spec fn discovery_outcome(
    m: Map<ObservationKey, ObservationState>,
    u: Seq<char>,
    keys: Seq<Seq<char>>,
    fingerprints: Seq<Seq<char>>,
    existing: Seq<KeyModelsView>,
    results: Seq<KeyModelDiscoveryResult>,
    now: u64,
    fingerprint: Seq<char>,
) -> (Map<ObservationKey, ObservationState>, Seq<KeyModelsView>)
    decreases keys.len(),
{
    if keys.len() == 0 {
        (m, Seq::empty())
    } else {
        let n = keys.len() - 1;
        let (m1, entries) = discovery_outcome(
            m,
            u,
            keys.drop_last(),
            fingerprints,
            existing,
            results,
            now,
            fingerprint,
        );
        let (m2, models) = key_outcome(
            m1,
            u,
            fingerprints[n],
            existing_models(existing, keys[n]),
            discovered_for(results, n),
            now,
            fingerprint,
        );
        (m2, entries.push((keys[n], models)))
    }
}

/// Whether a discovery pass changes an upstream: some key was discovered,
/// and, when the upstream has no per-key lists yet, every key was.
pub open spec fn discovery_applies(upstream: UpstreamConfig, results: Seq<KeyModelDiscoveryResult>) -> bool {
    &&& successful_count(results) > 0
    &&& (upstream.api_key_models@.len() == 0 ==> successful_count(results) == upstream.available_keys_spec().len())
}

/// `staged` is `old` with the per-key entries `entries`, the supported
/// models derived from them, and the sync time `synced_at`.
pub open spec fn staged_with(
    old: UpstreamConfig,
    staged: UpstreamConfig,
    entries: Seq<KeyModelsView>,
    synced_at: u64,
) -> bool {
    &&& key_models_view(staged.api_key_models@) == entries
    &&& views(staged.supported_models@) == normalized_list(flatten_models(entries))
    &&& staged == (UpstreamConfig {
        api_key_models: staged.api_key_models,
        supported_models: staged.supported_models,
        last_synced_at: synced_at,
        ..old
    })
}

fn count_successful(results: &Vec<KeyModelDiscoveryResult>) -> (n: usize)
    ensures
        n == successful_count(results@),
{
    let mut n: usize = 0;
    for i in 0..results.len()
        invariant
            n == successful_count(results@.take(i as int)),
            n <= i,
    {
        assert(results@.take(i + 1).drop_last() == results@.take(i as int));
        if results[i].error.is_none() {
            n = n + 1;
        }
    }
    assert(results@.take(results@.len() as int) == results@);
    n
}

fn last_result_exec(results: &Vec<KeyModelDiscoveryResult>, key_index: usize) -> (r: Option<usize>)
    ensures
        match r {
            Some(j) => j < results@.len() && last_result(results@, key_index as int) == Some(j as int),
            None => last_result(results@, key_index as int) is None,
        },
{
    let mut found: Option<usize> = None;
    for i in 0..results.len()
        invariant
            match found {
                Some(j) => j < i && last_result(results@.take(i as int), key_index as int) == Some(j as int),
                None => last_result(results@.take(i as int), key_index as int) is None,
            },
    {
        assert(results@.take(i + 1).drop_last() == results@.take(i as int));
        if results[i].key_index == key_index {
            found = Some(i);
        }
    }
    assert(results@.take(results@.len() as int) == results@);
    found
}

fn existing_models_exec(entries: &Vec<ApiKeyModelConfig>, key: &str) -> (r: Vec<String>)
    ensures
        views(r@) == existing_models(key_models_view(entries@), key@),
{
    let ghost es = key_models_view(entries@);
    let mut found: Vec<String> = Vec::new();
    for i in 0..entries.len()
        invariant
            es == key_models_view(entries@),
            views(found@) == existing_models(es.take(i as int), key@),
    {
        assert(es.take(i + 1).drop_last() == es.take(i as int));
        assert(es[i as int] == (entries@[i as int].api_key@, views(entries@[i as int].supported_models@)));
        if str_eq(entries[i].api_key.as_str(), key) {
            found = clone_strings(&entries[i].supported_models);
        }
    }
    proof {
        assert(es.take(es.len() as int) == es);
        assert(views(Seq::<String>::empty()) =~= Seq::<Seq<char>>::empty());
    }
    found
}

impl MissingObservations {
    /// Forgets the observations of the models in `models` for one key.
    fn forget_all(&mut self, upstream_id: &str, key_fingerprint: &str, models: &Vec<String>)
        requires
            old(self).wf(),
        ensures
            final(self).wf(),
            final(self)@ == cleared(old(self)@, upstream_id@, key_fingerprint@, views(models@)),
    {
        let ghost m0 = self@;
        for j in 0..models.len()
            invariant
                self.wf(),
                self@ == cleared(m0, upstream_id@, key_fingerprint@, views(models@).take(j as int)),
        {
            let ghost before = self@;
            self.forget(upstream_id, key_fingerprint, models[j].as_str());
            proof {
                let d = views(models@);
                let t0 = d.take(j as int);
                let t1 = d.take(j + 1);
                assert(d[j as int] == models@[j as int]@);
                assert forall|x: Seq<char>| #[trigger] t1.contains(x) == (t0.contains(x) || x == d[j as int]) by {
                    if t1.contains(x) {
                        let idx = choose|idx: int| 0 <= idx < t1.len() && t1[idx] == x;
                        if idx < j {
                            assert(t0[idx] == x);
                        }
                    }
                    if t0.contains(x) {
                        let idx = choose|idx: int| 0 <= idx < t0.len() && t0[idx] == x;
                        assert(t1[idx] == x);
                    }
                    if x == d[j as int] {
                        assert(t1[j as int] == x);
                    }
                }
                assert(self@ =~= cleared(m0, upstream_id@, key_fingerprint@, t1));
            }
        }
        proof {
            assert(views(models@).take(models@.len() as int) == views(models@));
        }
    }
}

/// Takes the previous models of one key against a successful discovery (see
/// `reconcile_missing`) and gives the key's new model list.
fn reconcile_key(
    missing: &mut MissingObservations,
    upstream_id: &str,
    key_fingerprint: &str,
    discovered: &Vec<String>,
    previous: &Vec<String>,
    now: u64,
    configuration_fingerprint: &str,
) -> (models: Vec<String>)
    requires
        old(missing).wf(),
    ensures
        final(missing).wf(),
        (final(missing)@, views(models@)) == key_outcome(
            old(missing)@,
            upstream_id@,
            key_fingerprint@,
            views(previous@),
            Some(views(discovered@)),
            now,
            configuration_fingerprint@,
        ),
{
    let ghost d = views(discovered@);
    let ghost pv = views(previous@);
    missing.forget_all(upstream_id, key_fingerprint, discovered);
    let ghost m1 = missing@;
    let mut kept: Vec<String> = Vec::new();
    for j in 0..previous.len()
        invariant
            missing.wf(),
            d == views(discovered@),
            pv == views(previous@),
            (missing@, views(kept@)) == reconcile_missing(
                m1,
                upstream_id@,
                key_fingerprint@,
                d,
                pv.take(j as int),
                now,
                configuration_fingerprint@,
            ),
    {
        assert(pv.take(j + 1).drop_last() == pv.take(j as int));
        assert(pv[j as int] == previous@[j as int]@);
        let x = &previous[j];
        if !contains_text(discovered, &chars_of(x.as_str())) {
            let confirmed = missing.sight(upstream_id, key_fingerprint, x.as_str(), now, configuration_fingerprint);
            if confirmed {
                missing.forget(upstream_id, key_fingerprint, x.as_str());
            } else {
                let ghost before = kept@;
                kept.push(x.clone());
                assert(views(kept@) == views(before).push(x@));
            }
        }
    }
    proof {
        assert(pv.take(pv.len() as int) == pv);
    }
    let mut models = clone_strings(discovered);
    let ghost mv = views(models@);
    for j in 0..kept.len()
        invariant
            views(models@) == mv + views(kept@).take(j as int),
    {
        let ghost before = models@;
        models.push(kept[j].clone());
        assert(views(models@) == views(before).push(kept@[j as int]@));
        assert(views(kept@).take(j + 1) == views(kept@).take(j as int).push(kept@[j as int]@));
    }
    assert(views(kept@).take(kept@.len() as int) == views(kept@));
    models
}

/// Folds a discovery pass into an upstream (see `discovery_outcome`): each
/// current key, in order, gets the models its last successful discovery
/// found plus the previously listed ones not yet confirmed gone, or keeps its
/// previous list; the supported models are derived from the new lists, the
/// sync time set, and the configuration put in its stored form. Nothing
/// changes, and `false` comes back, when no discovery succeeded, or when the
/// upstream has no per-key lists and some key was not discovered.
/// `key_fingerprints` are the fingerprints of the upstream's current keys,
/// in order; `configuration_fingerprint` is that of the configuration the
/// discovery ran against.
pub fn apply_discovery(
    upstream: &mut UpstreamConfig,
    key_fingerprints: &Vec<String>,
    configuration_fingerprint: &str,
    results: &Vec<KeyModelDiscoveryResult>,
    synced_at: u64,
    now: u64,
    missing: &mut MissingObservations,
) -> (applied: bool)
    requires
        old(missing).wf(),
        key_fingerprints@.len() == old(upstream).available_keys_spec().len(),
    ensures
        final(missing).wf(),
        applied == discovery_applies(*old(upstream), results@),
        !applied ==> *final(upstream) == *old(upstream) && final(missing)@ == old(missing)@,
        applied ==> {
            let out = discovery_outcome(
                old(missing)@,
                old(upstream).id@,
                old(upstream).available_keys_spec(),
                views(key_fingerprints@),
                key_models_view(old(upstream).api_key_models@),
                results@,
                now,
                configuration_fingerprint@,
            );
            &&& final(missing)@ == out.0
            &&& exists|staged: UpstreamConfig|
                staged_with(*old(upstream), staged, out.1, synced_at) && stored_form(
                    staged,
                    *final(upstream),
                )
        },
{
    let successful = count_successful(results);
    if successful == 0 {
        return false;
    }
    let keys = upstream.available_keys();
    if upstream.api_key_models.len() == 0 && successful != keys.len() {
        return false;
    }
    let ghost kv = views(keys@);
    let ghost fv = views(key_fingerprints@);
    let ghost existing = key_models_view(upstream.api_key_models@);
    let ghost m0 = missing@;
    let ghost u = upstream.id@;
    let mut mappings: Vec<ApiKeyModelConfig> = Vec::new();
    for i in 0..keys.len()
        invariant
            missing.wf(),
            kv == views(keys@),
            kv == upstream.available_keys_spec(),
            fv == views(key_fingerprints@),
            fv.len() == kv.len(),
            existing == key_models_view(upstream.api_key_models@),
            u == upstream.id@,
            (missing@, key_models_view(mappings@)) == discovery_outcome(
                m0,
                u,
                kv.take(i as int),
                fv,
                existing,
                results@,
                now,
                configuration_fingerprint@,
            ),
    {
        assert(kv.take(i + 1).drop_last() == kv.take(i as int));
        assert(kv.take(i + 1)[i as int] == kv[i as int]);
        assert(kv[i as int] == keys@[i as int]@);
        assert(fv[i as int] == key_fingerprints@[i as int]@);
        let ghost missing_before = missing@;
        let previous = existing_models_exec(&upstream.api_key_models, keys[i].as_str());
        let ghost prev_view = existing_models(existing, kv[i as int]);
        assert(views(previous@) == prev_view);
        let models = match last_result_exec(results, i) {
            Some(j) => {
                if results[j].error.is_none() {
                    assert(discovered_for(results@, i as int) == Some(views(results@[j as int].models@)));
                    reconcile_key(
                        missing,
                        upstream.id.as_str(),
                        key_fingerprints[i].as_str(),
                        &results[j].models,
                        &previous,
                        now,
                        configuration_fingerprint,
                    )
                } else {
                    assert(discovered_for(results@, i as int) is None);
                    previous
                }
            },
            None => {
                assert(discovered_for(results@, i as int) is None);
                previous
            },
        };
        let ghost before = key_models_view(mappings@);
        let entry = ApiKeyModelConfig { api_key: keys[i].clone(), supported_models: models };
        mappings.push(entry);
        assert(key_models_view(mappings@) == before.push((kv[i as int], views(entry.supported_models@))));
        proof {
            let ko = key_outcome(
                missing_before,
                u,
                fv[i as int],
                existing_models(existing, kv[i as int]),
                discovered_for(results@, i as int),
                now,
                configuration_fingerprint@,
            );
            assert(missing@ == ko.0);
            assert(views(entry.supported_models@) == ko.1);
        }
    }
    assert(kv.take(kv.len() as int) == kv);
    upstream.api_key_models = mappings;
    upstream.supported_models = crate::normalize::derive_supported_models(&upstream.api_key_models);
    upstream.last_synced_at = synced_at;
    let ghost staged = *upstream;
    upstream.normalize_for_storage();
    true
}

impl ModelKeySyncSummary {
    /// Counts one scanned upstream and the outcome of its key discoveries.
    pub fn record_scan(&mut self, results: &Vec<KeyModelDiscoveryResult>)
        ensures
            final(self).upstreams_scanned == sat_usize(old(self).upstreams_scanned + 1),
            final(self).keys_succeeded == sat_usize(
                old(self).keys_succeeded + successful_count(results@),
            ),
            final(self).keys_failed == sat_usize(
                old(self).keys_failed + (results@.len() - successful_count(results@)),
            ),
            final(self).upstreams_updated == old(self).upstreams_updated,
            final(self).upstreams_unchanged == old(self).upstreams_unchanged,
            final(self).skipped == old(self).skipped,
    {
        proof {
            lemma_successful_count_bound(results@);
        }
        let ok = count_successful(results);
        let failed = results.len() - ok;
        self.upstreams_scanned = self.upstreams_scanned.saturating_add(1);
        self.keys_succeeded = self.keys_succeeded.saturating_add(ok);
        self.keys_failed = self.keys_failed.saturating_add(failed);
    }

    /// Closes a pass in which no key was discovered: every scanned upstream
    /// stays unchanged.
    pub fn finish_without_discoveries(&mut self)
        ensures
            *final(self) == (ModelKeySyncSummary {
                upstreams_unchanged: old(self).upstreams_scanned,
                ..*old(self)
            }),
    {
        self.upstreams_unchanged = self.upstreams_scanned;
    }

    /// Counts what became of one scanned upstream: updated (`Some(true)`),
    /// unchanged (`Some(false)`), or skipped because it changed or vanished
    /// meanwhile (`None`).
    pub fn record_outcome(&mut self, outcome: Option<bool>)
        ensures
            final(self).upstreams_scanned == old(self).upstreams_scanned,
            final(self).keys_succeeded == old(self).keys_succeeded,
            final(self).keys_failed == old(self).keys_failed,
            final(self).upstreams_updated == if outcome == Some(true) {
                sat_usize(old(self).upstreams_updated + 1)
            } else {
                old(self).upstreams_updated
            },
            final(self).upstreams_unchanged == if outcome == Some(false) {
                sat_usize(old(self).upstreams_unchanged + 1)
            } else {
                old(self).upstreams_unchanged
            },
            final(self).skipped == if outcome is None {
                sat_usize(old(self).skipped + 1)
            } else {
                old(self).skipped
            },
    {
        match outcome {
            Some(true) => self.upstreams_updated = self.upstreams_updated.saturating_add(1),
            Some(false) => self.upstreams_unchanged = self.upstreams_unchanged.saturating_add(1),
            None => self.skipped = self.skipped.saturating_add(1),
        }
    }
}

/// `n` capped at `usize::MAX`.
pub open spec fn sat_usize(n: int) -> usize {
    if n > usize::MAX {
        usize::MAX
    } else {
        n as usize
    }
}

proof fn lemma_successful_count_bound(rs: Seq<KeyModelDiscoveryResult>)
    ensures
        successful_count(rs) <= rs.len(),
    decreases rs.len(),
{
    if rs.len() > 0 {
        lemma_successful_count_bound(rs.drop_last());
    }
}

/// What a targeted discovery found of the model it was asked about.
#[derive(Debug, Clone, Copy, PartialEq, Eq, Structural)]
pub enum TargetedVerdict {
    /// The key still serves the model; its observation is forgotten.
    Present,
    /// The model is missing but not yet confirmed gone.
    Missing,
    /// The model is confirmed gone.
    Confirmed,
}

/// Records what a targeted discovery of key `key_fingerprint` found about
/// `target_model`: present (observation forgotten), or missing (sighted, and
/// confirmed or not).
pub fn record_targeted_discovery(
    missing: &mut MissingObservations,
    upstream_id: &str,
    key_fingerprint: &str,
    target_model: &str,
    discovered: &Vec<String>,
    now: u64,
    configuration_fingerprint: &str,
) -> (verdict: TargetedVerdict)
    requires
        old(missing).wf(),
    ensures
        final(missing).wf(),
        views(discovered@).contains(target_model@) ==> verdict == TargetedVerdict::Present
            && final(missing)@ == old(missing)@.remove((upstream_id@, key_fingerprint@, target_model@)),
        !views(discovered@).contains(target_model@) ==> {
            let after = sighted(
                old(missing)@,
                (upstream_id@, key_fingerprint@, target_model@),
                now,
                configuration_fingerprint@,
            );
            &&& final(missing)@ == after
            &&& verdict == if confirmed_after(after, (upstream_id@, key_fingerprint@, target_model@)) {
                TargetedVerdict::Confirmed
            } else {
                TargetedVerdict::Missing
            }
        },
{
    if contains_text(discovered, &chars_of(target_model)) {
        missing.forget(upstream_id, key_fingerprint, target_model);
        TargetedVerdict::Present
    } else if missing.sight(upstream_id, key_fingerprint, target_model, now, configuration_fingerprint) {
        TargetedVerdict::Confirmed
    } else {
        TargetedVerdict::Missing
    }
}

/// The first index holding `f`.
pub open spec fn first_index(s: Seq<Seq<char>>, f: Seq<char>) -> Option<int>
    decreases s.len(),
{
    if s.len() == 0 {
        None
    } else {
        match first_index(s.drop_last(), f) {
            Some(i) => Some(i),
            None => if s.last() == f {
                Some(s.len() - 1)
            } else {
                None
            },
        }
    }
}

/// `models` without `target`.
pub open spec fn without_model(models: Seq<Seq<char>>, target: Seq<char>) -> Seq<Seq<char>> {
    models.filter(|m: Seq<char>| m != target)
}

/// Drops a model confirmed gone from the per-key list of the key with
/// fingerprint `key_fingerprint` (the first entry whose fingerprint, in
/// `mapping_fingerprints`, matches). When it was listed there, the supported
/// models are derived anew, the sync time set, the configuration put in its
/// stored form, and `true` returned; otherwise nothing changes.
pub fn remove_confirmed_model(
    upstream: &mut UpstreamConfig,
    mapping_fingerprints: &Vec<String>,
    key_fingerprint: &str,
    target_model: &str,
    synced_at: u64,
) -> (removed: bool)
    requires
        mapping_fingerprints@.len() == old(upstream).api_key_models@.len(),
    ensures
        match first_index(views(mapping_fingerprints@), key_fingerprint@) {
            None => !removed,
            Some(p) => removed == (without_model(
                key_models_view(old(upstream).api_key_models@)[p].1,
                target_model@,
            ).len() < key_models_view(old(upstream).api_key_models@)[p].1.len()),
        },
        !removed ==> *final(upstream) == *old(upstream),
        removed ==> exists|p: int, staged: UpstreamConfig|
            first_index(views(mapping_fingerprints@), key_fingerprint@) == Some(p) && staged_with(
                *old(upstream),
                staged,
                key_models_view(old(upstream).api_key_models@).update(
                    p,
                    (
                        key_models_view(old(upstream).api_key_models@)[p].0,
                        without_model(key_models_view(old(upstream).api_key_models@)[p].1, target_model@),
                    ),
                ),
                synced_at,
            ) && stored_form(staged, *final(upstream)),
{
    let ghost fv = views(mapping_fingerprints@);
    let ghost es = key_models_view(upstream.api_key_models@);
    let p = match first_index_exec(mapping_fingerprints, key_fingerprint) {
        Some(p) => p,
        None => {
            return false;
        },
    };
    let models = &upstream.api_key_models[p].supported_models;
    let ghost mv = views(models@);
    assert(es[p as int] == (upstream.api_key_models@[p as int].api_key@, mv));
    let mut kept: Vec<String> = Vec::new();
    for j in 0..models.len()
        invariant
            mv == views(models@),
            views(kept@) == without_model(mv.take(j as int), target_model@),
    {
        let ghost before = kept@;
        assert(mv.take(j + 1).drop_last() == mv.take(j as int));
        assert(mv[j as int] == models@[j as int]@);
        reveal_with_fuel(Seq::filter, 1);
        if !str_eq(models[j].as_str(), target_model) {
            kept.push(models[j].clone());
            assert(views(kept@) == views(before).push(models@[j as int]@));
        }
    }
    assert(mv.take(mv.len() as int) == mv);
    if kept.len() == models.len() {
        return false;
    }
    let key = upstream.api_key_models[p].api_key.clone();
    let ghost before = key_models_view(upstream.api_key_models@);
    upstream.api_key_models.set(p, ApiKeyModelConfig { api_key: key, supported_models: kept });
    assert(key_models_view(upstream.api_key_models@) == before.update(
        p as int,
        (before[p as int].0, without_model(before[p as int].1, target_model@)),
    ));
    upstream.supported_models = crate::normalize::derive_supported_models(&upstream.api_key_models);
    upstream.last_synced_at = synced_at;
    let ghost staged = *upstream;
    upstream.normalize_for_storage();
    assert(staged_with(
        *old(upstream),
        staged,
        key_models_view(old(upstream).api_key_models@).update(
            p as int,
            (
                key_models_view(old(upstream).api_key_models@)[p as int].0,
                without_model(key_models_view(old(upstream).api_key_models@)[p as int].1, target_model@),
            ),
        ),
        synced_at,
    ));
    true
}

fn first_index_exec(v: &Vec<String>, t: &str) -> (r: Option<usize>)
    ensures
        match r {
            Some(p) => p < v@.len() && first_index(views(v@), t@) == Some(p as int),
            None => first_index(views(v@), t@) is None,
        },
{
    let ghost fv = views(v@);
    let mut i: usize = 0;
    while i < v.len()
        invariant
            i <= v@.len(),
            fv == views(v@),
            first_index(fv.take(i as int), t@) is None,
        decreases v@.len() - i,
    {
        assert(fv.take(i + 1).drop_last() == fv.take(i as int));
        if str_eq(v[i].as_str(), t) {
            assert(fv[i as int] == v@[i as int]@);
            assert(first_index(fv.take(i + 1), t@) == Some(i as int));
            proof {
                lemma_first_index_prefix(fv, t@, i as int + 1);
            }
            return Some(i);
        }
        i = i + 1;
    }
    assert(fv.take(fv.len() as int) == fv);
    None
}

proof fn lemma_first_index_prefix(s: Seq<Seq<char>>, f: Seq<char>, n: int)
    requires
        0 < n <= s.len(),
        first_index(s.take(n), f) == Some(n - 1),
    ensures
        first_index(s, f) == Some(n - 1),
    decreases s.len(),
{
    if s.len() > n {
        assert(s.drop_last().take(n) == s.take(n));
        lemma_first_index_prefix(s.drop_last(), f, n);
    } else {
        assert(s.take(n) == s);
    }
}

/// A model seen missing for the first time, or for the first time under the
/// current configuration, is never confirmed gone: its count starts at one.
pub proof fn law_first_sighting_never_confirms(
    m: Map<ObservationKey, ObservationState>,
    k: ObservationKey,
    now: u64,
    fingerprint: Seq<char>,
)
    requires
        !(m.contains_key(k) && m[k].2 == fingerprint),
    ensures
        sighted(m, k, now, fingerprint)[k] == (1u8, now, fingerprint),
        !confirmed_after(sighted(m, k, now, fingerprint), k),
{
}

/// Starting from nothing, two sightings under one configuration confirm a
/// model gone exactly when the second comes at least the confirmation
/// interval after the first.
pub proof fn law_two_sightings_confirm_after_interval(
    m: Map<ObservationKey, ObservationState>,
    k: ObservationKey,
    first: u64,
    second: u64,
    fingerprint: Seq<char>,
)
    requires
        !m.contains_key(k),
    ensures
        confirmed_after(sighted(sighted(m, k, first, fingerprint), k, second, fingerprint), k) == (
        second >= first + MISSING_MODEL_CONFIRMATION_INTERVAL_MS),
{
}

/// A sighting confirms a model gone only when an earlier sighting under the
/// same configuration was remembered.
pub proof fn law_confirmation_needs_earlier_sighting(
    m: Map<ObservationKey, ObservationState>,
    k: ObservationKey,
    now: u64,
    fingerprint: Seq<char>,
)
    requires
        confirmed_after(sighted(m, k, now, fingerprint), k),
    ensures
        m.contains_key(k),
        m[k].2 == fingerprint,
        m[k].0 >= 1,
{
}

proof fn lemma_reconcile_frame(
    m: Map<ObservationKey, ObservationState>,
    u: Seq<char>,
    f: Seq<char>,
    d: Seq<Seq<char>>,
    previous: Seq<Seq<char>>,
    now: u64,
    fingerprint: Seq<char>,
    k: ObservationKey,
)
    requires
        !(k.0 == u && k.1 == f && !d.contains(k.2)),
    ensures
        reconcile_missing(m, u, f, d, previous, now, fingerprint).0.contains_key(k) == m.contains_key(k),
        m.contains_key(k) ==> reconcile_missing(m, u, f, d, previous, now, fingerprint).0[k] == m[k],
    decreases previous.len(),
{
    if previous.len() > 0 {
        lemma_reconcile_frame(m, u, f, d, previous.drop_last(), now, fingerprint, k);
    }
}

proof fn lemma_reconcile_kept(
    m: Map<ObservationKey, ObservationState>,
    u: Seq<char>,
    f: Seq<char>,
    d: Seq<Seq<char>>,
    previous: Seq<Seq<char>>,
    now: u64,
    fingerprint: Seq<char>,
)
    ensures
        forall|x: Seq<char>|
            #[trigger] reconcile_missing(m, u, f, d, previous, now, fingerprint).1.contains(x) ==> previous.contains(x)
                && !d.contains(x),
    decreases previous.len(),
{
    if previous.len() > 0 {
        lemma_reconcile_kept(m, u, f, d, previous.drop_last(), now, fingerprint);
        let r = reconcile_missing(m, u, f, d, previous, now, fingerprint);
        let r1 = reconcile_missing(m, u, f, d, previous.drop_last(), now, fingerprint);
        assert forall|x: Seq<char>| #[trigger] r.1.contains(x) implies previous.contains(x) && !d.contains(x) by {
            if r1.1.contains(x) {
                let i = choose|i: int| 0 <= i < previous.drop_last().len() && previous.drop_last()[i] == x;
                assert(previous[i] == x);
            } else {
                let i = choose|i: int| 0 <= i < r.1.len() && r.1[i] == x;
                if i < r1.1.len() {
                    assert(r1.1[i] == x);
                }
                assert(previous[previous.len() - 1] == x);
            }
        }
    }
}

/// After a successful discovery of a key: every discovered model is listed
/// for it and no longer remembered missing; every other listed model was
/// listed before; and the remembered models of other keys and upstreams are
/// untouched.
pub proof fn law_discovery_outcome_of_key(
    m: Map<ObservationKey, ObservationState>,
    u: Seq<char>,
    f: Seq<char>,
    previous: Seq<Seq<char>>,
    d: Seq<Seq<char>>,
    now: u64,
    fingerprint: Seq<char>,
)
    ensures
        ({
            let out = key_outcome(m, u, f, previous, Some(d), now, fingerprint);
            &&& forall|x: Seq<char>| #[trigger] d.contains(x) ==> out.1.contains(x) && !out.0.contains_key((u, f, x))
            &&& forall|x: Seq<char>| #[trigger] out.1.contains(x) ==> d.contains(x) || previous.contains(x)
            &&& forall|k: ObservationKey|
                !(k.0 == u && k.1 == f) ==> (#[trigger] out.0.contains_key(k) == m.contains_key(k) && (
                m.contains_key(k) ==> out.0[k] == m[k]))
        }),
{
    let c = cleared(m, u, f, d);
    let r = reconcile_missing(c, u, f, d, previous, now, fingerprint);
    let out = key_outcome(m, u, f, previous, Some(d), now, fingerprint);
    assert forall|x: Seq<char>| #[trigger] d.contains(x) implies out.1.contains(x) && !out.0.contains_key((u, f, x)) by {
        lemma_reconcile_frame(c, u, f, d, previous, now, fingerprint, (u, f, x));
        let i = choose|i: int| 0 <= i < d.len() && d[i] == x;
        assert(out.1[i] == x);
    }
    lemma_reconcile_kept(c, u, f, d, previous, now, fingerprint);
    assert forall|x: Seq<char>| #[trigger] out.1.contains(x) implies d.contains(x) || previous.contains(x) by {
        let i = choose|i: int| 0 <= i < out.1.len() && out.1[i] == x;
        if i < d.len() {
            assert(d[i] == x);
        } else {
            assert(r.1[i - d.len()] == x);
            assert(r.1.contains(x));
        }
    }
    assert forall|k: ObservationKey|
        !(k.0 == u && k.1 == f) implies (#[trigger] out.0.contains_key(k) == m.contains_key(k) && (
        m.contains_key(k) ==> out.0[k] == m[k])) by {
        lemma_reconcile_frame(c, u, f, d, previous, now, fingerprint, k);
    }
}

/// The queue of targeted discoveries never holds more than its capacity.
pub proof fn law_targeted_queue_bounded(pending: Set<PendingKey>, k: PendingKey)
    requires
        pending.finite(),
        pending.len() <= TARGETED_DISCOVERY_QUEUE_CAPACITY,
    ensures
        ({
            let admitted = pending.len() < TARGETED_DISCOVERY_QUEUE_CAPACITY && !pending.contains(k);
            let after = if admitted {
                pending.insert(k)
            } else {
                pending
            };
            after.len() <= TARGETED_DISCOVERY_QUEUE_CAPACITY
        }),
{
}

} // verus!
