//! The in-memory store of recent response histories, keyed by downstream key
//! and response id: kept in insertion order, entries older than the TTL
//! evicted from the front, and at most `RESPONSE_HISTORY_MAX_ENTRIES` kept.
//! What a history holds is opaque to the store.
use vstd::prelude::*;
use crate::text::str_eq;

verus! {

/// The most histories the store keeps.
pub const RESPONSE_HISTORY_MAX_ENTRIES: usize = 2048;

/// How long a history stays retrievable, in seconds (twelve hours).
pub const RESPONSE_HISTORY_TTL_SECONDS: u64 = 43_200;

/// A stored history: whose it is, when it was made (unix seconds) and what it
/// holds.
pub struct HistoryRecord<P> {
    pub downstream_key_id: String,
    pub response_id: String,
    pub created_at: u64,
    pub payload: P,
}

/// What a lookup hands back: a copy of the stored payload and its time.
pub struct ResponseHistoryEntry<P> {
    pub payload: P,
    pub created_at: u64,
}

/// The histories, oldest insertion first.
pub struct ResponseHistoryStore<P> {
    records: Vec<HistoryRecord<P>>,
}

/// Whether a history made at `created_at` has outlived the TTL at `now`.
pub open spec fn is_expired(created_at: u64, now: u64) -> bool {
    now - created_at > RESPONSE_HISTORY_TTL_SECONDS
}

/// Whether `r` is the history of `response_id` under `downstream_key_id`.
pub open spec fn has_key<P>(r: HistoryRecord<P>, downstream_key_id: Seq<char>, response_id: Seq<char>) -> bool {
    r.downstream_key_id@ == downstream_key_id && r.response_id@ == response_id
}

/// Whether no two histories share a key.
pub open spec fn keys_distinct<P>(s: Seq<HistoryRecord<P>>) -> bool {
    forall|i: int, j: int|
        #![trigger s[i], s[j]]
        0 <= i < j < s.len() ==> !has_key(s[j], s[i].downstream_key_id@, s[i].response_id@)
}

/// The position of the history with the given key, if there is one.
pub open spec fn key_index<P>(s: Seq<HistoryRecord<P>>, downstream_key_id: Seq<char>, response_id: Seq<char>) -> Option<int> {
    if exists|i: int| 0 <= i < s.len() && #[trigger] has_key(s[i], downstream_key_id, response_id) {
        Some(choose|i: int| 0 <= i < s.len() && #[trigger] has_key(s[i], downstream_key_id, response_id))
    } else {
        None
    }
}

/// How many histories at the front have expired, up to the first that has not.
pub open spec fn expired_front<P>(s: Seq<HistoryRecord<P>>, now: u64) -> nat
    decreases s.len(),
{
    if s.len() > 0 && is_expired(s[0].created_at, now) {
        1 + expired_front(s.skip(1), now)
    } else {
        0
    }
}

/// The histories after the expired ones at the front are dropped.
pub open spec fn evicted<P>(s: Seq<HistoryRecord<P>>, now: u64) -> Seq<HistoryRecord<P>> {
    s.skip(expired_front(s, now) as int)
}

/// The newest `RESPONSE_HISTORY_MAX_ENTRIES` histories.
pub open spec fn within_capacity<P>(s: Seq<HistoryRecord<P>>) -> Seq<HistoryRecord<P>> {
    if s.len() > RESPONSE_HISTORY_MAX_ENTRIES {
        s.skip(s.len() - RESPONSE_HISTORY_MAX_ENTRIES)
    } else {
        s
    }
}

/// The histories without the one with the given key.
pub open spec fn without_key<P>(s: Seq<HistoryRecord<P>>, downstream_key_id: Seq<char>, response_id: Seq<char>) -> Seq<HistoryRecord<P>> {
    match key_index(s, downstream_key_id, response_id) {
        Some(i) => s.remove(i),
        None => s,
    }
}

/// The histories after `r` is stored at `now`: any earlier history with its
/// key replaced, `r` placed last, expired histories evicted from the front,
/// and the oldest dropped beyond capacity.
pub open spec fn stored<P>(s: Seq<HistoryRecord<P>>, r: HistoryRecord<P>, now: u64) -> Seq<HistoryRecord<P>> {
    within_capacity(evicted(without_key(s, r.downstream_key_id@, r.response_id@).push(r), now))
}

proof fn lemma_expired_front_bound<P>(s: Seq<HistoryRecord<P>>, now: u64)
    ensures
        expired_front(s, now) <= s.len(),
    decreases s.len(),
{
    if s.len() > 0 && is_expired(s[0].created_at, now) {
        lemma_expired_front_bound(s.skip(1), now);
    }
}

proof fn lemma_evicted_step<P>(s: Seq<HistoryRecord<P>>, now: u64)
    requires
        s.len() > 0,
        is_expired(s[0].created_at, now),
    ensures
        evicted(s, now) == evicted(s.skip(1), now),
{
    lemma_expired_front_bound(s.skip(1), now);
    assert(s.skip(1).skip(expired_front(s.skip(1), now) as int) =~= s.skip(expired_front(s, now) as int));
}

proof fn lemma_distinct_skip<P>(s: Seq<HistoryRecord<P>>, n: int)
    requires
        keys_distinct(s),
        0 <= n <= s.len(),
    ensures
        keys_distinct(s.skip(n)),
{
    let t = s.skip(n);
    assert forall|i: int, j: int| 0 <= i < j < t.len() implies !has_key(t[j], t[i].downstream_key_id@, t[i].response_id@) by {
        assert(t[i] == s[i + n] && t[j] == s[j + n]);
    }
}

proof fn lemma_key_index_unique<P>(s: Seq<HistoryRecord<P>>, d: Seq<char>, r: Seq<char>, i: int)
    requires
        keys_distinct(s),
        0 <= i < s.len(),
        has_key(s[i], d, r),
    ensures
        key_index(s, d, r) == Some(i),
{
    let j = choose|j: int| 0 <= j < s.len() && #[trigger] has_key(s[j], d, r);
    assert(has_key(s[i], d, r));
    if j < i {
        assert(!has_key(s[i], s[j].downstream_key_id@, s[j].response_id@));
    } else if i < j {
        assert(!has_key(s[j], s[i].downstream_key_id@, s[i].response_id@));
    }
}

/// The store after `insert` is well formed whenever it was before.
proof fn lemma_stored_distinct<P>(s: Seq<HistoryRecord<P>>, r: HistoryRecord<P>, now: u64)
    requires
        keys_distinct(s),
    ensures
        keys_distinct(without_key(s, r.downstream_key_id@, r.response_id@).push(r)),
{
    let d = r.downstream_key_id@;
    let q = r.response_id@;
    let w = without_key(s, d, q);
    let t = w.push(r);
    match key_index(s, d, q) {
        Some(k) => {
            assert forall|i: int, j: int| 0 <= i < j < t.len() implies !has_key(t[j], t[i].downstream_key_id@, t[i].response_id@) by {
                let si = if i < k { i } else { i + 1 };
                assert(t[i] == s[si]);
                if j < t.len() - 1 {
                    let sj = if j < k { j } else { j + 1 };
                    assert(t[j] == s[sj]);
                    assert(si < sj);
                } else {
                    if has_key(s[si], d, q) {
                        lemma_key_index_unique(s, d, q, si);
                    }
                }
            }
        },
        None => {
            assert forall|i: int, j: int| 0 <= i < j < t.len() implies !has_key(t[j], t[i].downstream_key_id@, t[i].response_id@) by {
                assert(t[i] == s[i]);
                if j < t.len() - 1 {
                    assert(t[j] == s[j]);
                } else {
                    if has_key(s[i], d, q) {
                        assert(has_key(s[i], d, q));
                    }
                }
            }
        },
    }
}

proof fn lemma_live_last_survives<P>(s: Seq<HistoryRecord<P>>, now: u64)
    requires
        s.len() > 0,
        !is_expired(s.last().created_at, now),
    ensures
        expired_front(s, now) < s.len(),
    decreases s.len(),
{
    if s.len() > 1 && is_expired(s[0].created_at, now) {
        assert(s.skip(1).last() == s.last());
        lemma_live_last_survives(s.skip(1), now);
    }
}

/// A history stored at `now` that has not outlived the TTL is what a lookup
/// of its key at `now` finds: it survives the eviction and the capacity
/// bound as the newest entry, and no other entry has its key.
pub proof fn law_stored_history_is_found<P>(s: Seq<HistoryRecord<P>>, r: HistoryRecord<P>, now: u64)
    requires
        keys_distinct(s),
        !is_expired(r.created_at, now),
    ensures
        ({
            let t = evicted(stored(s, r, now), now);
            &&& t.len() > 0
            &&& t.last() == r
            &&& key_index(t, r.downstream_key_id@, r.response_id@) == Some(t.len() - 1)
        }),
{
    let u = without_key(s, r.downstream_key_id@, r.response_id@).push(r);
    lemma_stored_distinct(s, r, now);
    lemma_live_last_survives(u, now);
    let e = evicted(u, now);
    assert(e.last() == r);
    lemma_distinct_skip(u, expired_front(u, now) as int);
    let c = within_capacity(e);
    if e.len() > RESPONSE_HISTORY_MAX_ENTRIES {
        lemma_distinct_skip(e, e.len() - RESPONSE_HISTORY_MAX_ENTRIES);
    }
    assert(c.len() > 0 && c.last() == r);
    lemma_live_last_survives(c, now);
    lemma_expired_front_bound(c, now);
    let t = evicted(c, now);
    lemma_distinct_skip(c, expired_front(c, now) as int);
    assert(t.last() == r);
    lemma_key_index_unique(t, r.downstream_key_id@, r.response_id@, t.len() - 1);
}

impl<P> View for ResponseHistoryStore<P> {
    type V = Seq<HistoryRecord<P>>;

    closed spec fn view(&self) -> Seq<HistoryRecord<P>> {
        self.records@
    }
}

impl<P> ResponseHistoryStore<P> {
    /// Each key at most once, and no more histories than the capacity.
    pub open spec fn wf(&self) -> bool {
        keys_distinct(self@) && self@.len() <= RESPONSE_HISTORY_MAX_ENTRIES
    }

    /// An empty store.
    pub fn new() -> (s: Self)
        ensures
            s.wf(),
            s@ == Seq::<HistoryRecord<P>>::empty(),
    {
        ResponseHistoryStore { records: Vec::new() }
    }

    fn position(&self, downstream_key_id: &str, response_id: &str) -> (r: Option<usize>)
        requires
            keys_distinct(self@),
        ensures
            match r {
                Some(i) => i < self@.len() && key_index(self@, downstream_key_id@, response_id@) == Some(i as int),
                None => key_index(self@, downstream_key_id@, response_id@) is None,
            },
    {
        let mut i: usize = 0;
        while i < self.records.len()
            invariant
                i <= self.records@.len(),
                keys_distinct(self@),
                forall|j: int| 0 <= j < i ==> !#[trigger] has_key(self@[j], downstream_key_id@, response_id@),
            decreases self.records@.len() - i,
        {
            let rec = &self.records[i];
            if str_eq(&rec.downstream_key_id, downstream_key_id) && str_eq(&rec.response_id, response_id) {
                proof {
                    lemma_key_index_unique(self@, downstream_key_id@, response_id@, i as int);
                }
                return Some(i);
            }
            i += 1;
        }
        None
    }

    /// Drops the expired histories at the front, up to the first that is
    /// still live.
    pub fn evict_expired(&mut self, now: u64)
        requires
            old(self).wf(),
        ensures
            final(self).wf(),
            final(self)@ == evicted(old(self)@, now),
    {
        self.drop_expired_front(now);
    }

    /// Stores a history, replacing any earlier one with the same key; then
    /// evicts what has expired at `now` and drops the oldest beyond capacity.
    pub fn insert(&mut self, downstream_key_id: String, response_id: String, payload: P, created_at: u64, now: u64)
        requires
            old(self).wf(),
        ensures
            final(self).wf(),
            final(self)@ == stored(
                old(self)@,
                HistoryRecord { downstream_key_id, response_id, created_at, payload },
                now,
            ),
    {
        let ghost start = self@;
        let ghost rec = HistoryRecord { downstream_key_id, response_id, created_at, payload };
        match self.position(&downstream_key_id, &response_id) {
            Some(i) => {
                self.records.remove(i);
            },
            None => {},
        }
        proof {
            lemma_stored_distinct(start, rec, now);
        }
        self.records.push(HistoryRecord { downstream_key_id, response_id, created_at, payload });
        assert(self@ == without_key(start, rec.downstream_key_id@, rec.response_id@).push(rec));
        let ghost pushed = self@;
        assert(pushed.len() <= RESPONSE_HISTORY_MAX_ENTRIES + 1);
        self.drop_expired_front(now);
        let ghost after_eviction = self@;
        while self.records.len() > RESPONSE_HISTORY_MAX_ENTRIES
            invariant
                keys_distinct(self@),
                self@.len() <= after_eviction.len(),
                self@ == after_eviction.skip(after_eviction.len() - self@.len()),
                after_eviction.len() <= RESPONSE_HISTORY_MAX_ENTRIES + 1,
                self@.len() < after_eviction.len() ==> self@.len() >= RESPONSE_HISTORY_MAX_ENTRIES,
            decreases self@.len(),
        {
            let ghost before = self@;
            proof {
                lemma_distinct_skip(before, 1);
            }
            self.records.remove(0);
            assert(self@ =~= before.skip(1));
            assert(self@ =~= after_eviction.skip(after_eviction.len() - self@.len()));
        }
        proof {
            if after_eviction.len() <= RESPONSE_HISTORY_MAX_ENTRIES {
                assert(self@ =~= after_eviction);
            } else {
                assert(self@.len() == RESPONSE_HISTORY_MAX_ENTRIES);
            }
        }
    }

    /// `evict_expired` on a store that may hold one history beyond capacity.
    fn drop_expired_front(&mut self, now: u64)
        requires
            keys_distinct(old(self)@),
            old(self)@.len() <= RESPONSE_HISTORY_MAX_ENTRIES + 1,
        ensures
            keys_distinct(final(self)@),
            final(self)@.len() <= old(self)@.len(),
            final(self)@ == evicted(old(self)@, now),
    {
        let ghost start = self@;
        proof {
            lemma_expired_front_bound(start, now);
        }
        while self.records.len() > 0 && now.saturating_sub(self.records[0].created_at) > RESPONSE_HISTORY_TTL_SECONDS
            invariant
                keys_distinct(self@),
                self@.len() <= start.len(),
                self@ == start.skip(start.len() - self@.len()),
                evicted(self@, now) == evicted(start, now),
            decreases self@.len(),
        {
            let ghost before = self@;
            proof {
                lemma_evicted_step(before, now);
                lemma_distinct_skip(before, 1);
            }
            self.records.remove(0);
            assert(self@ =~= before.skip(1));
            assert(self@ =~= start.skip(start.len() - self@.len()));
        }
        assert(expired_front(self@, now) == 0);
        assert(self@.skip(0) =~= self@);
    }

    /// Evicts what has expired at `now`, then looks up the history of
    /// `response_id` under `downstream_key_id` and hands back a copy.
    pub fn get(&mut self, downstream_key_id: &str, response_id: &str, now: u64) -> (r: Option<ResponseHistoryEntry<P>>)
        where
            P: Clone,
        requires
            old(self).wf(),
        ensures
            final(self).wf(),
            final(self)@ == evicted(old(self)@, now),
            match key_index(final(self)@, downstream_key_id@, response_id@) {
                None => r is None,
                Some(i) => r matches Some(e) && e.created_at == final(self)@[i].created_at && cloned(
                    final(self)@[i].payload,
                    e.payload,
                ),
            },
    {
        self.evict_expired(now);
        match self.position(downstream_key_id, response_id) {
            Some(i) => {
                let rec = &self.records[i];
                Some(ResponseHistoryEntry { payload: rec.payload.clone(), created_at: rec.created_at })
            },
            None => None,
        }
    }
}

} // verus!
