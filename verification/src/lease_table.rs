//! The local table of upstream account leases: the leases each account
//! holds, a bounded ring of observed hold durations per account, and the
//! per-upstream counters of reclaimed leases and capacity rejections.
//! Times are milliseconds on a monotonic clock.
use vstd::prelude::*;
use vstd::relations::{sorted_by, total_ordering};
use crate::account_concurrency::{copy_key, key_view, random_token, AccountConcurrencyKey, KeyView};
use crate::keyed::{
    as_map, contains_key, distinct_keys, entry_index, lemma_as_map_index, lemma_as_map_push, lemma_as_map_remove,
    lemma_as_map_update, lemma_entry_index, lemma_filter_distinct,
};
use crate::runtime::{UpstreamAdmissionError, UpstreamAdmissionRejectionReason, UpstreamLeaseKind};
use crate::text::{owned, str_eq};

verus! {

/// How many hold durations each account's ring keeps.
pub const LEASE_HOLD_SAMPLE_SIZE: usize = 32;

/// The ceiling on the adaptive wait for a local slot, in ms.
pub const ADAPTIVE_QUEUE_BUDGET_CEILING_MS: u64 = 60_000;

/// One lease: when it expires, when it was last renewed, when it was
/// reserved, and what kind of request holds it.
#[derive(Clone, Copy, Debug, PartialEq, Eq, Structural)]
pub struct UpstreamLeaseRecord {
    pub expires_at: u64,
    pub last_renewed_at: u64,
    pub reserved_at: u64,
    pub kind: UpstreamLeaseKind,
}

impl UpstreamLeaseRecord {
    /// A lease reserved at `now` that expires `ttl_ms` later.
    pub fn new(now: u64, ttl_ms: u64, kind: UpstreamLeaseKind) -> (r: Self)
        requires
            now + ttl_ms <= u64::MAX,
        ensures
            r == (UpstreamLeaseRecord { expires_at: (now + ttl_ms) as u64, last_renewed_at: now, reserved_at: now, kind }),
    {
        UpstreamLeaseRecord { expires_at: now + ttl_ms, last_renewed_at: now, reserved_at: now, kind }
    }
}

/// A lease held by an account under its lease id.
pub struct HeldLease {
    pub account: AccountConcurrencyKey,
    pub lease_id: String,
    pub record: UpstreamLeaseRecord,
}

/// A lease's key: its account and its lease id.
pub type LeaseKey = (KeyView, Seq<char>);

/// A lease as plain values.
pub type LeaseEntry = (LeaseKey, UpstreamLeaseRecord);

pub open spec fn lease_entry(h: HeldLease) -> LeaseEntry {
    ((key_view(h.account), h.lease_id@), h.record)
}

pub open spec fn lease_entries(s: Seq<HeldLease>) -> Seq<LeaseEntry> {
    s.map_values(|h: HeldLease| lease_entry(h))
}

pub open spec fn sample_entries(s: Seq<(AccountConcurrencyKey, Vec<u64>)>) -> Seq<(KeyView, Seq<u64>)> {
    s.map_values(|e: (AccountConcurrencyKey, Vec<u64>)| (key_view(e.0), e.1@))
}

pub open spec fn tally_entries(s: Seq<(String, u64)>) -> Seq<(Seq<char>, u64)> {
    s.map_values(|e: (String, u64)| (e.0@, e.1))
}

/// The table as plain values: the leases (each key once), each account's
/// hold durations, oldest first, and the per-upstream counters.
pub struct LeaseTableView {
    pub leases: Seq<LeaseEntry>,
    pub hold_samples: Seq<(KeyView, Seq<u64>)>,
    pub leaked_reclaimed: Map<Seq<char>, u64>,
    pub stale_reclaimed: Map<Seq<char>, u64>,
    pub capacity_rejected: Map<Seq<char>, u64>,
}

/// The upstream account lease table.
pub struct UpstreamLeaseTable {
    leases: Vec<HeldLease>,
    hold_samples: Vec<(AccountConcurrencyKey, Vec<u64>)>,
    leaked_reclaimed_total: Vec<(String, u64)>,
    stale_reclaimed_total: Vec<(String, u64)>,
    capacity_reject_total: Vec<(String, u64)>,
}

impl View for UpstreamLeaseTable {
    type V = LeaseTableView;

    closed spec fn view(&self) -> LeaseTableView {
        LeaseTableView {
            leases: lease_entries(self.leases@),
            hold_samples: sample_entries(self.hold_samples@),
            leaked_reclaimed: as_map(tally_entries(self.leaked_reclaimed_total@)),
            stale_reclaimed: as_map(tally_entries(self.stale_reclaimed_total@)),
            capacity_rejected: as_map(tally_entries(self.capacity_reject_total@)),
        }
    }
}

/// A counter's value: zero where it was never counted.
pub open spec fn count_of(m: Map<Seq<char>, u64>, upstream_id: Seq<char>) -> u64 {
    if m.dom().contains(upstream_id) {
        m[upstream_id]
    } else {
        0
    }
}

/// An account's hold durations, oldest first.
pub open spec fn samples_of(hold_samples: Seq<(KeyView, Seq<u64>)>, account: KeyView) -> Seq<u64> {
    if as_map(hold_samples).dom().contains(account) {
        as_map(hold_samples)[account]
    } else {
        Seq::empty()
    }
}

/// Whether the lease belongs to `upstream_id` (and, when one is given, to
/// the key `key_fingerprint`) and, when `stale` gives a time and a limit,
/// has gone unrenewed for longer than the limit.
pub open spec fn lease_selected(
    e: LeaseEntry,
    upstream_id: Seq<char>,
    key_fingerprint: Option<Seq<char>>,
    stale: Option<(u64, u64)>,
) -> bool {
    &&& e.0.0.0 == upstream_id
    &&& match key_fingerprint {
        Some(fp) => e.0.0.1 == fp,
        None => true,
    }
    &&& match stale {
        Some((now, after)) => now - e.1.last_renewed_at > after,
        None => true,
    }
}

pub open spec fn selection(upstream_id: Seq<char>, key_fingerprint: Option<Seq<char>>, stale: Option<(u64, u64)>) -> spec_fn(
    LeaseEntry,
) -> bool {
    |e: LeaseEntry| lease_selected(e, upstream_id, key_fingerprint, stale)
}

pub open spec fn not_selected(upstream_id: Seq<char>, key_fingerprint: Option<Seq<char>>) -> spec_fn(
    LeaseEntry,
) -> bool {
    |e: LeaseEntry| !lease_selected(e, upstream_id, key_fingerprint, None)
}

pub open spec fn opt_view(s: Option<&str>) -> Option<Seq<char>> {
    match s {
        Some(t) => Some(t@),
        None => None,
    }
}

pub proof fn lemma_filter_take<A>(s: Seq<A>, p: spec_fn(A) -> bool, i: int)
    requires
        0 <= i < s.len(),
    ensures
        s.take(i + 1).filter(p) == (if p(s[i]) {
            s.take(i).filter(p).push(s[i])
        } else {
            s.take(i).filter(p)
        }),
{
    reveal(Seq::filter);
    assert(s.take(i + 1).drop_last() =~= s.take(i));
    assert(s.take(i + 1).last() == s[i]);
}

proof fn lemma_entries_take(s: Seq<HeldLease>, i: int)
    requires
        0 <= i <= s.len(),
    ensures
        lease_entries(s.take(i)) == lease_entries(s).take(i),
{
    assert(lease_entries(s.take(i)) =~= lease_entries(s).take(i));
}

/// The largest age in whole seconds at `now`, counted from the last renewal
/// or, with `since_reserved`, from the reservation, among the leases `p`
/// selects; zero when it selects none.
pub open spec fn oldest_age(s: Seq<LeaseEntry>, p: spec_fn(LeaseEntry) -> bool, now: u64, since_reserved: bool) -> u64
    decreases s.len(),
{
    if s.len() == 0 {
        0
    } else {
        let rest = oldest_age(s.drop_last(), p, now, since_reserved);
        let a = age_seconds(s.last().1, now, since_reserved);
        if p(s.last()) && a > rest {
            a
        } else {
            rest
        }
    }
}

/// A lease's age in whole seconds at `now` (zero before its start).
pub open spec fn age_seconds(r: UpstreamLeaseRecord, now: u64, since_reserved: bool) -> u64 {
    let from = if since_reserved {
        r.reserved_at
    } else {
        r.last_renewed_at
    };
    if now >= from {
        ((now - from) / 1000) as u64
    } else {
        0
    }
}

/// The leases after the lease `k` is set to `r`: in its place when the
/// table holds it, last otherwise.
pub open spec fn with_lease(s: Seq<LeaseEntry>, k: LeaseKey, r: UpstreamLeaseRecord) -> Seq<LeaseEntry> {
    match entry_index(s, k) {
        Some(i) => s.update(i, (k, r)),
        None => s.push((k, r)),
    }
}

/// The counters after `upstream_id` is counted once more.
pub open spec fn bumped(m: Map<Seq<char>, u64>, upstream_id: Seq<char>) -> Map<Seq<char>, u64> {
    m.insert(upstream_id, (count_of(m, upstream_id) + 1) as u64)
}

proof fn lemma_oldest_age_take(s: Seq<LeaseEntry>, p: spec_fn(LeaseEntry) -> bool, now: u64, since_reserved: bool, i: int)
    requires
        0 <= i < s.len(),
    ensures
        oldest_age(s.take(i + 1), p, now, since_reserved) == ({
            let rest = oldest_age(s.take(i), p, now, since_reserved);
            let a = age_seconds(s[i].1, now, since_reserved);
            if p(s[i]) && a > rest {
                a
            } else {
                rest
            }
        }),
{
    assert(s.take(i + 1).drop_last() =~= s.take(i));
    assert(s.take(i + 1).last() == s[i]);
}

/// The position of `upstream_id`'s counter.
fn tally_position(a: &Vec<(String, u64)>, upstream_id: &str) -> (r: Option<usize>)
    requires
        distinct_keys(tally_entries(a@)),
    ensures
        match r {
            Some(i) => i < a@.len() && a@[i as int].0@ == upstream_id@ && entry_index(tally_entries(a@), upstream_id@)
                == Some(i as int),
            None => !contains_key(tally_entries(a@), upstream_id@),
        },
{
    let mut i: usize = 0;
    while i < a.len()
        invariant
            i <= a@.len(),
            distinct_keys(tally_entries(a@)),
            forall|j: int| 0 <= j < i ==> (#[trigger] tally_entries(a@)[j]).0 != upstream_id@,
        decreases a@.len() - i,
    {
        if str_eq(a[i].0.as_str(), upstream_id) {
            proof {
                assert(tally_entries(a@)[i as int].0 == upstream_id@);
                lemma_entry_index(tally_entries(a@), i as int);
            }
            return Some(i);
        }
        i += 1;
    }
    None
}

/// A counter's value.
fn tally_value(a: &Vec<(String, u64)>, upstream_id: &str) -> (r: u64)
    requires
        distinct_keys(tally_entries(a@)),
    ensures
        r == count_of(as_map(tally_entries(a@)), upstream_id@),
{
    match tally_position(a, upstream_id) {
        Some(i) => {
            proof {
                lemma_as_map_index(tally_entries(a@), i as int);
            }
            a[i].1
        },
        None => 0,
    }
}

/// Counts `upstream_id` once more.
fn tally_bump(a: &mut Vec<(String, u64)>, upstream_id: &str)
    requires
        distinct_keys(tally_entries(old(a)@)),
        count_of(as_map(tally_entries(old(a)@)), upstream_id@) < u64::MAX,
    ensures
        distinct_keys(tally_entries(final(a)@)),
        as_map(tally_entries(final(a)@)) == bumped(as_map(tally_entries(old(a)@)), upstream_id@),
{
    let ghost e0 = tally_entries(a@);
    match tally_position(a, upstream_id) {
        Some(i) => {
            proof {
                lemma_as_map_index(e0, i as int);
                lemma_as_map_update(e0, i as int, (a@[i as int].1 + 1) as u64);
            }
            let name = a[i].0.clone();
            let v = a[i].1;
            a.set(i, (name, v + 1));
            assert(tally_entries(a@) =~= e0.update(i as int, (e0[i as int].0, (v + 1) as u64)));
        },
        None => {
            proof {
                lemma_as_map_push(e0, upstream_id@, 1u64);
            }
            a.push((owned(upstream_id), 1));
            assert(tally_entries(a@) =~= e0.push((upstream_id@, 1u64)));
        },
    }
}

/// Forgets `upstream_id`'s counter.
fn tally_forget(a: &mut Vec<(String, u64)>, upstream_id: &str)
    requires
        distinct_keys(tally_entries(old(a)@)),
    ensures
        distinct_keys(tally_entries(final(a)@)),
        as_map(tally_entries(final(a)@)) == as_map(tally_entries(old(a)@)).remove(upstream_id@),
{
    let ghost e0 = tally_entries(a@);
    match tally_position(a, upstream_id) {
        Some(i) => {
            proof {
                lemma_as_map_remove(e0, i as int);
            }
            a.remove(i);
            assert(tally_entries(a@) =~= e0.remove(i as int));
        },
        None => {
            assert(as_map(e0) =~= as_map(e0).remove(upstream_id@));
        },
    }
}

/// An account's ring after `hold` is recorded: the oldest duration makes
/// room when the ring is full.
pub open spec fn ring_push(s: Seq<u64>, hold: u64) -> Seq<u64> {
    if s.len() >= LEASE_HOLD_SAMPLE_SIZE {
        s.drop_first().push(hold)
    } else {
        s.push(hold)
    }
}

/// The rings after `hold` is recorded for `account`: its ring in place, or
/// a new ring last.
pub open spec fn recorded(hs: Seq<(KeyView, Seq<u64>)>, account: KeyView, hold: u64) -> Seq<(KeyView, Seq<u64>)> {
    match entry_index(hs, account) {
        Some(i) => hs.update(i, (account, ring_push(hs[i].1, hold))),
        None => hs.push((account, seq![hold])),
    }
}

/// How long a lease reserved at `r.reserved_at` was held at `now`, in ms.
pub open spec fn hold_of(r: UpstreamLeaseRecord, now: u64) -> u64 {
    if now >= r.reserved_at {
        (now - r.reserved_at) as u64
    } else {
        0
    }
}

/// The hold durations of all of `upstream_id`'s accounts, ring after ring.
pub open spec fn upstream_samples(hs: Seq<(KeyView, Seq<u64>)>, upstream_id: Seq<char>) -> Seq<u64>
    decreases hs.len(),
{
    if hs.len() == 0 {
        Seq::empty()
    } else {
        let rest = upstream_samples(hs.drop_last(), upstream_id);
        if hs.last().0.0 == upstream_id {
            rest + hs.last().1
        } else {
            rest
        }
    }
}

pub open spec fn le_u64() -> spec_fn(u64, u64) -> bool {
    |a: u64, b: u64| a <= b
}

/// The durations in ascending order.
pub open spec fn ascending(s: Seq<u64>) -> Seq<u64> {
    s.sort_by(le_u64())
}

/// The position of the `pct` percentile among `n` ordered values: the
/// ceiling of `n * pct / 100`, less one, kept within `0..n`.
pub open spec fn rank_position(n: nat, pct: nat) -> int {
    let c = ((n * pct + 99) / 100) as int;
    let i = if c >= 1 {
        c - 1
    } else {
        0
    };
    if i > n - 1 {
        n - 1
    } else {
        i
    }
}

/// The upper median of an account's hold durations, in whole seconds, once
/// there are two.
pub open spec fn hold_p50_of(s: Seq<u64>) -> Option<u64> {
    if s.len() < 2 {
        None
    } else {
        Some(ascending(s)[(s.len() / 2) as int] / 1000)
    }
}

/// The `pct` percentile of hold durations, unscaled, once there are two.
pub open spec fn percentile_of(s: Seq<u64>, pct: nat) -> Option<u64> {
    if s.len() < 2 {
        None
    } else {
        Some(ascending(s)[rank_position(s.len(), pct)])
    }
}

proof fn lemma_le_u64_total()
    ensures
        total_ordering(le_u64()),
{
}

/// The durations in ascending order.
fn sorted_copy(v: &Vec<u64>) -> (r: Vec<u64>)
    ensures
        r@ == ascending(v@),
        r@.len() == v@.len(),
{
    let mut r: Vec<u64> = Vec::new();
    let mut i: usize = 0;
    assert(r@ =~= v@.take(0));
    while i < v.len()
        invariant
            i <= v@.len(),
            r@.len() == i,
            sorted_by(r@, le_u64()),
            r@.to_multiset() == v@.take(i as int).to_multiset(),
        decreases v@.len() - i,
    {
        let x = v[i];
        let mut p: usize = 0;
        while p < r.len() && r[p] <= x
            invariant
                p <= r@.len(),
                forall|j: int| 0 <= j < p ==> r@[j] <= x,
            decreases r@.len() - p,
        {
            p += 1;
        }
        let ghost before = r@;
        proof {
            assert forall|j: int| p <= j < before.len() implies x <= before[j] by {
                assert(le_u64()(before[p as int], before[j]) || p == j);
            }
        }
        r.insert(p, x);
        proof {
            assert forall|a: int, b: int| 0 <= a < b < r@.len() implies #[trigger] le_u64()(r@[a], r@[b]) by {
                if a < p && b < p {
                    assert(le_u64()(before[a], before[b]));
                } else if a < p && b > p {
                    assert(le_u64()(before[a], before[b - 1]));
                } else if a > p {
                    assert(le_u64()(before[a - 1], before[b - 1]));
                }
            }
            assert(v@.take(i + 1) =~= v@.take(i as int).push(x));
            assert(r@ == before.insert(p as int, x));
            vstd::seq_lib::to_multiset_insert(before, p as int, x);
            vstd::seq_lib::to_multiset_build(v@.take(i as int), x);
        }
        i += 1;
    }
    proof {
        assert(v@.take(v@.len() as int) =~= v@);
        lemma_le_u64_total();
        v@.lemma_sort_by_ensures(le_u64());
        vstd::seq_lib::lemma_sorted_unique(r@, ascending(v@), le_u64());
    }
    r
}

/// `rank_position(n, pct)`.
fn rank_index(n: usize, pct: u64) -> (r: usize)
    requires
        n >= 1,
        pct <= 100,
    ensures
        r == rank_position(n as nat, pct as nat),
{
    let nn: u128 = n as u128;
    let pp: u128 = pct as u128;
    assert(nn * pp <= 0xffff_ffff_ffff_ffff_ffffu128) by (nonlinear_arith)
        requires
            nn < 0x1_0000_0000_0000_0000u128,
            pp <= 100,
    ;
    let c: u128 = (nn * pp + 99) / 100;
    assert(((n as int) * (pct as int) + 99) / 100 <= n) by (nonlinear_arith)
        requires
            n >= 1,
            pct <= 100,
    ;
    let c = c as usize;
    let i = if c >= 1 {
        c - 1
    } else {
        0
    };
    if i > n - 1 {
        n - 1
    } else {
        i
    }
}

proof fn lemma_upstream_samples_take(hs: Seq<(KeyView, Seq<u64>)>, u: Seq<char>, i: int)
    requires
        0 <= i < hs.len(),
    ensures
        upstream_samples(hs.take(i + 1), u) == if hs[i].0.0 == u {
            upstream_samples(hs.take(i), u) + hs[i].1
        } else {
            upstream_samples(hs.take(i), u)
        },
{
    assert(hs.take(i + 1).drop_last() =~= hs.take(i));
    assert(hs.take(i + 1).last() == hs[i]);
}

/// Whether the lease has expired at `now`.
pub open spec fn lease_expired(e: LeaseEntry, now: u64) -> bool {
    e.1.expires_at <= now
}

/// Whether the lease, not yet expired, has gone unrenewed for longer than
/// `after` ms at `now`.
pub open spec fn lease_stale(e: LeaseEntry, now: u64, after: u64) -> bool {
    !lease_expired(e, now) && now - e.1.last_renewed_at > after
}

pub open spec fn expired_at(now: u64) -> spec_fn(LeaseEntry) -> bool {
    |e: LeaseEntry| lease_expired(e, now)
}

pub open spec fn stale_at(now: u64, after: u64) -> spec_fn(LeaseEntry) -> bool {
    |e: LeaseEntry| lease_stale(e, now, after)
}

pub open spec fn reclaimable_at(now: u64, after: u64) -> spec_fn(LeaseEntry) -> bool {
    |e: LeaseEntry| lease_expired(e, now) || lease_stale(e, now, after)
}

pub open spec fn live_at(now: u64, after: u64) -> spec_fn(LeaseEntry) -> bool {
    |e: LeaseEntry| !(lease_expired(e, now) || lease_stale(e, now, after))
}

/// The counters after each lease that `p` selects is counted for its
/// upstream.
pub open spec fn tallied(m: Map<Seq<char>, u64>, s: Seq<LeaseEntry>, p: spec_fn(LeaseEntry) -> bool) -> Map<Seq<char>, u64>
    decreases s.len(),
{
    if s.len() == 0 {
        m
    } else {
        let m1 = tallied(m, s.drop_last(), p);
        if p(s.last()) {
            bumped(m1, s.last().0.0.0)
        } else {
            m1
        }
    }
}

/// Every counter has room for `n` more.
pub open spec fn room_for(m: Map<Seq<char>, u64>, n: nat) -> bool {
    forall|u: Seq<char>| #[trigger] count_of(m, u) + n <= u64::MAX
}

/// The stale limit the sweep uses: the configured one, at least a ms.
pub open spec fn effective_stale_after(stale_after_ms: u64) -> u64 {
    if stale_after_ms == 0 {
        1
    } else {
        stale_after_ms
    }
}

/// The table after the sweep at `now`: reclaimable leases dropped, each
/// counted for its upstream as leaked (expired) or stale.
pub open spec fn swept(v: LeaseTableView, now: u64, stale_after_ms: u64) -> LeaseTableView {
    let after = effective_stale_after(stale_after_ms);
    LeaseTableView {
        leases: v.leases.filter(live_at(now, after)),
        leaked_reclaimed: tallied(v.leaked_reclaimed, v.leases, expired_at(now)),
        stale_reclaimed: tallied(v.stale_reclaimed, v.leases, stale_at(now, after)),
        ..v
    }
}

proof fn lemma_tallied_take(m: Map<Seq<char>, u64>, s: Seq<LeaseEntry>, p: spec_fn(LeaseEntry) -> bool, i: int)
    requires
        0 <= i < s.len(),
    ensures
        tallied(m, s.take(i + 1), p) == if p(s[i]) {
            bumped(tallied(m, s.take(i), p), s[i].0.0.0)
        } else {
            tallied(m, s.take(i), p)
        },
{
    assert(s.take(i + 1).drop_last() =~= s.take(i));
    assert(s.take(i + 1).last() == s[i]);
}

proof fn lemma_tallied_bound(m: Map<Seq<char>, u64>, s: Seq<LeaseEntry>, p: spec_fn(LeaseEntry) -> bool, n: nat)
    requires
        room_for(m, n),
        s.len() <= n,
    ensures
        forall|u: Seq<char>| #[trigger] count_of(tallied(m, s, p), u) <= count_of(m, u) + s.len(),
    decreases s.len(),
{
    if s.len() > 0 {
        lemma_tallied_bound(m, s.drop_last(), p, n);
        let m1 = tallied(m, s.drop_last(), p);
        if p(s.last()) {
            assert forall|u: Seq<char>| #[trigger] count_of(tallied(m, s, p), u) <= count_of(m, u) + s.len() by {
                assert(count_of(m1, u) <= count_of(m, u) + s.drop_last().len());
                assert(count_of(m1, s.last().0.0.0) <= count_of(m, s.last().0.0.0) + s.drop_last().len());
            }
        }
    }
}

/// Whether every counter of `a` has room for `n` more.
fn tally_room(a: &Vec<(String, u64)>, n: usize) -> (r: bool)
    requires
        distinct_keys(tally_entries(a@)),
    ensures
        r == room_for(as_map(tally_entries(a@)), n as nat),
{
    let ghost e = tally_entries(a@);
    let mut i: usize = 0;
    while i < a.len()
        invariant
            i <= a@.len(),
            e == tally_entries(a@),
            distinct_keys(e),
            forall|j: int| 0 <= j < i ==> (#[trigger] e[j]).1 + n <= u64::MAX,
        decreases a@.len() - i,
    {
        if a[i].1 > u64::MAX - n as u64 {
            proof {
                lemma_as_map_index(e, i as int);
                assert(count_of(as_map(e), e[i as int].0) + n > u64::MAX);
            }
            return false;
        }
        i += 1;
    }
    assert forall|u: Seq<char>| #[trigger] count_of(as_map(e), u) + n <= u64::MAX by {
        if as_map(e).dom().contains(u) {
            let j = choose|j: int| 0 <= j < e.len() && (#[trigger] e[j]).0 == u;
            lemma_as_map_index(e, j);
        }
    }
    true
}

impl UpstreamLeaseTable {
    /// Each lease key once, each account's ring once and within its size,
    /// each counter once.
    pub closed spec fn wf(&self) -> bool {
        &&& distinct_keys(lease_entries(self.leases@))
        &&& distinct_keys(sample_entries(self.hold_samples@))
        &&& forall|i: int| 0 <= i < self.hold_samples@.len() ==> (#[trigger] self.hold_samples@[i]).1@.len() <= LEASE_HOLD_SAMPLE_SIZE
        &&& distinct_keys(tally_entries(self.leaked_reclaimed_total@))
        &&& distinct_keys(tally_entries(self.stale_reclaimed_total@))
        &&& distinct_keys(tally_entries(self.capacity_reject_total@))
    }

    /// An empty table.
    pub fn new() -> (t: Self)
        ensures
            t.wf(),
            t@.leases == Seq::<LeaseEntry>::empty(),
            t@.hold_samples == Seq::<(KeyView, Seq<u64>)>::empty(),
            t@.leaked_reclaimed == Map::<Seq<char>, u64>::empty(),
            t@.stale_reclaimed == Map::<Seq<char>, u64>::empty(),
            t@.capacity_rejected == Map::<Seq<char>, u64>::empty(),
    {
        let t = UpstreamLeaseTable {
            leases: Vec::new(),
            hold_samples: Vec::new(),
            leaked_reclaimed_total: Vec::new(),
            stale_reclaimed_total: Vec::new(),
            capacity_reject_total: Vec::new(),
        };
        assert(t@.leases =~= Seq::<LeaseEntry>::empty());
        assert(t@.hold_samples =~= Seq::<(KeyView, Seq<u64>)>::empty());
        assert(t@.leaked_reclaimed =~= Map::<Seq<char>, u64>::empty());
        assert(t@.stale_reclaimed =~= Map::<Seq<char>, u64>::empty());
        assert(t@.capacity_rejected =~= Map::<Seq<char>, u64>::empty());
        t
    }

    /// How many leases of `upstream_id` (of the key `key_fingerprint`, when
    /// given; unrenewed for longer than `stale.1` at `stale.0`, when given)
    /// the table holds.
    fn count_selected(&self, upstream_id: &str, key_fingerprint: Option<&str>, stale: Option<(u64, u64)>) -> (r: usize)
        ensures
            r == self@.leases.filter(selection(upstream_id@, opt_view(key_fingerprint), stale)).len(),
    {
        let ghost p = selection(upstream_id@, opt_view(key_fingerprint), stale);
        let mut count: usize = 0;
        let mut i: usize = 0;
        while i < self.leases.len()
            invariant
                i <= self.leases@.len(),
                p == selection(upstream_id@, opt_view(key_fingerprint), stale),
                count == self@.leases.take(i as int).filter(p).len(),
                count <= i,
            decreases self.leases@.len() - i,
        {
            proof {
                lemma_filter_take(self@.leases, p, i as int);
                assert(self@.leases[i as int] == lease_entry(self.leases@[i as int]));
            }
            let h = &self.leases[i];
            let mut hit = str_eq(h.account.upstream_id.as_str(), upstream_id);
            match key_fingerprint {
                Some(fp) => {
                    hit = hit && str_eq(h.account.key_fingerprint.as_str(), fp);
                },
                None => {},
            }
            match stale {
                Some((now, after)) => {
                    hit = hit && now.saturating_sub(h.record.last_renewed_at) > after;
                },
                None => {},
            }
            if hit {
                count += 1;
            }
            i += 1;
        }
        assert(self@.leases.take(self.leases@.len() as int) =~= self@.leases);
        count
    }

    /// How many leases `account` holds.
    pub fn account_lease_count(&self, account: &AccountConcurrencyKey) -> (r: usize)
        ensures
            r == self@.leases.filter(selection(account.upstream_id@, Some(account.key_fingerprint@), None)).len(),
    {
        self.count_selected(account.upstream_id.as_str(), Some(account.key_fingerprint.as_str()), None)
    }

    /// How many leases the accounts of `upstream_id` hold together.
    pub fn account_lease_count_for_upstream(&self, upstream_id: &str) -> (r: usize)
        ensures
            r == self@.leases.filter(selection(upstream_id@, None, None)).len(),
    {
        self.count_selected(upstream_id, None, None)
    }

    /// How many of `account`'s leases have gone unrenewed for longer than
    /// `stale_after_ms` at `now`.
    pub fn account_stale_lease_count(&self, account: &AccountConcurrencyKey, stale_after_ms: u64, now: u64) -> (r: usize)
        ensures
            r == self@.leases.filter(
                selection(account.upstream_id@, Some(account.key_fingerprint@), Some((now, stale_after_ms))),
            ).len(),
    {
        self.count_selected(account.upstream_id.as_str(), Some(account.key_fingerprint.as_str()), Some((now, stale_after_ms)))
    }

    /// How many leases of `upstream_id`'s accounts have gone unrenewed for
    /// longer than `stale_after_ms` at `now`.
    pub fn upstream_stale_lease_count(&self, upstream_id: &str, stale_after_ms: u64, now: u64) -> (r: usize)
        ensures
            r == self@.leases.filter(selection(upstream_id@, None, Some((now, stale_after_ms)))).len(),
    {
        self.count_selected(upstream_id, None, Some((now, stale_after_ms)))
    }
    /// Whether the counters have room for what a reservation for
    /// `upstream_id` may count: every reclaim counter for each held lease,
    /// and `upstream_id`'s rejection counter for one more.
    pub fn counters_have_room(&self, upstream_id: &str) -> (r: bool)
        requires
            self.wf(),
        ensures
            r == (room_for(self@.leaked_reclaimed, self@.leases.len()) && room_for(self@.stale_reclaimed, self@.leases.len())
                && count_of(self@.capacity_rejected, upstream_id@) < u64::MAX),
    {
        assert(self@.leases.len() == self.leases@.len());
        tally_room(&self.leaked_reclaimed_total, self.leases.len()) && tally_room(&self.stale_reclaimed_total, self.leases.len())
            && tally_value(&self.capacity_reject_total, upstream_id) < u64::MAX
    }

    /// How many times the local gate turned a request for `upstream_id` away.
    pub fn capacity_reject_total(&self, upstream_id: &str) -> (r: u64)
        requires
            self.wf(),
        ensures
            r == count_of(self@.capacity_rejected, upstream_id@),
    {
        tally_value(&self.capacity_reject_total, upstream_id)
    }

    /// How many of `upstream_id`'s leases the sweeps reclaimed as expired.
    pub fn leaked_reclaimed_total(&self, upstream_id: &str) -> (r: u64)
        requires
            self.wf(),
        ensures
            r == count_of(self@.leaked_reclaimed, upstream_id@),
    {
        tally_value(&self.leaked_reclaimed_total, upstream_id)
    }

    /// How many of `upstream_id`'s leases the sweeps reclaimed as stale.
    pub fn stale_reclaimed_total(&self, upstream_id: &str) -> (r: u64)
        requires
            self.wf(),
        ensures
            r == count_of(self@.stale_reclaimed, upstream_id@),
    {
        tally_value(&self.stale_reclaimed_total, upstream_id)
    }

    /// Counts one more local-gate rejection for `upstream_id`.
    pub fn record_capacity_reject(&mut self, upstream_id: &str)
        requires
            old(self).wf(),
            count_of(old(self)@.capacity_rejected, upstream_id@) < u64::MAX,
        ensures
            final(self).wf(),
            final(self)@ == (LeaseTableView {
                capacity_rejected: bumped(old(self)@.capacity_rejected, upstream_id@),
                ..old(self)@
            }),
    {
        tally_bump(&mut self.capacity_reject_total, upstream_id);
    }

    fn oldest_selected_age(&self, upstream_id: &str, key_fingerprint: Option<&str>, now: u64, since_reserved: bool) -> (r: u64)
        ensures
            r == oldest_age(self@.leases, selection(upstream_id@, opt_view(key_fingerprint), None), now, since_reserved),
    {
        let ghost p = selection(upstream_id@, opt_view(key_fingerprint), None);
        let mut best: u64 = 0;
        let mut i: usize = 0;
        while i < self.leases.len()
            invariant
                i <= self.leases@.len(),
                p == selection(upstream_id@, opt_view(key_fingerprint), None),
                best == oldest_age(self@.leases.take(i as int), p, now, since_reserved),
            decreases self.leases@.len() - i,
        {
            proof {
                lemma_oldest_age_take(self@.leases, p, now, since_reserved, i as int);
                assert(self@.leases[i as int] == lease_entry(self.leases@[i as int]));
            }
            let h = &self.leases[i];
            let mut hit = str_eq(h.account.upstream_id.as_str(), upstream_id);
            match key_fingerprint {
                Some(fp) => {
                    hit = hit && str_eq(h.account.key_fingerprint.as_str(), fp);
                },
                None => {},
            }
            let from = if since_reserved {
                h.record.reserved_at
            } else {
                h.record.last_renewed_at
            };
            let age = now.saturating_sub(from) / 1000;
            if hit && age > best {
                best = age;
            }
            i += 1;
        }
        assert(self@.leases.take(self.leases@.len() as int) =~= self@.leases);
        best
    }

    /// The age in whole seconds at `now`, since its last renewal, of the
    /// longest-silent lease of `upstream_id`'s accounts; zero without one.
    pub fn upstream_oldest_lease_age_seconds(&self, upstream_id: &str, now: u64) -> (r: u64)
        ensures
            r == oldest_age(self@.leases, selection(upstream_id@, None, None), now, false),
    {
        self.oldest_selected_age(upstream_id, None, now, false)
    }

    /// The longest time in whole seconds at `now` that one of `account`'s
    /// leases has been held; zero without one.
    pub fn oldest_held_seconds(&self, account: &AccountConcurrencyKey, now: u64) -> (r: u64)
        ensures
            r == oldest_age(self@.leases, selection(account.upstream_id@, Some(account.key_fingerprint@), None), now, true),
    {
        self.oldest_selected_age(account.upstream_id.as_str(), Some(account.key_fingerprint.as_str()), now, true)
    }

    fn lease_position(&self, account: &AccountConcurrencyKey, lease_id: &str) -> (r: Option<usize>)
        requires
            self.wf(),
        ensures
            entry_index(self@.leases, (key_view(*account), lease_id@)) == match r {
                Some(i) => Some(i as int),
                None => None::<int>,
            },
            r matches Some(i) ==> i < self@.leases.len() && self@.leases[i as int].0 == (key_view(*account), lease_id@),
    {
        let ghost k = (key_view(*account), lease_id@);
        let mut i: usize = 0;
        while i < self.leases.len()
            invariant
                i <= self.leases@.len(),
                self.wf(),
                k == (key_view(*account), lease_id@),
                forall|j: int| 0 <= j < i ==> (#[trigger] self@.leases[j]).0 != k,
            decreases self.leases@.len() - i,
        {
            let h = &self.leases[i];
            if str_eq(h.account.upstream_id.as_str(), account.upstream_id.as_str()) && str_eq(
                h.account.key_fingerprint.as_str(),
                account.key_fingerprint.as_str(),
            ) && str_eq(h.lease_id.as_str(), lease_id) {
                proof {
                    assert(self@.leases[i as int].0 == k);
                    lemma_entry_index(self@.leases, i as int);
                }
                return Some(i);
            }
            i += 1;
        }
        assert(!contains_key(self@.leases, k));
        None
    }

    /// Holds `record` under `lease_id` for `account`, replacing a lease of
    /// the same id.
    pub fn insert(&mut self, account: AccountConcurrencyKey, lease_id: String, record: UpstreamLeaseRecord)
        requires
            old(self).wf(),
        ensures
            final(self).wf(),
            final(self)@ == (LeaseTableView {
                leases: with_lease(old(self)@.leases, (key_view(account), lease_id@), record),
                ..old(self)@
            }),
    {
        let ghost e0 = self@.leases;
        let ghost k = (key_view(account), lease_id@);
        match self.lease_position(&account, lease_id.as_str()) {
            Some(i) => {
                proof {
                    lemma_as_map_update(e0, i as int, record);
                }
                self.leases.set(i, HeldLease { account, lease_id, record });
                assert(self@.leases =~= e0.update(i as int, (k, record)));
            },
            None => {
                proof {
                    lemma_as_map_push(e0, k, record);
                }
                self.leases.push(HeldLease { account, lease_id, record });
                assert(self@.leases =~= e0.push((k, record)));
            },
        }
    }

    /// Renews `account`'s lease `lease_id` at `now` for `ttl_ms` more; a lease
    /// the table does not hold is left alone.
    pub fn renew(&mut self, account: &AccountConcurrencyKey, lease_id: &str, now: u64, ttl_ms: u64)
        requires
            old(self).wf(),
            now + ttl_ms <= u64::MAX,
        ensures
            final(self).wf(),
            final(self)@ == (LeaseTableView {
                leases: match entry_index(old(self)@.leases, (key_view(*account), lease_id@)) {
                    Some(i) => old(self)@.leases.update(
                        i,
                        (old(self)@.leases[i].0, UpstreamLeaseRecord {
                            expires_at: (now + ttl_ms) as u64,
                            last_renewed_at: now,
                            ..old(self)@.leases[i].1
                        }),
                    ),
                    None => old(self)@.leases,
                },
                ..old(self)@
            }),
    {
        let ghost e0 = self@.leases;
        match self.lease_position(account, lease_id) {
            Some(i) => {
                let old_record = self.leases[i].record;
                let record = UpstreamLeaseRecord { expires_at: now + ttl_ms, last_renewed_at: now, ..old_record };
                proof {
                    lemma_as_map_update(e0, i as int, record);
                }
                let h = HeldLease { account: copy_key(&self.leases[i].account), lease_id: self.leases[i].lease_id.clone(), record };
                self.leases.set(i, h);
                assert(self@.leases =~= e0.update(i as int, (e0[i as int].0, record)));
            },
            None => {},
        }
    }

    /// Marks `account`'s lease `lease_id` as streaming; whether the table
    /// holds it.
    pub fn mark_streaming(&mut self, account: &AccountConcurrencyKey, lease_id: &str) -> (r: bool)
        requires
            old(self).wf(),
        ensures
            final(self).wf(),
            r == entry_index(old(self)@.leases, (key_view(*account), lease_id@)) is Some,
            final(self)@ == (LeaseTableView {
                leases: match entry_index(old(self)@.leases, (key_view(*account), lease_id@)) {
                    Some(i) => old(self)@.leases.update(
                        i,
                        (old(self)@.leases[i].0, UpstreamLeaseRecord {
                            kind: UpstreamLeaseKind::Streaming,
                            ..old(self)@.leases[i].1
                        }),
                    ),
                    None => old(self)@.leases,
                },
                ..old(self)@
            }),
    {
        let ghost e0 = self@.leases;
        match self.lease_position(account, lease_id) {
            Some(i) => {
                let old_record = self.leases[i].record;
                let record = UpstreamLeaseRecord { kind: UpstreamLeaseKind::Streaming, ..old_record };
                proof {
                    lemma_as_map_update(e0, i as int, record);
                }
                let h = HeldLease { account: copy_key(&self.leases[i].account), lease_id: self.leases[i].lease_id.clone(), record };
                self.leases.set(i, h);
                assert(self@.leases =~= e0.update(i as int, (e0[i as int].0, record)));
                true
            },
            None => false,
        }
    }
    fn sample_position(&self, account: &AccountConcurrencyKey) -> (r: Option<usize>)
        requires
            self.wf(),
        ensures
            entry_index(self@.hold_samples, key_view(*account)) == match r {
                Some(i) => Some(i as int),
                None => None::<int>,
            },
            r matches Some(i) ==> i < self@.hold_samples.len() && self@.hold_samples[i as int].0 == key_view(*account),
    {
        let mut i: usize = 0;
        while i < self.hold_samples.len()
            invariant
                i <= self.hold_samples@.len(),
                self.wf(),
                forall|j: int| 0 <= j < i ==> (#[trigger] self@.hold_samples[j]).0 != key_view(*account),
            decreases self.hold_samples@.len() - i,
        {
            let k = &self.hold_samples[i].0;
            if str_eq(k.upstream_id.as_str(), account.upstream_id.as_str()) && str_eq(
                k.key_fingerprint.as_str(),
                account.key_fingerprint.as_str(),
            ) {
                proof {
                    assert(self@.hold_samples[i as int].0 == key_view(*account));
                    lemma_entry_index(self@.hold_samples, i as int);
                }
                return Some(i);
            }
            i += 1;
        }
        assert(!contains_key(self@.hold_samples, key_view(*account)));
        None
    }

    fn record_hold(&mut self, account: &AccountConcurrencyKey, hold: u64)
        requires
            old(self).wf(),
        ensures
            final(self).wf(),
            final(self)@ == (LeaseTableView {
                hold_samples: recorded(old(self)@.hold_samples, key_view(*account), hold),
                ..old(self)@
            }),
    {
        let ghost e0 = self@.hold_samples;
        let ghost raw0 = self.hold_samples@;
        match self.sample_position(account) {
            Some(i) => {
                let (k, mut ring) = self.hold_samples.remove(i);
                assert(ring@ == e0[i as int].1);
                assert(ring@.len() <= LEASE_HOLD_SAMPLE_SIZE) by {
                    assert(raw0[i as int].1@.len() <= LEASE_HOLD_SAMPLE_SIZE);
                }
                if ring.len() >= LEASE_HOLD_SAMPLE_SIZE {
                    ring.remove(0);
                    assert(ring@ =~= e0[i as int].1.drop_first());
                }
                ring.push(hold);
                let ghost new_ring = ring@;
                assert(new_ring =~= ring_push(e0[i as int].1, hold));
                proof {
                    lemma_as_map_update(e0, i as int, new_ring);
                }
                self.hold_samples.insert(i, (k, ring));
                assert(self.hold_samples@ =~= raw0.update(i as int, (k, ring)));
                assert(self@.hold_samples =~= e0.update(i as int, (e0[i as int].0, new_ring)));
                assert forall|j: int| 0 <= j < self.hold_samples@.len() implies (
                #[trigger] self.hold_samples@[j]).1@.len() <= LEASE_HOLD_SAMPLE_SIZE by {
                    if j != i {
                        assert(self.hold_samples@[j] == raw0[j]);
                    }
                }
            },
            None => {
                proof {
                    lemma_as_map_push(e0, key_view(*account), seq![hold]);
                }
                let ring = vec![hold];
                assert(ring@ =~= seq![hold]);
                self.hold_samples.push((copy_key(account), ring));
                assert(self@.hold_samples =~= e0.push((key_view(*account), seq![hold])));
                assert forall|j: int| 0 <= j < self.hold_samples@.len() implies (
                #[trigger] self.hold_samples@[j]).1@.len() <= LEASE_HOLD_SAMPLE_SIZE by {
                    if j < raw0.len() {
                        assert(self.hold_samples@[j] == raw0[j]);
                    }
                }
            },
        }
    }

    /// Releases `account`'s lease `lease_id` at `now`, recording how long it
    /// was held; whether the table held it.
    pub fn remove(&mut self, account: &AccountConcurrencyKey, lease_id: &str, now: u64) -> (r: bool)
        requires
            old(self).wf(),
        ensures
            final(self).wf(),
            match entry_index(old(self)@.leases, (key_view(*account), lease_id@)) {
                None => !r && final(self)@ == old(self)@,
                Some(i) => r && final(self)@ == (LeaseTableView {
                    leases: old(self)@.leases.remove(i),
                    hold_samples: recorded(old(self)@.hold_samples, key_view(*account), hold_of(old(self)@.leases[i].1, now)),
                    ..old(self)@
                }),
            },
    {
        let ghost e0 = self@.leases;
        match self.lease_position(account, lease_id) {
            Some(i) => {
                proof {
                    lemma_as_map_remove(e0, i as int);
                }
                let h = self.leases.remove(i);
                assert(self@.leases =~= e0.remove(i as int));
                let hold = now.saturating_sub(h.record.reserved_at);
                self.record_hold(account, hold);
                true
            },
            None => false,
        }
    }

    /// The upper median of `account`'s observed hold durations, in whole
    /// seconds; `None` below two observations.
    pub fn hold_p50_seconds(&self, account: &AccountConcurrencyKey) -> (r: Option<u64>)
        requires
            self.wf(),
        ensures
            r == hold_p50_of(samples_of(self@.hold_samples, key_view(*account))),
    {
        match self.sample_position(account) {
            Some(i) => {
                proof {
                    lemma_as_map_index(self@.hold_samples, i as int);
                }
                let ring = &self.hold_samples[i].1;
                if ring.len() < 2 {
                    return None;
                }
                let sorted = sorted_copy(ring);
                Some(sorted[ring.len() / 2] / 1000)
            },
            None => None,
        }
    }

    /// The 95th percentile of `account`'s observed hold durations, in whole
    /// seconds; `None` below two observations.
    pub fn hold_p95_seconds(&self, account: &AccountConcurrencyKey) -> (r: Option<u64>)
        requires
            self.wf(),
        ensures
            r == match percentile_of(samples_of(self@.hold_samples, key_view(*account)), 95) {
                Some(d) => Some(d / 1000),
                None => None,
            },
    {
        match self.sample_position(account) {
            Some(i) => {
                proof {
                    lemma_as_map_index(self@.hold_samples, i as int);
                }
                let ring = &self.hold_samples[i].1;
                if ring.len() < 2 {
                    return None;
                }
                let sorted = sorted_copy(ring);
                Some(sorted[rank_index(ring.len(), 95)] / 1000)
            },
            None => None,
        }
    }

    fn upstream_durations(&self, upstream_id: &str) -> (r: Vec<u64>)
        ensures
            r@ == upstream_samples(self@.hold_samples, upstream_id@),
    {
        let mut all: Vec<u64> = Vec::new();
        let mut i: usize = 0;
        while i < self.hold_samples.len()
            invariant
                i <= self.hold_samples@.len(),
                all@ == upstream_samples(self@.hold_samples.take(i as int), upstream_id@),
            decreases self.hold_samples@.len() - i,
        {
            proof {
                lemma_upstream_samples_take(self@.hold_samples, upstream_id@, i as int);
            }
            let (k, ring) = (&self.hold_samples[i].0, &self.hold_samples[i].1);
            if str_eq(k.upstream_id.as_str(), upstream_id) {
                let ghost base = all@;
                let mut j: usize = 0;
                while j < ring.len()
                    invariant
                        j <= ring@.len(),
                        all@ == base + ring@.take(j as int),
                    decreases ring@.len() - j,
                {
                    all.push(ring[j]);
                    assert(ring@.take(j + 1) =~= ring@.take(j as int).push(ring@[j as int]));
                    assert(all@ =~= base + ring@.take(j + 1));
                    j += 1;
                }
                assert(ring@.take(ring@.len() as int) =~= ring@);
            }
            i += 1;
        }
        assert(self@.hold_samples.take(self.hold_samples@.len() as int) =~= self@.hold_samples);
        all
    }

    /// The `pct` percentile of all of `upstream_id`'s observed hold
    /// durations, in ms; `None` below two observations.
    fn upstream_hold_percentile_ms(&self, upstream_id: &str, pct: u64) -> (r: Option<u64>)
        requires
            pct <= 100,
        ensures
            r == percentile_of(upstream_samples(self@.hold_samples, upstream_id@), pct as nat),
    {
        let all = self.upstream_durations(upstream_id);
        if all.len() < 2 {
            return None;
        }
        let sorted = sorted_copy(&all);
        Some(sorted[rank_index(all.len(), pct)])
    }

    /// The median of all of `upstream_id`'s observed hold durations, in ms;
    /// `None` below two observations.
    pub fn upstream_hold_p50_ms(&self, upstream_id: &str) -> (r: Option<u64>)
        ensures
            r == percentile_of(upstream_samples(self@.hold_samples, upstream_id@), 50),
    {
        self.upstream_hold_percentile_ms(upstream_id, 50)
    }

    /// The 95th percentile of all of `upstream_id`'s observed hold
    /// durations, in ms; `None` below two observations.
    pub fn upstream_hold_p95_ms(&self, upstream_id: &str) -> (r: Option<u64>)
        ensures
            r == percentile_of(upstream_samples(self@.hold_samples, upstream_id@), 95),
    {
        self.upstream_hold_percentile_ms(upstream_id, 95)
    }
    /// Drops every lease of `upstream_id` (of the key `key_fingerprint`, when
    /// given); how many went.
    pub fn remove_leases_for_upstream(&mut self, upstream_id: &str, key_fingerprint: Option<&str>) -> (r: usize)
        requires
            old(self).wf(),
        ensures
            final(self).wf(),
            r == old(self)@.leases.filter(selection(upstream_id@, opt_view(key_fingerprint), None)).len(),
            final(self)@ == (LeaseTableView {
                leases: old(self)@.leases.filter(not_selected(upstream_id@, opt_view(key_fingerprint))),
                ..old(self)@
            }),
    {
        let ghost e0 = self@.leases;
        let ghost hit = selection(upstream_id@, opt_view(key_fingerprint), None);
        let ghost keep = not_selected(upstream_id@, opt_view(key_fingerprint));
        let mut kept: Vec<HeldLease> = Vec::new();
        let mut removed: usize = 0;
        let mut i: usize = 0;
        assert(lease_entries(kept@) =~= e0.take(0).filter(keep)) by {
            reveal(Seq::filter);
        }
        assert(e0.take(0).filter(hit) =~= Seq::<LeaseEntry>::empty()) by {
            reveal(Seq::filter);
        }
        while i < self.leases.len()
            invariant
                i <= self.leases@.len(),
                e0 == self@.leases,
                hit == selection(upstream_id@, opt_view(key_fingerprint), None),
                keep == not_selected(upstream_id@, opt_view(key_fingerprint)),
                lease_entries(kept@) == e0.take(i as int).filter(keep),
                removed == e0.take(i as int).filter(hit).len(),
                removed <= i,
            decreases self.leases@.len() - i,
        {
            proof {
                lemma_filter_take(e0, keep, i as int);
                lemma_filter_take(e0, hit, i as int);
                assert(e0[i as int] == lease_entry(self.leases@[i as int]));
            }
            let h = &self.leases[i];
            let mut selected = str_eq(h.account.upstream_id.as_str(), upstream_id);
            match key_fingerprint {
                Some(fp) => {
                    selected = selected && str_eq(h.account.key_fingerprint.as_str(), fp);
                },
                None => {},
            }
            if selected {
                removed += 1;
            } else {
                let copy = HeldLease { account: copy_key(&h.account), lease_id: h.lease_id.clone(), record: h.record };
                let ghost before = kept@;
                kept.push(copy);
                assert(lease_entries(kept@) =~= lease_entries(before).push(e0[i as int]));
            }
            i += 1;
        }
        proof {
            assert(e0.take(self.leases@.len() as int) =~= e0);
            lemma_filter_distinct(e0, keep);
        }
        self.leases = kept;
        removed
    }

    /// Forgets `upstream_id`: its leases and its reclaim counters.
    pub fn remove_upstream(&mut self, upstream_id: &str)
        requires
            old(self).wf(),
        ensures
            final(self).wf(),
            final(self)@ == (LeaseTableView {
                leases: old(self)@.leases.filter(not_selected(upstream_id@, None)),
                leaked_reclaimed: old(self)@.leaked_reclaimed.remove(upstream_id@),
                stale_reclaimed: old(self)@.stale_reclaimed.remove(upstream_id@),
                ..old(self)@
            }),
    {
        self.remove_leases_for_upstream(upstream_id, None);
        tally_forget(&mut self.leaked_reclaimed_total, upstream_id);
        tally_forget(&mut self.stale_reclaimed_total, upstream_id);
    }
}

/// Reclaims the leases that have expired at `now` or gone unrenewed for
/// longer than `stale_after_ms` (at least a ms), counting each for its
/// upstream as leaked or as stale; how many were reclaimed.
pub fn prune_expired_upstream_leases(table: &mut UpstreamLeaseTable, now: u64, stale_after_ms: u64) -> (r: u64)
    requires
        old(table).wf(),
        room_for(old(table)@.leaked_reclaimed, old(table)@.leases.len()),
        room_for(old(table)@.stale_reclaimed, old(table)@.leases.len()),
    ensures
        final(table).wf(),
        r == old(table)@.leases.filter(reclaimable_at(now, effective_stale_after(stale_after_ms))).len(),
        final(table)@ == swept(old(table)@, now, stale_after_ms),
{
    let after: u64 = if stale_after_ms == 0 {
        1
    } else {
        stale_after_ms
    };
    let ghost e0 = table@.leases;
    let ghost leaked0 = table@.leaked_reclaimed;
    let ghost stale0 = table@.stale_reclaimed;
    let ghost n = e0.len();
    let ghost keep = live_at(now, after);
    let ghost gone = reclaimable_at(now, after);
    let ghost exp = expired_at(now);
    let ghost stl = stale_at(now, after);
    let mut kept: Vec<HeldLease> = Vec::new();
    let mut reclaimed: u64 = 0;
    let mut i: usize = 0;
    assert(lease_entries(kept@) =~= e0.take(0).filter(keep)) by {
        reveal(Seq::filter);
    }
    assert(e0.take(0).filter(gone) =~= Seq::<LeaseEntry>::empty()) by {
        reveal(Seq::filter);
    }
    assert(e0.take(0) =~= Seq::<LeaseEntry>::empty());
    while i < table.leases.len()
        invariant
            i <= table.leases@.len(),
            n == table.leases@.len(),
            e0 == lease_entries(table.leases@),
            table.wf(),
            keep == live_at(now, after),
            gone == reclaimable_at(now, after),
            exp == expired_at(now),
            stl == stale_at(now, after),
            room_for(leaked0, n),
            room_for(stale0, n),
            lease_entries(kept@) == e0.take(i as int).filter(keep),
            reclaimed == e0.take(i as int).filter(gone).len(),
            reclaimed <= i,
            as_map(tally_entries(table.leaked_reclaimed_total@)) == tallied(leaked0, e0.take(i as int), exp),
            as_map(tally_entries(table.stale_reclaimed_total@)) == tallied(stale0, e0.take(i as int), stl),
            table@.hold_samples == old(table)@.hold_samples,
            table@.capacity_rejected == old(table)@.capacity_rejected,
            table@.leases == old(table)@.leases,
        decreases table.leases@.len() - i,
    {
        proof {
            lemma_filter_take(e0, keep, i as int);
            lemma_filter_take(e0, gone, i as int);
            lemma_tallied_take(leaked0, e0, exp, i as int);
            lemma_tallied_take(stale0, e0, stl, i as int);
            lemma_tallied_bound(leaked0, e0.take(i as int), exp, n);
            lemma_tallied_bound(stale0, e0.take(i as int), stl, n);
            assert(e0[i as int] == lease_entry(table.leases@[i as int]));
        }
        let h = &table.leases[i];
        if h.record.expires_at <= now {
            proof {
                assert(count_of(leaked0, h.account.upstream_id@) + n <= u64::MAX);
            }
            let u = h.account.upstream_id.clone();
            tally_bump(&mut table.leaked_reclaimed_total, u.as_str());
            reclaimed += 1;
        } else if now.saturating_sub(h.record.last_renewed_at) > after {
            proof {
                assert(count_of(stale0, h.account.upstream_id@) + n <= u64::MAX);
            }
            let u = h.account.upstream_id.clone();
            tally_bump(&mut table.stale_reclaimed_total, u.as_str());
            reclaimed += 1;
        } else {
            let h = &table.leases[i];
            let copy = HeldLease { account: copy_key(&h.account), lease_id: h.lease_id.clone(), record: h.record };
            let ghost before = kept@;
            kept.push(copy);
            assert(lease_entries(kept@) =~= lease_entries(before).push(e0[i as int]));
        }
        i += 1;
    }
    proof {
        assert(e0.take(n as int) =~= e0);
        lemma_filter_distinct(e0, keep);
    }
    table.leases = kept;
    reclaimed
}

proof fn lemma_filter_len_update<A>(s: Seq<A>, p: spec_fn(A) -> bool, i: int, x: A)
    requires
        0 <= i < s.len(),
        p(x) == p(s[i]),
    ensures
        s.update(i, x).filter(p).len() == s.filter(p).len(),
    decreases s.len(),
{
    reveal(Seq::filter);
    let t = s.update(i, x);
    if i == s.len() - 1 {
        assert(t.drop_last() =~= s.drop_last());
    } else {
        assert(t.drop_last() =~= s.drop_last().update(i, x));
        lemma_filter_len_update(s.drop_last(), p, i, x);
        assert(t.last() == s.last());
    }
}

proof fn lemma_filter_len_remove<A>(s: Seq<A>, p: spec_fn(A) -> bool, i: int)
    requires
        0 <= i < s.len(),
    ensures
        s.remove(i).filter(p).len() + (if p(s[i]) { 1int } else { 0int }) == s.filter(p).len(),
    decreases s.len(),
{
    reveal(Seq::filter);
    let t = s.remove(i);
    if i == s.len() - 1 {
        assert(t =~= s.drop_last());
    } else {
        assert(t.drop_last() =~= s.drop_last().remove(i));
        lemma_filter_len_remove(s.drop_last(), p, i);
        assert(t.last() == s.last());
    }
}

/// A lease newly held for `account` counts once more among its leases; one
/// that replaces a lease of the same key leaves the count as it was.
pub proof fn law_new_lease_counts_once(s: Seq<LeaseEntry>, account: KeyView, lease_id: Seq<char>, r: UpstreamLeaseRecord)
    requires
        distinct_keys(s),
    ensures
        ({
            let p = selection(account.0, Some(account.1), None);
            let after = with_lease(s, (account, lease_id), r).filter(p).len();
            if contains_key(s, (account, lease_id)) {
                after == s.filter(p).len()
            } else {
                after == s.filter(p).len() + 1
            }
        }),
{
    let p = selection(account.0, Some(account.1), None);
    let k = (account, lease_id);
    reveal(Seq::filter);
    match entry_index(s, k) {
        Some(i) => {
            let j = choose|j: int| 0 <= j < s.len() && (#[trigger] s[j]).0 == k;
            assert(s[i].0 == k);
            lemma_filter_len_update(s, p, i, (k, r));
        },
        None => {
            assert(s.push((k, r)).drop_last() =~= s);
        },
    }
}

/// A released lease counts no more among its account's leases.
pub proof fn law_released_lease_counts_no_more(s: Seq<LeaseEntry>, i: int)
    requires
        0 <= i < s.len(),
    ensures
        s.remove(i).filter(selection(s[i].0.0.0, Some(s[i].0.0.1), None)).len() + 1 == s.filter(
            selection(s[i].0.0.0, Some(s[i].0.0.1), None),
        ).len(),
{
    lemma_filter_len_remove(s, selection(s[i].0.0.0, Some(s[i].0.0.1), None), i);
}

proof fn lemma_tallied_none(m: Map<Seq<char>, u64>, s: Seq<LeaseEntry>, p: spec_fn(LeaseEntry) -> bool)
    requires
        forall|i: int| 0 <= i < s.len() ==> !p(#[trigger] s[i]),
    ensures
        tallied(m, s, p) == m,
    decreases s.len(),
{
    if s.len() > 0 {
        assert forall|i: int| 0 <= i < s.drop_last().len() implies !p(#[trigger] s.drop_last()[i]) by {
            assert(s.drop_last()[i] == s[i]);
        }
        lemma_tallied_none(m, s.drop_last(), p);
        assert(!p(s[s.len() - 1]));
    }
}

/// After the sweep at `now` every lease left is live, and sweeping again at
/// the same time changes nothing.
pub proof fn law_sweep_leaves_only_live_leases(v: LeaseTableView, now: u64, stale_after_ms: u64)
    ensures
        ({
            let w = swept(v, now, stale_after_ms);
            &&& forall|i: int| 0 <= i < w.leases.len() ==> (#[trigger] live_at(now, effective_stale_after(stale_after_ms))(w.leases[i]))
            &&& swept(w, now, stale_after_ms) == w
        }),
{
    let after = effective_stale_after(stale_after_ms);
    let w = swept(v, now, stale_after_ms);
    broadcast use vstd::seq_lib::group_filter_ensures;
    assert forall|i: int| 0 <= i < w.leases.len() implies #[trigger] live_at(now, after)(w.leases[i]) by {
        v.leases.lemma_filter_pred(live_at(now, after), i);
    }
    lemma_tallied_none(w.leaked_reclaimed, w.leases, expired_at(now));
    lemma_tallied_none(w.stale_reclaimed, w.leases, stale_at(now, after));
    assert(w.leases.filter(live_at(now, after)) =~= w.leases) by {
        lemma_filter_all(w.leases, live_at(now, after));
    }
}

proof fn lemma_filter_all<A>(s: Seq<A>, p: spec_fn(A) -> bool)
    requires
        forall|i: int| 0 <= i < s.len() ==> #[trigger] p(s[i]),
    ensures
        s.filter(p) == s,
    decreases s.len(),
{
    reveal(Seq::filter);
    if s.len() > 0 {
        assert forall|i: int| 0 <= i < s.drop_last().len() implies #[trigger] p(s.drop_last()[i]) by {
            assert(s.drop_last()[i] == s[i]);
        }
        lemma_filter_all(s.drop_last(), p);
        assert(p(s[s.len() - 1]));
        assert(s.drop_last().push(s.last()) =~= s);
    }
}

/// The median hold never exceeds the 95th percentile.
pub proof fn law_median_hold_within_p95(s: Seq<u64>)
    requires
        s.len() >= 2,
    ensures
        ({
            let median = hold_p50_of(s);
            let p95 = percentile_of(s, 95);
            median matches Some(m) && p95 matches Some(d) && m <= d / 1000
        }),
{
    lemma_le_u64_total();
    s.lemma_sort_by_ensures(le_u64());
    let a = ascending(s);
    vstd::seq_lib::to_multiset_len(s);
    vstd::seq_lib::to_multiset_len(a);
    let n = s.len();
    let m = (n / 2) as int;
    let q = rank_position(n, 95);
    assert((n * 95 + 99) / 100 >= n / 2 + 1) by (nonlinear_arith)
        requires
            n >= 2,
    ;
    assert(m <= q);
    if m < q {
        assert(le_u64()(a[m], a[q]));
    }
}

/// Each account's ring holds at most `LEASE_HOLD_SAMPLE_SIZE` durations.
pub proof fn law_hold_ring_bounded(t: UpstreamLeaseTable, account: KeyView)
    requires
        t.wf(),
    ensures
        samples_of(t@.hold_samples, account).len() <= LEASE_HOLD_SAMPLE_SIZE,
{
    if as_map(t@.hold_samples).dom().contains(account) {
        let j = choose|j: int| 0 <= j < t@.hold_samples.len() && (#[trigger] t@.hold_samples[j]).0 == account;
        lemma_as_map_index(t@.hold_samples, j);
        assert(t.hold_samples@[j].1@.len() <= LEASE_HOLD_SAMPLE_SIZE);
    }
}

/// The first probe delay in whole seconds, at least one; one without any.
pub open spec fn first_probe_delay_seconds(probe_delays_ms: Seq<u64>) -> u64 {
    if probe_delays_ms.len() > 0 && probe_delays_ms[0] / 1000 >= 1 {
        probe_delays_ms[0] / 1000
    } else {
        1
    }
}

/// The retry delay in seconds for a request the local gate turns away from
/// `account`: the median hold less how long the oldest lease has already
/// been held, at least the first probe delay; the probe delay alone before
/// there are two observations.
pub open spec fn local_retry_after(v: LeaseTableView, probe_delays_ms: Seq<u64>, account: KeyView, now: u64) -> u64 {
    let probe = first_probe_delay_seconds(probe_delays_ms);
    match hold_p50_of(samples_of(v.hold_samples, account)) {
        None => probe,
        Some(p50) => {
            let held = oldest_age(v.leases, selection(account.0, Some(account.1), None), now, true);
            let left = if p50 >= held {
                (p50 - held) as u64
            } else {
                0
            };
            if left >= probe {
                left
            } else {
                probe
            }
        },
    }
}

/// The wait budget in ms for a local slot of `account`, and whether to skip
/// waiting: with two observations, one and a half times the p95 hold
/// (rounded down), kept between the configured wait (at least a ms) and the
/// ceiling, skipping when the median hold, in seconds, exceeds the
/// configured wait rounded up to seconds; the configured wait and no skip
/// otherwise.
pub open spec fn queue_plan(v: LeaseTableView, account: KeyView, queue_max_wait_ms: u64) -> (u64, bool) {
    let floor = if queue_max_wait_ms == 0 {
        1
    } else {
        queue_max_wait_ms
    };
    let s = samples_of(v.hold_samples, account);
    match percentile_of(s, 95) {
        None => (floor, false),
        Some(d) => {
            let p95 = d / 1000;
            let scaled = p95 + p95 / 2;
            let budget = if scaled < floor {
                floor
            } else if scaled > ADAPTIVE_QUEUE_BUDGET_CEILING_MS {
                ADAPTIVE_QUEUE_BUDGET_CEILING_MS
            } else {
                scaled as u64
            };
            let p50 = match hold_p50_of(s) {
                Some(m) => m,
                None => 0,
            };
            let floor_seconds = floor / 1000 + if floor % 1000 != 0 {
                1int
            } else {
                0int
            };
            (budget, p50 > 0 && p50 > floor_seconds)
        },
    }
}

/// The lease time in ms for a configured TTL in seconds (at least one).
pub open spec fn lease_ttl_ms(lease_ttl_seconds: u64) -> int {
    (if lease_ttl_seconds == 0 {
        1
    } else {
        lease_ttl_seconds
    }) * 1000
}

/// The retry delay for a request the local gate turns away from `account`,
/// in seconds.
pub fn estimate_local_concurrency_retry_after_seconds(
    probe_delays_ms: &Vec<u64>,
    table: &UpstreamLeaseTable,
    account: &AccountConcurrencyKey,
    now: u64,
) -> (r: u64)
    requires
        table.wf(),
    ensures
        r == local_retry_after(table@, probe_delays_ms@, key_view(*account), now),
        r >= 1,
{
    let probe: u64 = if probe_delays_ms.len() > 0 && probe_delays_ms[0] / 1000 >= 1 {
        probe_delays_ms[0] / 1000
    } else {
        1
    };
    let p50 = match table.hold_p50_seconds(account) {
        Some(p) => p,
        None => {
            return probe;
        },
    };
    let held = table.oldest_held_seconds(account, now);
    let left = p50.saturating_sub(held);
    if left >= probe {
        left
    } else {
        probe
    }
}

/// The wait budget in ms for a local slot of `account`, and whether waiting
/// is pointless.
pub fn local_slot_queue_plan(table: &UpstreamLeaseTable, account: &AccountConcurrencyKey, queue_max_wait_ms: u64) -> (r: (
    u64,
    bool,
))
    requires
        table.wf(),
        queue_max_wait_ms <= ADAPTIVE_QUEUE_BUDGET_CEILING_MS || samples_of(table@.hold_samples, key_view(*account)).len() < 2,
    ensures
        r == queue_plan(table@, key_view(*account), queue_max_wait_ms),
{
    let floor: u64 = if queue_max_wait_ms == 0 {
        1
    } else {
        queue_max_wait_ms
    };
    let p95 = match table.hold_p95_seconds(account) {
        Some(p) => p,
        None => {
            return (floor, false);
        },
    };
    let p50 = match table.hold_p50_seconds(account) {
        Some(m) => m,
        None => 0,
    };
    let scaled: u64 = p95 + p95 / 2;
    let budget = if scaled < floor {
        floor
    } else if scaled > ADAPTIVE_QUEUE_BUDGET_CEILING_MS {
        ADAPTIVE_QUEUE_BUDGET_CEILING_MS
    } else {
        scaled
    };
    let floor_seconds: u64 = floor / 1000 + if floor % 1000 != 0 {
        1
    } else {
        0
    };
    (budget, p50 > 0 && p50 > floor_seconds)
}

/// Reserves a local lease for `account` at `now`: sweeps reclaimable leases
/// first; when the account already holds `max_concurrency` (at least one)
/// leases, counts a rejection for its upstream and refuses with a retry
/// delay; otherwise holds a new unary lease under a fresh random id and
/// hands the id back.
pub fn reserve_local_lease(
    table: &mut UpstreamLeaseTable,
    account: &AccountConcurrencyKey,
    max_concurrency: u32,
    lease_ttl_seconds: u64,
    stale_after_ms: u64,
    probe_delays_ms: &Vec<u64>,
    now: u64,
) -> (r: Result<String, UpstreamAdmissionError>)
    requires
        old(table).wf(),
        room_for(old(table)@.leaked_reclaimed, old(table)@.leases.len()),
        room_for(old(table)@.stale_reclaimed, old(table)@.leases.len()),
        count_of(old(table)@.capacity_rejected, account.upstream_id@) < u64::MAX,
        now + lease_ttl_ms(lease_ttl_seconds) <= u64::MAX,
    ensures
        final(table).wf(),
        ({
            let v = swept(old(table)@, now, stale_after_ms);
            let held = v.leases.filter(selection(account.upstream_id@, Some(account.key_fingerprint@), None)).len();
            let limit = if max_concurrency == 0 {
                1
            } else {
                max_concurrency
            };
            if held >= limit {
                &&& r matches Err(e) && e.reason == UpstreamAdmissionRejectionReason::LocalConcurrency
                    && e.message@ == "upstream request concurrency capacity is full"@ && e.retry_after_seconds
                    == local_retry_after(v, probe_delays_ms@, key_view(*account), now)
                &&& final(table)@ == (LeaseTableView {
                    capacity_rejected: bumped(v.capacity_rejected, account.upstream_id@),
                    ..v
                })
            } else {
                &&& r is Ok
                &&& final(table)@ == (LeaseTableView {
                    leases: with_lease(
                        v.leases,
                        (key_view(*account), r->Ok_0@),
                        UpstreamLeaseRecord {
                            expires_at: (now + lease_ttl_ms(lease_ttl_seconds)) as u64,
                            last_renewed_at: now,
                            reserved_at: now,
                            kind: UpstreamLeaseKind::Unary,
                        },
                    ),
                    ..v
                })
            }
        }),
{
    prune_expired_upstream_leases(table, now, stale_after_ms);
    let held = table.account_lease_count(account);
    let limit: usize = if max_concurrency == 0 {
        1
    } else {
        max_concurrency as usize
    };
    if held >= limit {
        let retry_after = estimate_local_concurrency_retry_after_seconds(probe_delays_ms, table, account, now);
        table.record_capacity_reject(account.upstream_id.as_str());
        return Err(
            UpstreamAdmissionError::new(
                UpstreamAdmissionRejectionReason::LocalConcurrency,
                owned("upstream request concurrency capacity is full"),
                retry_after,
            ),
        );
    }
    let ttl_seconds: u64 = if lease_ttl_seconds == 0 {
        1
    } else {
        lease_ttl_seconds
    };
    let lease_id = random_token();
    let record = UpstreamLeaseRecord::new(now, ttl_seconds * 1000, UpstreamLeaseKind::Unary);
    table.insert(copy_key(account), lease_id.clone(), record);
    Ok(lease_id)
}

/// Renews `account`'s lease `lease_id` at `now` for the configured TTL (at
/// least a second), after sweeping reclaimable leases; a lease the table no
/// longer holds is left alone.
pub fn renew_local_lease(
    table: &mut UpstreamLeaseTable,
    account: &AccountConcurrencyKey,
    lease_id: &str,
    lease_ttl_seconds: u64,
    stale_after_ms: u64,
    now: u64,
)
    requires
        old(table).wf(),
        room_for(old(table)@.leaked_reclaimed, old(table)@.leases.len()),
        room_for(old(table)@.stale_reclaimed, old(table)@.leases.len()),
        now + lease_ttl_ms(lease_ttl_seconds) <= u64::MAX,
    ensures
        final(table).wf(),
        ({
            let v = swept(old(table)@, now, stale_after_ms);
            final(table)@ == (LeaseTableView {
                leases: match entry_index(v.leases, (key_view(*account), lease_id@)) {
                    Some(i) => v.leases.update(
                        i,
                        (v.leases[i].0, UpstreamLeaseRecord {
                            expires_at: (now + lease_ttl_ms(lease_ttl_seconds)) as u64,
                            last_renewed_at: now,
                            ..v.leases[i].1
                        }),
                    ),
                    None => v.leases,
                },
                ..v
            })
        }),
{
    prune_expired_upstream_leases(table, now, stale_after_ms);
    let ttl_seconds: u64 = if lease_ttl_seconds == 0 {
        1
    } else {
        lease_ttl_seconds
    };
    table.renew(account, lease_id, now, ttl_seconds * 1000);
}

} // verus!