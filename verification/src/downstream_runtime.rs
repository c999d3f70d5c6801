//! The local admission state of downstream keys: one bucket per downstream
//! and model group, holding the admitted leases with their expiry (unix
//! millis) and the leases that wait on an upstream.
use vstd::prelude::*;
use crate::account_concurrency::random_token;
use crate::config::{DownstreamConfig, ModelConcurrencyGroup};
use crate::keyed::{
    contains_key, distinct_keys, entry_index, lemma_as_map_push, lemma_as_map_remove, lemma_as_map_update,
    lemma_entry_index, lemma_filter_distinct, with_entry, without_entry,
};
use crate::request_window::add_or_max;
use crate::runtime::{
    admitted_in, admitted_view, alive_after, live_leases, waiting_kept, DownstreamAdmissionRejection,
    DownstreamConcurrencyLease, DownstreamLeaseState, DownstreamRuntimeCounts, LeaseReleaseGuard, LeaseReleaseState,
    RuntimeCoordinationError,
};
use crate::text::{chars_of, contains_text, owned, str_eq, views};

verus! {

/// A bucket's key: the downstream and the model group (empty for none).
pub type BucketKey = (Seq<char>, Seq<char>);

/// A bucket as plain values: admitted lease ids with their expiry, and the
/// ids waiting on an upstream.
pub type BucketView = (Seq<(Seq<char>, u64)>, Seq<Seq<char>>);

pub open spec fn bucket_view(s: DownstreamLeaseState) -> BucketView {
    (admitted_view(s.admitted@), views(s.waiting@))
}

pub open spec fn bucket_entries(v: Seq<((String, String), DownstreamLeaseState)>) -> Seq<(BucketKey, BucketView)> {
    v.map_values(|b: ((String, String), DownstreamLeaseState)| ((b.0.0@, b.0.1@), bucket_view(b.1)))
}

/// Each admitted id once, each waiting id once.
pub open spec fn bucket_wf(b: BucketView) -> bool {
    distinct_keys(b.0) && b.1.no_duplicates()
}

/// The buckets of every downstream.
pub struct DownstreamRuntime {
    buckets: Vec<((String, String), DownstreamLeaseState)>,
}

impl View for DownstreamRuntime {
    type V = Seq<(BucketKey, BucketView)>;

    closed spec fn view(&self) -> Seq<(BucketKey, BucketView)> {
        bucket_entries(self.buckets@)
    }
}

pub open spec fn empty_bucket() -> BucketView {
    (Seq::empty(), Seq::empty())
}

/// The bucket of `key`, or an empty one.
pub open spec fn bucket_or_empty(rt: Seq<(BucketKey, BucketView)>, key: BucketKey) -> BucketView {
    match entry_index(rt, key) {
        Some(i) => rt[i].1,
        None => empty_bucket(),
    }
}

/// The bucket at `now_ms`: expired leases dropped, then the waiting ids of
/// leases no longer admitted.
pub open spec fn pruned_bucket(b: BucketView, now_ms: u64) -> BucketView {
    (live_leases(b.0, now_ms), waiting_kept(b.1, live_leases(b.0, now_ms)))
}

/// The runtime with the bucket of `key` pruned at `now_ms` (an empty bucket
/// added last when there was none).
pub open spec fn with_pruned_bucket(rt: Seq<(BucketKey, BucketView)>, key: BucketKey, now_ms: u64) -> Seq<(BucketKey, BucketView)> {
    with_entry(rt, key, pruned_bucket(bucket_or_empty(rt, key), now_ms))
}

/// How long an admitted lease lives: the configured seconds in ms
/// (saturating), at least a minute.
pub open spec fn lease_duration_ms(lease_ttl_seconds: u64) -> u64 {
    let d = if lease_ttl_seconds * 1000 > u64::MAX {
        u64::MAX
    } else {
        (lease_ttl_seconds * 1000) as u64
    };
    if d < 60_000 {
        60_000
    } else {
        d
    }
}

/// All admitted leases of `downstream_id` across its buckets.
pub open spec fn admitted_total(rt: Seq<(BucketKey, BucketView)>, downstream_id: Seq<char>) -> nat
    decreases rt.len(),
{
    if rt.len() == 0 {
        0
    } else {
        admitted_total(rt.drop_last(), downstream_id) + if rt.last().0.0 == downstream_id {
            rt.last().1.0.len()
        } else {
            0
        }
    }
}

/// The name of the matched model group, empty for none.
pub open spec fn group_name_of(group: Option<&ModelConcurrencyGroup>) -> Seq<char> {
    match group {
        Some(g) => g.name@,
        None => Seq::empty(),
    }
}

/// A limit, at least one.
pub open spec fn at_least_one(n: u32) -> u32 {
    if n == 0 {
        1
    } else {
        n
    }
}

/// What a rate-limited admission does (see
/// `try_reserve_downstream_concurrency`): the runtime goes from `before` to
/// `after` and the result is `r`.
pub open spec fn concurrency_reserved(
    before: Seq<(BucketKey, BucketView)>,
    after: Seq<(BucketKey, BucketView)>,
    downstream: DownstreamConfig,
    group: Option<&ModelConcurrencyGroup>,
    lease_ttl_seconds: u64,
    now_ms: u64,
    r: Result<DownstreamConcurrencyLease, DownstreamAdmissionRejection>,
) -> bool {
    let name = group_name_of(group);
    let key = (downstream.id@, name);
    let rt1 = match group {
        Some(_) => with_pruned_bucket(before, key, now_ms),
        None => before,
    };
    let limit = at_least_one(downstream.max_concurrency);
    let b = pruned_bucket(bucket_or_empty(rt1, key), now_ms);
    if group is Some && bucket_or_empty(rt1, key).0.len() >= at_least_one(group->Some_0.max_concurrency) {
        &&& after == rt1
        &&& r matches Err(DownstreamAdmissionRejection::ConcurrencyLimitExceeded { retry_after_seconds, limit: l, group: g })
        &&& r->Err_0->ConcurrencyLimitExceeded_retry_after_seconds == 1
        &&& r->Err_0->ConcurrencyLimitExceeded_limit == at_least_one(group->Some_0.max_concurrency)
        &&& r->Err_0->ConcurrencyLimitExceeded_group matches Some(n) && n@ == name
    } else if admitted_total(rt1, downstream.id@) >= limit {
        &&& after == rt1
        &&& r matches Err(DownstreamAdmissionRejection::ConcurrencyLimitExceeded { retry_after_seconds, limit: l, group: g })
        &&& r->Err_0->ConcurrencyLimitExceeded_retry_after_seconds == 1
        &&& r->Err_0->ConcurrencyLimitExceeded_limit == limit
        &&& if name.len() == 0 {
            r->Err_0->ConcurrencyLimitExceeded_group is None
        } else {
            r->Err_0->ConcurrencyLimitExceeded_group matches Some(n) && n@ == name
        }
    } else {
        &&& r matches Ok(l)
        &&& r->Ok_0.downstream_id@ == downstream.id@
        &&& r->Ok_0.group_name@ == name
        &&& r->Ok_0.lease_id is Some
        &&& after == with_entry(
            rt1,
            key,
            (with_entry(b.0, r->Ok_0.lease_id->Some_0@, add_or_max(now_ms, lease_duration_ms(lease_ttl_seconds))), b.1),
        )
    }
}

proof fn lemma_filter_no_duplicates<A>(s: Seq<A>, p: spec_fn(A) -> bool)
    requires
        s.no_duplicates(),
    ensures
        s.filter(p).no_duplicates(),
        forall|x: A| #[trigger] s.filter(p).contains(x) ==> s.contains(x),
    decreases s.len(),
{
    reveal(Seq::filter);
    if s.len() > 0 {
        let b = s.drop_last();
        assert(b.no_duplicates()) by {
            assert forall|x: int, y: int| 0 <= x < b.len() && 0 <= y < b.len() && x != y implies b[x] != b[y] by {
                assert(b[x] == s[x] && b[y] == s[y]);
            }
        }
        lemma_filter_no_duplicates(b, p);
        let f = b.filter(p);
        assert forall|x: A| #[trigger] b.contains(x) implies s.contains(x) by {
            let j = choose|j: int| 0 <= j < b.len() && b[j] == x;
            assert(s[j] == b[j]);
        }
        if p(s.last()) {
            let g = f.push(s.last());
            assert(s.filter(p) == g);
            if f.contains(s.last()) {
                assert(b.contains(s.last()));
                let j = choose|j: int| 0 <= j < b.len() && b[j] == s.last();
                assert(s[j] == b[j]);
                assert(s[s.len() - 1] == s.last());
            }
            assert forall|x: int, y: int| 0 <= x < g.len() && 0 <= y < g.len() && x != y implies g[x] != g[y] by {
                if x < f.len() && y < f.len() {
                    assert(g[x] == f[x] && g[y] == f[y]);
                } else if x < f.len() {
                    assert(g[x] == f[x]);
                    assert(f.contains(f[x]));
                } else if y < f.len() {
                    assert(g[y] == f[y]);
                    assert(f.contains(f[y]));
                }
            }
            assert forall|x: A| #[trigger] g.contains(x) implies s.contains(x) by {
                let j = choose|j: int| 0 <= j < g.len() && g[j] == x;
                if j < f.len() {
                    assert(g[j] == f[j]);
                    assert(f.contains(x));
                } else {
                    assert(s[s.len() - 1] == s.last());
                }
            }
        } else {
            assert(s.filter(p) == f);
        }
    }
}

proof fn lemma_pruned_wf(b: BucketView, now_ms: u64)
    requires
        bucket_wf(b),
    ensures
        bucket_wf(pruned_bucket(b, now_ms)),
{
    lemma_filter_distinct(b.0, alive_after(now_ms));
    lemma_filter_no_duplicates(b.1, admitted_in(live_leases(b.0, now_ms)));
}

proof fn lemma_admitted_total_take(rt: Seq<(BucketKey, BucketView)>, id: Seq<char>, i: int)
    requires
        0 <= i < rt.len(),
    ensures
        admitted_total(rt.take(i + 1), id) == admitted_total(rt.take(i), id) + if rt[i].0.0 == id {
            rt[i].1.0.len()
        } else {
            0
        },
{
    assert(rt.take(i + 1).drop_last() =~= rt.take(i));
    assert(rt.take(i + 1).last() == rt[i]);
}

/// Sets lease `id` to expire at `expiry` in `st`.
fn admit_lease(st: &mut DownstreamLeaseState, id: String, expiry: u64)
    requires
        bucket_wf(bucket_view(*old(st))),
    ensures
        bucket_wf(bucket_view(*final(st))),
        bucket_view(*final(st)) == (with_entry(bucket_view(*old(st)).0, id@, expiry), bucket_view(*old(st)).1),
{
    let ghost a0 = admitted_view(st.admitted@);
    let mut j: usize = 0;
    while j < st.admitted.len()
        invariant
            j <= st.admitted@.len(),
            a0 == admitted_view(st.admitted@),
            a0 == admitted_view(old(st).admitted@),
            st.waiting@ == old(st).waiting@,
            bucket_wf(bucket_view(*old(st))),
            distinct_keys(a0),
            forall|t: int| 0 <= t < j ==> (#[trigger] a0[t]).0 != id@,
        decreases st.admitted@.len() - j,
    {
        if str_eq(st.admitted[j].0.as_str(), id.as_str()) {
            proof {
                assert(a0[j as int].0 == id@);
                lemma_entry_index(a0, j as int);
                lemma_as_map_update(a0, j as int, expiry);
            }
            st.admitted.set(j, (id, expiry));
            assert(admitted_view(st.admitted@) =~= a0.update(j as int, (id@, expiry)));
            return;
        }
        j += 1;
    }
    assert(!contains_key(a0, id@));
    proof {
        lemma_as_map_push(a0, id@, expiry);
    }
    let ghost idv = id@;
    st.admitted.push((id, expiry));
    assert(admitted_view(st.admitted@) =~= a0.push((idv, expiry)));
}

proof fn lemma_update_wf(e: Seq<(BucketKey, BucketView)>, i: int, b: BucketView)
    requires
        distinct_keys(e),
        forall|j: int| 0 <= j < e.len() ==> bucket_wf(#[trigger] e[j].1),
        0 <= i < e.len(),
        bucket_wf(b),
    ensures
        distinct_keys(e.update(i, (e[i].0, b))),
        forall|j: int| 0 <= j < e.len() ==> bucket_wf(#[trigger] e.update(i, (e[i].0, b))[j].1),
{
    lemma_as_map_update(e, i, b);
    assert forall|j: int| 0 <= j < e.len() implies bucket_wf(#[trigger] e.update(i, (e[i].0, b))[j].1) by {
        if j != i {
            assert(e.update(i, (e[i].0, b))[j] == e[j]);
        }
    }
}

/// The bucket after lease `id` is released: dropped from the admitted and
/// from the waiting leases.
pub open spec fn released(b: BucketView, id: Seq<char>) -> BucketView {
    (without_entry(b.0, id), b.1.filter(other_than(id)))
}

pub open spec fn other_than(id: Seq<char>) -> spec_fn(Seq<char>) -> bool {
    |x: Seq<char>| x != id
}

pub open spec fn is_empty_bucket(b: BucketView) -> bool {
    b.0.len() == 0 && b.1.len() == 0
}

pub open spec fn not_of(downstream_id: Seq<char>) -> spec_fn((BucketKey, BucketView)) -> bool {
    |e: (BucketKey, BucketView)| e.0.0 != downstream_id
}

/// The buckets with every non-empty bucket of `downstream_id` pruned.
pub open spec fn pruned_for(rt: Seq<(BucketKey, BucketView)>, downstream_id: Seq<char>, now_ms: u64) -> Seq<(BucketKey, BucketView)> {
    Seq::new(
        rt.len(),
        |j: int|
            if rt[j].0.0 == downstream_id && !is_empty_bucket(rt[j].1) {
                (rt[j].0, pruned_bucket(rt[j].1, now_ms))
            } else {
                rt[j]
            },
    )
}

/// Every bucket pruned.
pub open spec fn pruned_all(rt: Seq<(BucketKey, BucketView)>, now_ms: u64) -> Seq<(BucketKey, BucketView)> {
    Seq::new(rt.len(), |j: int| (rt[j].0, pruned_bucket(rt[j].1, now_ms)))
}

/// `a + b`, at most `u32::MAX`.
pub open spec fn add_capped(a: u32, b: nat) -> u32 {
    if a + b > u32::MAX {
        u32::MAX
    } else {
        (a + b) as u32
    }
}

/// The admitted (or, with `waiting`, the waiting) leases of `downstream_id`
/// across its buckets, each bucket's count and the total capped at
/// `u32::MAX`.
pub open spec fn capped_total(rt: Seq<(BucketKey, BucketView)>, downstream_id: Seq<char>, waiting: bool) -> u32
    decreases rt.len(),
{
    if rt.len() == 0 {
        0
    } else {
        let rest = capped_total(rt.drop_last(), downstream_id, waiting);
        if rt.last().0.0 == downstream_id {
            add_capped(rest, if waiting { rt.last().1.1.len() } else { rt.last().1.0.len() })
        } else {
            rest
        }
    }
}

proof fn lemma_capped_total_take(rt: Seq<(BucketKey, BucketView)>, id: Seq<char>, waiting: bool, i: int)
    requires
        0 <= i < rt.len(),
    ensures
        capped_total(rt.take(i + 1), id, waiting) == if rt[i].0.0 == id {
            add_capped(capped_total(rt.take(i), id, waiting), if waiting { rt[i].1.1.len() } else { rt[i].1.0.len() })
        } else {
            capped_total(rt.take(i), id, waiting)
        },
{
    assert(rt.take(i + 1).drop_last() =~= rt.take(i));
    assert(rt.take(i + 1).last() == rt[i]);
}

/// Drops `id` from the waiting ids.
fn unmark_in(st: &mut DownstreamLeaseState, id: &str)
    requires
        bucket_wf(bucket_view(*old(st))),
    ensures
        bucket_wf(bucket_view(*final(st))),
        bucket_view(*final(st)) == (bucket_view(*old(st)).0, bucket_view(*old(st)).1.filter(other_than(id@))),
{
    let ghost w0 = views(st.waiting@);
    let mut kept: Vec<String> = Vec::new();
    let mut j: usize = 0;
    assert(views(kept@) =~= w0.take(0).filter(other_than(id@))) by {
        reveal(Seq::filter);
    }
    while j < st.waiting.len()
        invariant
            j <= st.waiting@.len(),
            w0 == views(st.waiting@),
            views(kept@) == w0.take(j as int).filter(other_than(id@)),
        decreases st.waiting@.len() - j,
    {
        proof {
            crate::lease_table::lemma_filter_take(w0, other_than(id@), j as int);
        }
        if !str_eq(st.waiting[j].as_str(), id) {
            let x = st.waiting[j].clone();
            let ghost before = kept@;
            kept.push(x);
            assert(views(kept@) =~= views(before).push(w0[j as int]));
        }
        j += 1;
    }
    assert(w0.take(w0.len() as int) =~= w0);
    proof {
        lemma_filter_no_duplicates(w0, other_than(id@));
    }
    st.waiting = kept;
}

/// The position of lease `id` among the admitted leases.
fn admitted_position(st: &DownstreamLeaseState, id: &str) -> (r: Option<usize>)
    requires
        distinct_keys(admitted_view(st.admitted@)),
    ensures
        entry_index(admitted_view(st.admitted@), id@) == match r {
            Some(j) => Some(j as int),
            None => None::<int>,
        },
        r matches Some(j) ==> j < st.admitted@.len() && st.admitted@[j as int].0@ == id@,
{
    let ghost a0 = admitted_view(st.admitted@);
    let mut j: usize = 0;
    while j < st.admitted.len()
        invariant
            j <= st.admitted@.len(),
            a0 == admitted_view(st.admitted@),
            distinct_keys(a0),
            forall|t: int| 0 <= t < j ==> (#[trigger] a0[t]).0 != id@,
        decreases st.admitted@.len() - j,
    {
        if str_eq(st.admitted[j].0.as_str(), id) {
            proof {
                assert(a0[j as int].0 == id@);
                lemma_entry_index(a0, j as int);
            }
            return Some(j);
        }
        j += 1;
    }
    assert(!contains_key(a0, id@));
    None
}

/// Drops lease `id` from the admitted and from the waiting leases.
fn release_in(st: &mut DownstreamLeaseState, id: &str)
    requires
        bucket_wf(bucket_view(*old(st))),
    ensures
        bucket_wf(bucket_view(*final(st))),
        bucket_view(*final(st)) == released(bucket_view(*old(st)), id@),
{
    let ghost a0 = admitted_view(st.admitted@);
    match admitted_position(st, id) {
        Some(j) => {
            proof {
                lemma_as_map_remove(a0, j as int);
            }
            st.admitted.remove(j);
            assert(admitted_view(st.admitted@) =~= a0.remove(j as int));
        },
        None => {},
    }
    unmark_in(st, id);
}

proof fn lemma_with_entry_twice<K, V>(a: Seq<(K, V)>, k: K, v1: V, v2: V)
    requires
        distinct_keys(a),
    ensures
        with_entry(with_entry(a, k, v1), k, v2) == with_entry(a, k, v2),
        distinct_keys(with_entry(a, k, v1)),
{
    match entry_index(a, k) {
        Some(i) => {
            let j = choose|j: int| 0 <= j < a.len() && (#[trigger] a[j]).0 == k;
            assert(a[i].0 == k);
            lemma_as_map_update(a, i, v1);
            assert(a.update(i, (a[i].0, v1)) == a.update(i, (k, v1)));
            lemma_entry_index(a.update(i, (k, v1)), i);
            assert(a.update(i, (k, v1)).update(i, (k, v2)) =~= a.update(i, (k, v2)));
        },
        None => {
            lemma_as_map_push(a, k, v1);
            lemma_entry_index(a.push((k, v1)), a.len() as int);
            assert(a.push((k, v1)).update(a.len() as int, (k, v2)) =~= a.push((k, v2)));
        },
    }
}

proof fn lemma_admitted_total_update(rt: Seq<(BucketKey, BucketView)>, i: int, b: BucketView, d: Seq<char>)
    requires
        0 <= i < rt.len(),
    ensures
        admitted_total(rt.update(i, (rt[i].0, b)), d) + (if rt[i].0.0 == d { rt[i].1.0.len() } else { 0 }) == admitted_total(rt, d)
            + (if rt[i].0.0 == d { b.0.len() } else { 0 }),
    decreases rt.len(),
{
    let u = rt.update(i, (rt[i].0, b));
    if i == rt.len() - 1 {
        assert(u.drop_last() =~= rt.drop_last());
    } else {
        assert(u.drop_last() =~= rt.drop_last().update(i, (rt[i].0, b)));
        lemma_admitted_total_update(rt.drop_last(), i, b, d);
        assert(u.last() == rt.last());
    }
}

proof fn lemma_with_entry_len<K, V>(a: Seq<(K, V)>, k: K, v: V)
    ensures
        with_entry(a, k, v).len() <= a.len() + 1,
{
}

/// An admission keeps its bucket and its downstream within their caps: it
/// adds at most one lease to the pruned bucket, so a downstream that held
/// fewer than `limit` leases in all holds at most `limit` after it.
pub proof fn law_admission_adds_at_most_one(
    rt: Seq<(BucketKey, BucketView)>,
    key: BucketKey,
    id: Seq<char>,
    expiry: u64,
    now_ms: u64,
    limit: nat,
)
    requires
        distinct_keys(rt),
        admitted_total(rt, key.0) < limit,
    ensures
        ({
            let p = pruned_bucket(bucket_or_empty(rt, key), now_ms);
            let nb = (with_entry(p.0, id, expiry), p.1);
            &&& nb.0.len() <= p.0.len() + 1
            &&& p.0.len() <= bucket_or_empty(rt, key).0.len()
            &&& admitted_total(with_entry(rt, key, nb), key.0) <= limit
        }),
{
    let b = bucket_or_empty(rt, key);
    let p = pruned_bucket(b, now_ms);
    let nb = (with_entry(p.0, id, expiry), p.1);
    lemma_with_entry_len(p.0, id, expiry);
    b.0.lemma_filter_len(alive_after(now_ms));
    match entry_index(rt, key) {
        Some(i) => {
            let j = choose|j: int| 0 <= j < rt.len() && (#[trigger] rt[j]).0 == key;
            assert(rt[i].0 == key);
            assert(rt.update(i, (key, nb)) == rt.update(i, (rt[i].0, nb)));
            lemma_admitted_total_update(rt, i, nb, key.0);
        },
        None => {
            assert(rt.push((key, nb)).drop_last() =~= rt);
            assert(b.0 =~= Seq::<(Seq<char>, u64)>::empty());
        },
    }
}

/// What expiring `lease` did to the buckets and its release state: nothing,
/// reporting false, for a lease without an id or one not active; otherwise
/// its release (see `release_downstream_concurrency`), after which it is
/// released.
pub open spec fn lease_expired(
    before: Seq<(BucketKey, BucketView)>,
    after: Seq<(BucketKey, BucketView)>,
    state_before: LeaseReleaseState,
    state_after: LeaseReleaseState,
    lease: DownstreamConcurrencyLease,
    r: bool,
) -> bool {
    match lease.lease_id {
        Some(id) if state_before == LeaseReleaseState::Active => {
            &&& state_after == LeaseReleaseState::Released
            &&& match entry_index(before, (lease.downstream_id@, lease.group_name@)) {
                None => !r && after == before,
                Some(i) => {
                    let b = released(before[i].1, id@);
                    if is_empty_bucket(b) {
                        r && after == before.remove(i)
                    } else {
                        !r && after == before.update(i, (before[i].0, b))
                    }
                },
            }
        },
        _ => !r && after == before && state_after == state_before,
    }
}

/// Expiring a lease a second time reports false and changes nothing.
pub proof fn law_second_expiry_is_a_no_op(
    rt0: Seq<(BucketKey, BucketView)>,
    rt1: Seq<(BucketKey, BucketView)>,
    rt2: Seq<(BucketKey, BucketView)>,
    s0: LeaseReleaseState,
    s1: LeaseReleaseState,
    s2: LeaseReleaseState,
    lease: DownstreamConcurrencyLease,
    r1: bool,
    r2: bool,
)
    requires
        lease_expired(rt0, rt1, s0, s1, lease, r1),
        lease_expired(rt1, rt2, s1, s2, lease, r2),
    ensures
        !r2,
        rt2 == rt1,
        s2 == s1,
{
}


/// A released lease is neither admitted nor waiting any more.
pub proof fn law_released_lease_is_gone(b: BucketView, id: Seq<char>)
    requires
        bucket_wf(b),
    ensures
        !contains_key(released(b, id).0, id),
        !released(b, id).1.contains(id),
{
    match entry_index(b.0, id) {
        Some(i) => {
            let j = choose|j: int| 0 <= j < b.0.len() && (#[trigger] b.0[j]).0 == id;
            assert(b.0[i].0 == id);
            lemma_as_map_remove(b.0, i);
            crate::keyed::lemma_as_map_index(b.0, i);
            if contains_key(b.0.remove(i), id) {
                let t = choose|t: int| 0 <= t < b.0.remove(i).len() && (#[trigger] b.0.remove(i)[t]).0 == id;
                crate::keyed::lemma_as_map_index(b.0.remove(i), t);
            }
        },
        None => {},
    }
    if released(b, id).1.contains(id) {
        let t = choose|t: int| 0 <= t < released(b, id).1.len() && released(b, id).1[t] == id;
        b.1.lemma_filter_pred(other_than(id), t);
    }
}

impl DownstreamRuntime {
    /// Each bucket once, each bucket well formed.
    pub closed spec fn wf(&self) -> bool {
        &&& distinct_keys(self@)
        &&& forall|i: int| 0 <= i < self@.len() ==> bucket_wf(#[trigger] self@[i].1)
    }

    /// No buckets.
    pub fn new() -> (r: Self)
        ensures
            r.wf(),
            r@ == Seq::<(BucketKey, BucketView)>::empty(),
    {
        let r = DownstreamRuntime { buckets: Vec::new() };
        assert(r@ =~= Seq::<(BucketKey, BucketView)>::empty());
        r
    }

    fn bucket_position(&self, downstream_id: &str, group_name: &str) -> (r: Option<usize>)
        requires
            self.wf(),
        ensures
            entry_index(self@, (downstream_id@, group_name@)) == match r {
                Some(i) => Some(i as int),
                None => None::<int>,
            },
            r matches Some(i) ==> i < self@.len() && self@[i as int].0 == (downstream_id@, group_name@),
    {
        let ghost key = (downstream_id@, group_name@);
        let mut i: usize = 0;
        while i < self.buckets.len()
            invariant
                i <= self.buckets@.len(),
                self.wf(),
                key == (downstream_id@, group_name@),
                forall|j: int| 0 <= j < i ==> (#[trigger] self@[j]).0 != key,
            decreases self.buckets@.len() - i,
        {
            if str_eq(self.buckets[i].0.0.as_str(), downstream_id) && str_eq(self.buckets[i].0.1.as_str(), group_name) {
                proof {
                    assert(self@[i as int].0 == key);
                    lemma_entry_index(self@, i as int);
                }
                return Some(i);
            }
            i += 1;
        }
        assert(!contains_key(self@, key));
        None
    }

    /// Prunes the bucket of (`downstream_id`, `group_name`) at `now_ms`,
    /// adding an empty one when there is none; its position.
    fn pruned_bucket_at(&mut self, downstream_id: &str, group_name: &str, now_ms: u64) -> (r: usize)
        requires
            old(self).wf(),
        ensures
            final(self).wf(),
            r < final(self)@.len(),
            final(self)@[r as int].0 == (downstream_id@, group_name@),
            entry_index(final(self)@, (downstream_id@, group_name@)) == Some(r as int),
            final(self)@ == with_pruned_bucket(old(self)@, (downstream_id@, group_name@), now_ms),
    {
        let ghost e0 = self@;
        let ghost key = (downstream_id@, group_name@);
        match self.bucket_position(downstream_id, group_name) {
            Some(i) => {
                let ghost raw0 = self.buckets@;
                let ghost b0 = e0[i as int].1;
                let (k, mut st) = self.buckets.remove(i);
                assert(bucket_view(st) == b0 && (k.0@, k.1@) == key) by {
                    assert(raw0[i as int] == (k, st));
                }
                st.prune_expired(now_ms);
                let ghost b1 = bucket_view(st);
                assert(b1 == pruned_bucket(b0, now_ms));
                self.buckets.insert(i, (k, st));
                proof {
                    assert(self.buckets@ =~= raw0.update(i as int, (k, st)));
                    assert(self@ =~= e0.update(i as int, (key, b1)));
                    lemma_pruned_wf(b0, now_ms);
                    lemma_update_wf(e0, i as int, b1);
                    lemma_entry_index(self@, i as int);
                }
                i
            },
            None => {
                let ghost raw0 = self.buckets@;
                let st = DownstreamLeaseState::new();
                let k = (owned(downstream_id), owned(group_name));
                proof {
                    assert(bucket_view(st) =~= empty_bucket());
                    assert(pruned_bucket(empty_bucket(), now_ms) =~= empty_bucket()) by {
                        reveal(Seq::filter);
                    }
                    lemma_as_map_push(e0, key, empty_bucket());
                }
                self.buckets.push((k, st));
                let i = self.buckets.len() - 1;
                proof {
                    assert(self@ =~= e0.push((key, empty_bucket())));
                    assert forall|j: int| 0 <= j < self@.len() implies bucket_wf(#[trigger] self@[j].1) by {
                        if j < e0.len() {
                            assert(self@[j] == e0[j]);
                        } else {
                            assert(self@[j].1 =~= empty_bucket());
                        }
                    }
                    lemma_entry_index(self@, i as int);
                }
                i
            },
        }
    }

    fn take_bucket(&mut self, i: usize) -> (r: ((String, String), DownstreamLeaseState))
        requires
            old(self).wf(),
            i < old(self)@.len(),
        ensures
            final(self).buckets@ == old(self).buckets@.remove(i as int),
            r == old(self).buckets@[i as int],
            (r.0.0@, r.0.1@) == old(self)@[i as int].0,
            bucket_view(r.1) == old(self)@[i as int].1,
            bucket_wf(bucket_view(r.1)),
    {
        assert(bucket_wf(self@[i as int].1));
        self.buckets.remove(i)
    }

    fn restore_bucket(
        &mut self,
        i: usize,
        k: (String, String),
        st: DownstreamLeaseState,
        Ghost(raw0): Ghost<Seq<((String, String), DownstreamLeaseState)>>,
    )
        requires
            old(self).buckets@ == raw0.remove(i as int),
            i < raw0.len(),
            distinct_keys(bucket_entries(raw0)),
            forall|j: int| 0 <= j < raw0.len() ==> bucket_wf(#[trigger] bucket_entries(raw0)[j].1),
            (k.0@, k.1@) == bucket_entries(raw0)[i as int].0,
            bucket_wf(bucket_view(st)),
        ensures
            final(self).wf(),
            final(self)@ == bucket_entries(raw0).update(i as int, (bucket_entries(raw0)[i as int].0, bucket_view(st))),
    {
        let ghost e0 = bucket_entries(raw0);
        self.buckets.insert(i, (k, st));
        proof {
            assert(self.buckets@ =~= raw0.update(i as int, (k, st)));
            assert(self@ =~= e0.update(i as int, (e0[i as int].0, bucket_view(st))));
            lemma_update_wf(e0, i as int, bucket_view(st));
        }
    }

    fn admitted_total_capped(&self, downstream_id: &str) -> (r: usize)
        ensures
            r == if admitted_total(self@, downstream_id@) > usize::MAX {
                usize::MAX as nat
            } else {
                admitted_total(self@, downstream_id@)
            },
    {
        let mut acc: usize = 0;
        let mut i: usize = 0;
        while i < self.buckets.len()
            invariant
                i <= self.buckets@.len(),
                acc == if admitted_total(self@.take(i as int), downstream_id@) > usize::MAX {
                    usize::MAX as nat
                } else {
                    admitted_total(self@.take(i as int), downstream_id@)
                },
            decreases self.buckets@.len() - i,
        {
            proof {
                lemma_admitted_total_take(self@, downstream_id@, i as int);
                assert(self@[i as int].1.0.len() == self.buckets@[i as int].1.admitted@.len());
            }
            if str_eq(self.buckets[i].0.0.as_str(), downstream_id) {
                acc = acc.saturating_add(self.buckets[i].1.admitted.len());
            }
            i += 1;
        }
        assert(self@.take(self.buckets@.len() as int) =~= self@);
        acc
    }

    /// Admits a request of `downstream` in the bucket of its matched model
    /// `group`, at `now_ms`. A key without rate limiting is admitted with no
    /// lease. Otherwise the group's bucket is pruned and refused when it
    /// holds the group's cap (at least one) of leases; then the downstream
    /// is refused when its buckets hold its own cap (at least one) in all;
    /// else a lease under a fresh random id is admitted for the configured
    /// time (at least a minute).
    pub fn try_reserve_downstream_concurrency(
        &mut self,
        downstream: &DownstreamConfig,
        group: Option<&ModelConcurrencyGroup>,
        lease_ttl_seconds: u64,
        now_ms: u64,
    ) -> (r: Result<DownstreamConcurrencyLease, DownstreamAdmissionRejection>)
        requires
            old(self).wf(),
        ensures
            final(self).wf(),
            !downstream.rate_limit_enabled ==> final(self)@ == old(self)@ && (r matches Ok(l) && l.downstream_id@
                == downstream.id@ && l.group_name@ == Seq::<char>::empty() && l.lease_id is None),
            downstream.rate_limit_enabled ==> concurrency_reserved(old(self)@, final(self)@, *downstream, group, lease_ttl_seconds, now_ms, r),
    {
        if !downstream.rate_limit_enabled {
            return Ok(DownstreamConcurrencyLease { downstream_id: downstream.id.clone(), group_name: String::new(), lease_id: None });
        }
        let ghost e0 = self@;
        let name: String = match group {
            Some(g) => g.name.clone(),
            None => String::new(),
        };
        assert(name@ == group_name_of(group));
        let ghost key = (downstream.id@, name@);
        match group {
            Some(g) => {
                let cap: u32 = if g.max_concurrency == 0 {
                    1
                } else {
                    g.max_concurrency
                };
                let i = self.pruned_bucket_at(downstream.id.as_str(), name.as_str(), now_ms);
                if self.buckets[i].1.admitted.len() >= cap as usize {
                    assert(self@[i as int].1.0.len() == self.buckets@[i as int].1.admitted@.len());
                    return Err(DownstreamAdmissionRejection::ConcurrencyLimitExceeded { retry_after_seconds: 1, limit: cap, group: Some(name) });
                }
                assert(self@[i as int].1.0.len() == self.buckets@[i as int].1.admitted@.len());
            },
            None => {},
        }
        let ghost rt1 = self@;
        let limit: u32 = if downstream.max_concurrency == 0 {
            1
        } else {
            downstream.max_concurrency
        };
        let total = self.admitted_total_capped(downstream.id.as_str());
        if total >= limit as usize {
            let unnamed = crate::text::chars_of(name.as_str()).len() == 0;
            return Err(
                DownstreamAdmissionRejection::ConcurrencyLimitExceeded {
                    retry_after_seconds: 1,
                    limit,
                    group: if unnamed {
                        None
                    } else {
                        Some(name)
                    },
                },
            );
        }
        let duration: u64 = match lease_ttl_seconds.checked_mul(1000) {
            Some(d) => if d < 60_000 {
                60_000
            } else {
                d
            },
            None => u64::MAX,
        };
        assert(duration == lease_duration_ms(lease_ttl_seconds));
        let lease_id = random_token();
        let i = self.pruned_bucket_at(downstream.id.as_str(), name.as_str(), now_ms);
        let ghost rt2 = self@;
        let ghost raw2 = self.buckets@;
        let (k, mut st) = self.take_bucket(i);
        admit_lease(&mut st, lease_id.clone(), now_ms.saturating_add(duration));
        self.restore_bucket(i, k, st, Ghost(raw2));
        proof {
            lemma_with_entry_twice(rt1, key, pruned_bucket(bucket_or_empty(rt1, key), now_ms), bucket_view(st));
            assert(rt2[i as int].1 == pruned_bucket(bucket_or_empty(rt1, key), now_ms));
            assert(self@ == with_entry(rt2, key, bucket_view(st))) by {
                assert(entry_index(rt2, key) == Some(i as int));
            }
        }
        Ok(DownstreamConcurrencyLease { downstream_id: downstream.id.clone(), group_name: name, lease_id: Some(lease_id) })
    }

    fn remove_bucket_at(&mut self, i: usize, Ghost(raw0): Ghost<Seq<((String, String), DownstreamLeaseState)>>)
        requires
            old(self).buckets@ == raw0.remove(i as int),
            i < raw0.len(),
            distinct_keys(bucket_entries(raw0)),
            forall|j: int| 0 <= j < raw0.len() ==> bucket_wf(#[trigger] bucket_entries(raw0)[j].1),
        ensures
            final(self).wf(),
            final(self)@ == bucket_entries(raw0).remove(i as int),
    {
        let ghost e0 = bucket_entries(raw0);
        proof {
            assert(self@ =~= e0.remove(i as int));
            lemma_as_map_remove(e0, i as int);
            assert forall|j: int| 0 <= j < self@.len() implies bucket_wf(#[trigger] self@[j].1) by {
                if j < i {
                    assert(self@[j] == e0[j]);
                } else {
                    assert(self@[j] == e0[j + 1]);
                }
            }
        }
    }

    /// Releases `lease`: its id leaves the admitted and the waiting leases
    /// of its bucket, and a bucket left empty is dropped; whether one was.
    pub fn release_downstream_concurrency(&mut self, lease: &DownstreamConcurrencyLease) -> (r: bool)
        requires
            old(self).wf(),
        ensures
            final(self).wf(),
            match lease.lease_id {
                None => !r && final(self)@ == old(self)@,
                Some(id) => match entry_index(old(self)@, (lease.downstream_id@, lease.group_name@)) {
                    None => !r && final(self)@ == old(self)@,
                    Some(i) => {
                        let b = released(old(self)@[i].1, id@);
                        if is_empty_bucket(b) {
                            r && final(self)@ == old(self)@.remove(i)
                        } else {
                            !r && final(self)@ == old(self)@.update(i, (old(self)@[i].0, b))
                        }
                    },
                },
            },
    {
        let id = match &lease.lease_id {
            Some(id) => id,
            None => {
                return false;
            },
        };
        let i = match self.bucket_position(lease.downstream_id.as_str(), lease.group_name.as_str()) {
            Some(i) => i,
            None => {
                return false;
            },
        };
        let ghost raw0 = self.buckets@;
        let (k, mut st) = self.take_bucket(i);
        release_in(&mut st, id.as_str());
        if st.admitted.len() == 0 && st.waiting.len() == 0 {
            self.remove_bucket_at(i, Ghost(raw0));
            true
        } else {
            self.restore_bucket(i, k, st, Ghost(raw0));
            false
        }
    }

    /// Releases `lease` once, at once, under its shared release state: a
    /// lease without an id, or one released or being released already, is
    /// left alone and reports false; otherwise it is released (see
    /// `release_downstream_concurrency`), its state becomes released, and
    /// whether its bucket was emptied and dropped comes back.
    pub fn expire_downstream_request_lease(&mut self, lease: &DownstreamConcurrencyLease, state: &mut LeaseReleaseState) -> (r:
        bool)
        requires
            old(self).wf(),
        ensures
            final(self).wf(),
            lease_expired(old(self)@, final(self)@, *old(state), *final(state), *lease, r),
    {
        if lease.lease_id.is_none() {
            return false;
        }
        let guard = match LeaseReleaseGuard::acquire(state) {
            Ok(Some(g)) => g,
            _ => {
                return false;
            },
        };
        let removed = self.release_downstream_concurrency(lease);
        guard.complete(state);
        removed
    }

    /// Extends `lease` to the configured time (at least a minute) from
    /// `now_ms`, when its bucket still admits it.
    pub fn renew_downstream_concurrency(&mut self, lease: &DownstreamConcurrencyLease, lease_ttl_seconds: u64, now_ms: u64)
        requires
            old(self).wf(),
        ensures
            final(self).wf(),
            final(self)@ == match lease.lease_id {
                None => old(self)@,
                Some(id) => match entry_index(old(self)@, (lease.downstream_id@, lease.group_name@)) {
                    None => old(self)@,
                    Some(i) => if contains_key(old(self)@[i].1.0, id@) {
                        old(self)@.update(
                            i,
                            (
                                old(self)@[i].0,
                                (
                                    with_entry(old(self)@[i].1.0, id@, add_or_max(now_ms, lease_duration_ms(lease_ttl_seconds))),
                                    old(self)@[i].1.1,
                                ),
                            ),
                        )
                    } else {
                        old(self)@
                    },
                },
            },
    {
        let id = match &lease.lease_id {
            Some(id) => id,
            None => {
                return;
            },
        };
        let i = match self.bucket_position(lease.downstream_id.as_str(), lease.group_name.as_str()) {
            Some(i) => i,
            None => {
                return;
            },
        };
        assert(bucket_wf(self@[i as int].1));
        match admitted_position(&self.buckets[i].1, id.as_str()) {
            Some(_) => {},
            None => {
                assert(self@[i as int].1.0 == admitted_view(self.buckets@[i as int].1.admitted@));
                return;
            },
        }
        let duration: u64 = match lease_ttl_seconds.checked_mul(1000) {
            Some(d) => if d < 60_000 {
                60_000
            } else {
                d
            },
            None => u64::MAX,
        };
        let ghost raw0 = self.buckets@;
        let (k, mut st) = self.take_bucket(i);
        admit_lease(&mut st, id.clone(), now_ms.saturating_add(duration));
        self.restore_bucket(i, k, st, Ghost(raw0));
    }

    /// Marks `lease` as waiting on an upstream, after pruning its bucket at
    /// `now_ms`; an error when the bucket is gone or no longer admits it.
    pub fn mark_downstream_waiting(&mut self, lease: &DownstreamConcurrencyLease, now_ms: u64) -> (r: Result<(), RuntimeCoordinationError>)
        requires
            old(self).wf(),
        ensures
            final(self).wf(),
            match lease.lease_id {
                None => r is Ok && final(self)@ == old(self)@,
                Some(id) => match entry_index(old(self)@, (lease.downstream_id@, lease.group_name@)) {
                    None => r is Err && final(self)@ == old(self)@,
                    Some(i) => {
                        let p = pruned_bucket(old(self)@[i].1, now_ms);
                        if !contains_key(p.0, id@) {
                            r is Err && final(self)@ == old(self)@.update(i, (old(self)@[i].0, p))
                        } else {
                            r is Ok && final(self)@ == old(self)@.update(
                                i,
                                (old(self)@[i].0, (p.0, if p.1.contains(id@) { p.1 } else { p.1.push(id@) })),
                            )
                        }
                    },
                },
            },
    {
        let id = match &lease.lease_id {
            Some(id) => id,
            None => {
                return Ok(());
            },
        };
        let i = match self.bucket_position(lease.downstream_id.as_str(), lease.group_name.as_str()) {
            Some(i) => i,
            None => {
                return Err(RuntimeCoordinationError);
            },
        };
        let ghost raw0 = self.buckets@;
        let (k, mut st) = self.take_bucket(i);
        let ghost b0 = bucket_view(st);
        st.prune_expired(now_ms);
        proof {
            lemma_pruned_wf(b0, now_ms);
        }
        match admitted_position(&st, id.as_str()) {
            None => {
                self.restore_bucket(i, k, st, Ghost(raw0));
                Err(RuntimeCoordinationError)
            },
            Some(_) => {
                let ghost w0 = views(st.waiting@);
                if !contains_text(&st.waiting, &chars_of(id.as_str())) {
                    st.waiting.push(id.clone());
                    proof {
                        assert(views(st.waiting@) =~= w0.push(id@));
                        assert forall|x: int, y: int| 0 <= x < w0.len() + 1 && 0 <= y < w0.len() + 1 && x != y implies w0.push(id@)[x] != w0.push(id@)[y] by {
                            if x < w0.len() && y < w0.len() {
                            } else if x < w0.len() {
                                assert(w0.contains(w0[x]));
                            } else {
                                assert(w0.contains(w0[y]));
                            }
                        }
                    }
                }
                self.restore_bucket(i, k, st, Ghost(raw0));
                Ok(())
            },
        }
    }

    /// Clears `lease`'s waiting mark.
    pub fn unmark_downstream_waiting(&mut self, lease: &DownstreamConcurrencyLease)
        requires
            old(self).wf(),
        ensures
            final(self).wf(),
            final(self)@ == match lease.lease_id {
                None => old(self)@,
                Some(id) => match entry_index(old(self)@, (lease.downstream_id@, lease.group_name@)) {
                    None => old(self)@,
                    Some(i) => old(self)@.update(i, (old(self)@[i].0, (old(self)@[i].1.0, old(self)@[i].1.1.filter(other_than(id@))))),
                },
            },
    {
        let id = match &lease.lease_id {
            Some(id) => id,
            None => {
                return;
            },
        };
        let i = match self.bucket_position(lease.downstream_id.as_str(), lease.group_name.as_str()) {
            Some(i) => i,
            None => {
                return;
            },
        };
        let ghost raw0 = self.buckets@;
        let (k, mut st) = self.take_bucket(i);
        unmark_in(&mut st, id.as_str());
        self.restore_bucket(i, k, st, Ghost(raw0));
    }

    /// Prunes `downstream_id`'s non-empty buckets at `now_ms` and counts its
    /// admitted and waiting leases (each capped at `u32::MAX`); an error
    /// when more wait than are admitted.
    pub fn downstream_runtime_snapshot(&mut self, downstream_id: &str, now_ms: u64) -> (r: Result<DownstreamRuntimeCounts, RuntimeCoordinationError>)
        requires
            old(self).wf(),
        ensures
            final(self).wf(),
            final(self)@ == pruned_for(old(self)@, downstream_id@, now_ms),
            ({
                let a = capped_total(final(self)@, downstream_id@, false);
                let w = capped_total(final(self)@, downstream_id@, true);
                if a >= w {
                    r == Ok::<DownstreamRuntimeCounts, RuntimeCoordinationError>(
                        DownstreamRuntimeCounts { admitted: a, waiting_upstream: w, running: (a - w) as u32 },
                    )
                } else {
                    r is Err
                }
            }),
    {
        let ghost e0 = self@;
        let ghost target = pruned_for(e0, downstream_id@, now_ms);
        let mut admitted: u32 = 0;
        let mut waiting: u32 = 0;
        let mut i: usize = 0;
        while i < self.buckets.len()
            invariant
                i <= self.buckets@.len(),
                self.wf(),
                self@.len() == e0.len(),
                target == pruned_for(e0, downstream_id@, now_ms),
                forall|j: int| 0 <= j < i ==> #[trigger] self@[j] == target[j],
                forall|j: int| i <= j < e0.len() ==> #[trigger] self@[j] == e0[j],
                admitted == capped_total(target.take(i as int), downstream_id@, false),
                waiting == capped_total(target.take(i as int), downstream_id@, true),
            decreases self.buckets@.len() - i,
        {
            proof {
                lemma_capped_total_take(target, downstream_id@, false, i as int);
                lemma_capped_total_take(target, downstream_id@, true, i as int);
            }
            if str_eq(self.buckets[i].0.0.as_str(), downstream_id) {
                if self.buckets[i].1.admitted.len() != 0 || self.buckets[i].1.waiting.len() != 0 {
                    let ghost raw0 = self.buckets@;
                    let ghost before = self@;
                    let (k, mut st) = self.take_bucket(i);
                    let ghost b0 = bucket_view(st);
                    st.prune_expired(now_ms);
                    proof {
                        lemma_pruned_wf(b0, now_ms);
                    }
                    self.restore_bucket(i, k, st, Ghost(raw0));
                    assert forall|j: int| 0 <= j < e0.len() && j != i implies #[trigger] self@[j] == before[j] by {}
                }
                let na = self.buckets[i].1.admitted.len();
                let nw = self.buckets[i].1.waiting.len();
                let ca: u32 = if na > 0xFFFF_FFFF {
                    0xFFFF_FFFF
                } else {
                    na as u32
                };
                let cw: u32 = if nw > 0xFFFF_FFFF {
                    0xFFFF_FFFF
                } else {
                    nw as u32
                };
                admitted = admitted.saturating_add(ca);
                waiting = waiting.saturating_add(cw);
                assert(self@[i as int].1.0.len() == na && self@[i as int].1.1.len() == nw);
            }
            assert(self@[i as int] == target[i as int]);
            i += 1;
        }
        assert(self@ =~= target);
        assert(target.take(e0.len() as int) =~= target);
        if admitted >= waiting {
            Ok(DownstreamRuntimeCounts { admitted, waiting_upstream: waiting, running: admitted - waiting })
        } else {
            Err(RuntimeCoordinationError)
        }
    }

    /// Prunes every bucket at `now_ms`.
    pub fn prune_all(&mut self, now_ms: u64)
        requires
            old(self).wf(),
        ensures
            final(self).wf(),
            final(self)@ == pruned_all(old(self)@, now_ms),
    {
        let ghost e0 = self@;
        let ghost target = pruned_all(e0, now_ms);
        let mut i: usize = 0;
        while i < self.buckets.len()
            invariant
                i <= self.buckets@.len(),
                self.wf(),
                self@.len() == e0.len(),
                target == pruned_all(e0, now_ms),
                forall|j: int| 0 <= j < i ==> #[trigger] self@[j] == target[j],
                forall|j: int| i <= j < e0.len() ==> #[trigger] self@[j] == e0[j],
            decreases self.buckets@.len() - i,
        {
            let ghost raw0 = self.buckets@;
            let ghost before = self@;
            let (k, mut st) = self.take_bucket(i);
            let ghost b0 = bucket_view(st);
            st.prune_expired(now_ms);
            proof {
                lemma_pruned_wf(b0, now_ms);
            }
            self.restore_bucket(i, k, st, Ghost(raw0));
            assert(self.buckets@.len() == self@.len());
            assert forall|j: int| 0 <= j < e0.len() && j != i implies #[trigger] self@[j] == before[j] by {}
            i += 1;
        }
        assert(self@ =~= target);
    }

    /// `downstream_id`'s admitted and waiting leases across its buckets, each
    /// capped at `u32::MAX`.
    pub fn runtime_counts(&self, downstream_id: &str) -> (r: (u32, u32))
        ensures
            r == (capped_total(self@, downstream_id@, false), capped_total(self@, downstream_id@, true)),
    {
        let mut admitted: u32 = 0;
        let mut waiting: u32 = 0;
        let mut i: usize = 0;
        while i < self.buckets.len()
            invariant
                i <= self.buckets@.len(),
                admitted == capped_total(self@.take(i as int), downstream_id@, false),
                waiting == capped_total(self@.take(i as int), downstream_id@, true),
            decreases self.buckets@.len() - i,
        {
            proof {
                lemma_capped_total_take(self@, downstream_id@, false, i as int);
                lemma_capped_total_take(self@, downstream_id@, true, i as int);
            }
            if str_eq(self.buckets[i].0.0.as_str(), downstream_id) {
                let na = self.buckets[i].1.admitted.len();
                let nw = self.buckets[i].1.waiting.len();
                let ca: u32 = if na > 0xFFFF_FFFF {
                    0xFFFF_FFFF
                } else {
                    na as u32
                };
                let cw: u32 = if nw > 0xFFFF_FFFF {
                    0xFFFF_FFFF
                } else {
                    nw as u32
                };
                admitted = admitted.saturating_add(ca);
                waiting = waiting.saturating_add(cw);
                assert(self@[i as int].1.0.len() == na && self@[i as int].1.1.len() == nw);
            }
            i += 1;
        }
        assert(self@.take(self.buckets@.len() as int) =~= self@);
        (admitted, waiting)
    }

    /// Drops every bucket of `downstream_id`.
    pub fn clear_downstream_runtime(&mut self, downstream_id: &str)
        requires
            old(self).wf(),
        ensures
            final(self).wf(),
            final(self)@ == old(self)@.filter(not_of(downstream_id@)),
    {
        let ghost e0 = self@;
        let mut rest: Vec<((String, String), DownstreamLeaseState)> = Vec::new();
        std::mem::swap(&mut rest, &mut self.buckets);
        let ghost raw0 = rest@;
        assert(raw0.len() == rest.len());
        assert(bucket_entries(raw0) == e0);
        assert(self@ =~= e0.take(0).filter(not_of(downstream_id@))) by {
            reveal(Seq::filter);
        }
        let mut i: usize = 0;
        while rest.len() > 0
            invariant
                i + rest@.len() == raw0.len(),
                raw0.len() <= usize::MAX,
                rest@ == raw0.skip(i as int),
                e0 == bucket_entries(raw0),
                self@ == e0.take(i as int).filter(not_of(downstream_id@)),
            decreases rest@.len(),
        {
            proof {
                crate::lease_table::lemma_filter_take(e0, not_of(downstream_id@), i as int);
                assert(rest@[0] == raw0[i as int]);
            }
            let b = rest.remove(0);
            let ghost before = self@;
            if !str_eq(b.0.0.as_str(), downstream_id) {
                self.buckets.push(b);
                assert(self@ =~= before.push(e0[i as int]));
            }
            assert(rest@ =~= raw0.skip(i + 1));
            i += 1;
        }
        proof {
            assert(e0.take(e0.len() as int) =~= e0);
            lemma_filter_distinct(e0, not_of(downstream_id@));
            assert forall|j: int| 0 <= j < self@.len() implies bucket_wf(#[trigger] self@[j].1) by {
                let x = self@[j];
                assert(e0.filter(not_of(downstream_id@)).contains(x));
                e0.lemma_filter_contains_rev(not_of(downstream_id@), x);
                let t = choose|t: int| 0 <= t < e0.len() && e0[t] == x;
                assert(bucket_wf(e0[t].1));
            }
        }
    }
}

} // verus!
