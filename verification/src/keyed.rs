//! Association lists with distinct keys, read as finite maps.
use vstd::prelude::*;

verus! {

/// No key occurs twice.
pub open spec fn distinct_keys<K, V>(a: Seq<(K, V)>) -> bool {
    forall|i: int, j: int|
        0 <= i < a.len() && 0 <= j < a.len() && i != j ==> (#[trigger] a[i]).0 != (#[trigger] a[j]).0
}

/// Some entry has key `k`.
pub open spec fn contains_key<K, V>(a: Seq<(K, V)>, k: K) -> bool {
    exists|i: int| 0 <= i < a.len() && (#[trigger] a[i]).0 == k
}

/// The list as a map from key to value.
pub open spec fn as_map<K, V>(a: Seq<(K, V)>) -> Map<K, V> {
    Map::new(
        |k: K| contains_key(a, k),
        |k: K| a[choose|i: int| 0 <= i < a.len() && (#[trigger] a[i]).0 == k].1,
    )
}

/// The position of the entry with key `k`, if there is one.
pub open spec fn entry_index<K, V>(a: Seq<(K, V)>, k: K) -> Option<int> {
    if contains_key(a, k) {
        Some(choose|i: int| 0 <= i < a.len() && (#[trigger] a[i]).0 == k)
    } else {
        None
    }
}

/// The list after key `k` is set to `v`: in place when present, last
/// otherwise.
pub open spec fn with_entry<K, V>(a: Seq<(K, V)>, k: K, v: V) -> Seq<(K, V)> {
    match entry_index(a, k) {
        Some(i) => a.update(i, (k, v)),
        None => a.push((k, v)),
    }
}

/// The list without the entry of key `k`.
pub open spec fn without_entry<K, V>(a: Seq<(K, V)>, k: K) -> Seq<(K, V)> {
    match entry_index(a, k) {
        Some(i) => a.remove(i),
        None => a,
    }
}

pub proof fn lemma_entry_index<K, V>(a: Seq<(K, V)>, i: int)
    requires
        distinct_keys(a),
        0 <= i < a.len(),
    ensures
        entry_index(a, a[i].0) == Some(i),
{
    let k = a[i].0;
    assert(contains_key(a, k));
    let j = choose|j: int| 0 <= j < a.len() && (#[trigger] a[j]).0 == k;
    assert(i == j);
}

/// Keeping some entries keeps the keys distinct, and keeps no key that was
/// not there.
pub proof fn lemma_filter_distinct<K, V>(a: Seq<(K, V)>, p: spec_fn((K, V)) -> bool)
    requires
        distinct_keys(a),
    ensures
        distinct_keys(a.filter(p)),
        forall|k: K| #[trigger] contains_key(a.filter(p), k) ==> contains_key(a, k),
    decreases a.len(),
{
    reveal(Seq::filter);
    if a.len() > 0 {
        let b = a.drop_last();
        assert(distinct_keys(b)) by {
            assert forall|x: int, y: int|
                0 <= x < b.len() && 0 <= y < b.len() && x != y implies (#[trigger] b[x]).0 != (
                #[trigger] b[y]).0 by {
                assert(b[x] == a[x] && b[y] == a[y]);
            }
        }
        lemma_filter_distinct(b, p);
        let f = b.filter(p);
        assert forall|k: K| #[trigger] contains_key(b, k) implies contains_key(a, k) by {
            let j = choose|j: int| 0 <= j < b.len() && (#[trigger] b[j]).0 == k;
            assert(a[j] == b[j]);
        }
        if p(a.last()) {
            let g = f.push(a.last());
            assert(a.filter(p) == g);
            if contains_key(f, a.last().0) {
                assert(contains_key(b, a.last().0));
                let j = choose|j: int| 0 <= j < b.len() && (#[trigger] b[j]).0 == a.last().0;
                assert(a[j] == b[j]);
                assert(a[a.len() - 1] == a.last());
            }
            assert forall|x: int, y: int|
                0 <= x < g.len() && 0 <= y < g.len() && x != y implies (#[trigger] g[x]).0 != (
                #[trigger] g[y]).0 by {
                if x < f.len() && y < f.len() {
                    assert(g[x] == f[x] && g[y] == f[y]);
                } else if x < f.len() {
                    assert(g[x] == f[x]);
                } else if y < f.len() {
                    assert(g[y] == f[y]);
                }
            }
            assert forall|k: K| #[trigger] contains_key(g, k) implies contains_key(a, k) by {
                let j = choose|j: int| 0 <= j < g.len() && (#[trigger] g[j]).0 == k;
                if j < f.len() {
                    assert(g[j] == f[j]);
                    assert(contains_key(f, k));
                } else {
                    assert(a[a.len() - 1] == a.last());
                }
            }
        } else {
            assert(a.filter(p) == f);
        }
    }
}

/// The predicate on entries that tests their key with `p`.
pub open spec fn on_key<K, V>(p: spec_fn(K) -> bool) -> spec_fn((K, V)) -> bool {
    |e: (K, V)| p(e.0)
}

/// Keeping the entries whose key passes `p` keeps the map's keys that pass.
pub proof fn lemma_as_map_filter<K, V>(a: Seq<(K, V)>, p: spec_fn(K) -> bool)
    requires
        distinct_keys(a),
    ensures
        as_map(a.filter(on_key(p))) == as_map(a).filter_keys(p),
    decreases a.len(),
{
    reveal(Seq::filter);
    if a.len() == 0 {
        lemma_as_map_empty(a);
        lemma_as_map_empty(a.filter(on_key(p)));
        assert(as_map(a.filter(on_key(p))) =~= as_map(a).filter_keys(p));
    } else {
        let b = a.drop_last();
        let last = a.last();
        assert(distinct_keys(b)) by {
            assert forall|x: int, y: int|
                0 <= x < b.len() && 0 <= y < b.len() && x != y implies (#[trigger] b[x]).0 != (
                #[trigger] b[y]).0 by {
                assert(b[x] == a[x] && b[y] == a[y]);
            }
        }
        lemma_as_map_filter(b, p);
        lemma_filter_distinct(b, on_key(p));
        if contains_key(b, last.0) {
            let j = choose|j: int| 0 <= j < b.len() && (#[trigger] b[j]).0 == last.0;
            assert(a[j] == b[j]);
            assert(a[a.len() - 1] == last);
        }
        lemma_as_map_push(b, last.0, last.1);
        assert(b.push((last.0, last.1)) =~= a);
        if p(last.0) {
            lemma_as_map_push(b.filter(on_key(p)), last.0, last.1);
            assert(a.filter(on_key(p)) == b.filter(on_key(p)).push(last));
        } else {
            assert(a.filter(on_key(p)) == b.filter(on_key(p)));
        }
        assert(as_map(a.filter(on_key(p))) =~= as_map(a).filter_keys(p));
    }
}

pub proof fn lemma_as_map_index<K, V>(a: Seq<(K, V)>, i: int)
    requires
        distinct_keys(a),
        0 <= i < a.len(),
    ensures
        as_map(a).dom().contains(a[i].0),
        as_map(a)[a[i].0] == a[i].1,
{
    let k = a[i].0;
    assert(contains_key(a, k));
    let j = choose|j: int| 0 <= j < a.len() && (#[trigger] a[j]).0 == k;
    assert(i == j);
}

pub proof fn lemma_as_map_update<K, V>(a: Seq<(K, V)>, i: int, v: V)
    requires
        distinct_keys(a),
        0 <= i < a.len(),
    ensures
        distinct_keys(a.update(i, (a[i].0, v))),
        as_map(a.update(i, (a[i].0, v))) == as_map(a).insert(a[i].0, v),
{
    let b = a.update(i, (a[i].0, v));
    assert forall|x: int, y: int|
        0 <= x < b.len() && 0 <= y < b.len() && x != y implies (#[trigger] b[x]).0 != (
        #[trigger] b[y]).0 by {
        assert(b[x].0 == a[x].0);
        assert(b[y].0 == a[y].0);
    }
    assert forall|k: K| #[trigger] contains_key(b, k) == contains_key(a, k) by {
        if contains_key(a, k) {
            let j = choose|j: int| 0 <= j < a.len() && (#[trigger] a[j]).0 == k;
            assert(b[j].0 == a[j].0);
        }
        if contains_key(b, k) {
            let j = choose|j: int| 0 <= j < b.len() && (#[trigger] b[j]).0 == k;
            assert(b[j].0 == a[j].0);
        }
    }
    assert forall|k: K| #[trigger] as_map(b).dom().contains(k) implies as_map(b)[k] == as_map(
        a,
    ).insert(a[i].0, v)[k] by {
        let j = choose|j: int| 0 <= j < b.len() && (#[trigger] b[j]).0 == k;
        lemma_as_map_index(b, j);
        if j != i {
            lemma_as_map_index(a, j);
        }
    }
    assert(as_map(b) =~= as_map(a).insert(a[i].0, v));
}

pub proof fn lemma_as_map_push<K, V>(a: Seq<(K, V)>, k: K, v: V)
    requires
        distinct_keys(a),
        !contains_key(a, k),
    ensures
        distinct_keys(a.push((k, v))),
        as_map(a.push((k, v))) == as_map(a).insert(k, v),
{
    let b = a.push((k, v));
    assert forall|x: int, y: int|
        0 <= x < b.len() && 0 <= y < b.len() && x != y implies (#[trigger] b[x]).0 != (
        #[trigger] b[y]).0 by {
        if x < a.len() {
            assert(b[x] == a[x]);
        }
        if y < a.len() {
            assert(b[y] == a[y]);
        }
    }
    assert forall|q: K| #[trigger] contains_key(b, q) == (contains_key(a, q) || q == k) by {
        if contains_key(a, q) {
            let j = choose|j: int| 0 <= j < a.len() && (#[trigger] a[j]).0 == q;
            assert(b[j] == a[j]);
        }
        if q == k {
            assert(b[a.len() as int].0 == k);
        }
        if contains_key(b, q) && q != k {
            let j = choose|j: int| 0 <= j < b.len() && (#[trigger] b[j]).0 == q;
            assert(b[j] == a[j]);
        }
    }
    assert forall|q: K| #[trigger] as_map(b).dom().contains(q) implies as_map(b)[q] == as_map(
        a,
    ).insert(k, v)[q] by {
        let j = choose|j: int| 0 <= j < b.len() && (#[trigger] b[j]).0 == q;
        lemma_as_map_index(b, j);
        if j < a.len() {
            assert(b[j] == a[j]);
            lemma_as_map_index(a, j);
        }
    }
    assert(as_map(b) =~= as_map(a).insert(k, v));
}

pub proof fn lemma_as_map_remove<K, V>(a: Seq<(K, V)>, i: int)
    requires
        distinct_keys(a),
        0 <= i < a.len(),
    ensures
        distinct_keys(a.remove(i)),
        as_map(a.remove(i)) == as_map(a).remove(a[i].0),
{
    let b = a.remove(i);
    assert forall|x: int, y: int|
        0 <= x < b.len() && 0 <= y < b.len() && x != y implies (#[trigger] b[x]).0 != (
        #[trigger] b[y]).0 by {
        let xa = if x < i { x } else { x + 1 };
        let ya = if y < i { y } else { y + 1 };
        assert(b[x] == a[xa]);
        assert(b[y] == a[ya]);
    }
    assert forall|q: K| #[trigger] contains_key(b, q) == (contains_key(a, q) && q != a[i].0) by {
        if contains_key(a, q) && q != a[i].0 {
            let j = choose|j: int| 0 <= j < a.len() && (#[trigger] a[j]).0 == q;
            if j < i {
                assert(b[j] == a[j]);
            } else {
                assert(j != i);
                assert(b[j - 1] == a[j]);
            }
        }
        if contains_key(b, q) {
            let j = choose|j: int| 0 <= j < b.len() && (#[trigger] b[j]).0 == q;
            let ja = if j < i { j } else { j + 1 };
            assert(b[j] == a[ja]);
            assert(ja != i);
        }
    }
    assert forall|q: K| #[trigger] as_map(b).dom().contains(q) implies as_map(b)[q] == as_map(
        a,
    ).remove(a[i].0)[q] by {
        let j = choose|j: int| 0 <= j < b.len() && (#[trigger] b[j]).0 == q;
        let ja = if j < i { j } else { j + 1 };
        assert(b[j] == a[ja]);
        lemma_as_map_index(b, j);
        lemma_as_map_index(a, ja);
    }
    assert(as_map(b) =~= as_map(a).remove(a[i].0));
}

pub proof fn lemma_as_map_empty<K, V>(a: Seq<(K, V)>)
    requires
        a.len() == 0,
    ensures
        distinct_keys(a),
        as_map(a) == Map::<K, V>::empty(),
{
    assert(as_map(a) =~= Map::<K, V>::empty());
}

pub proof fn lemma_as_map_len<K, V>(a: Seq<(K, V)>)
    requires
        distinct_keys(a),
    ensures
        as_map(a).dom().finite(),
        as_map(a).dom().len() == a.len(),
    decreases a.len(),
{
    if a.len() == 0 {
        lemma_as_map_empty(a);
    } else {
        let i = a.len() - 1;
        lemma_as_map_remove(a, i);
        lemma_as_map_len(a.remove(i));
        lemma_as_map_index(a, i);
        assert(as_map(a).dom() =~= as_map(a.remove(i)).dom().insert(a[i].0));
    }
}

} // verus!
