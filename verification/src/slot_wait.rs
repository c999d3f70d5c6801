//! The bounded queue of requests waiting for a local concurrency slot of an
//! upstream account: how many wait on each account.
use vstd::prelude::*;
use crate::account_concurrency::{
    copy_key, find_entry, has_key, key_view, keyed, keys_distinct, lemma_keyed_index, lemma_keyed_push,
    lemma_keyed_update, AccountConcurrencyKey, KeyView,
};
use crate::text::str_eq;

verus! {

/// How many requests wait on each account's local slots; an account with
/// none is not listed.
pub struct LocalSlotWaiters {
    counts: Vec<(AccountConcurrencyKey, usize)>,
}

/// How many wait on `account`.
pub open spec fn waiting(m: Map<KeyView, usize>, account: KeyView) -> usize {
    if m.dom().contains(account) {
        m[account]
    } else {
        0
    }
}

/// The waiters of the accounts of `upstream_id`, summed over the entries.
pub open spec fn upstream_waiting(s: Seq<(KeyView, usize)>, upstream_id: Seq<char>) -> nat
    decreases s.len(),
{
    if s.len() == 0 {
        0
    } else {
        upstream_waiting(s.drop_last(), upstream_id) + if s.last().0.0 == upstream_id {
            s.last().1 as nat
        } else {
            0nat
        }
    }
}

/// The entries as plain values.
pub open spec fn waiter_entries(s: Seq<(AccountConcurrencyKey, usize)>) -> Seq<(KeyView, usize)> {
    s.map_values(|e: (AccountConcurrencyKey, usize)| (key_view(e.0), e.1))
}

/// The count after one more request of an account entered the queue.
pub open spec fn entered(m: Map<KeyView, usize>, account: KeyView) -> Map<KeyView, usize> {
    m.insert(account, (waiting(m, account) + 1) as usize)
}

/// The count after one request of an account left the queue: the account
/// is dropped when none waits any more.
pub open spec fn left(m: Map<KeyView, usize>, account: KeyView) -> Map<KeyView, usize> {
    if waiting(m, account) <= 1 {
        m.remove(account)
    } else {
        m.insert(account, (waiting(m, account) - 1) as usize)
    }
}

proof fn lemma_keyed_remove<V>(a: Seq<(AccountConcurrencyKey, V)>, i: int)
    requires
        keys_distinct(a),
        0 <= i < a.len(),
    ensures
        keys_distinct(a.remove(i)),
        keyed(a.remove(i)) == keyed(a).remove(key_view(a[i].0)),
{
    let b = a.remove(i);
    let k0 = key_view(a[i].0);
    assert forall|x: int, y: int|
        0 <= x < b.len() && 0 <= y < b.len() && x != y implies key_view(#[trigger] b[x].0) != key_view(
        #[trigger] b[y].0,
    ) by {
        let xa = if x < i { x } else { x + 1 };
        let ya = if y < i { y } else { y + 1 };
        assert(b[x] == a[xa] && b[y] == a[ya]);
    }
    assert forall|k: KeyView| #[trigger] has_key(b, k) == (has_key(a, k) && k != k0) by {
        if has_key(b, k) {
            let j = choose|j: int| 0 <= j < b.len() && key_view(#[trigger] b[j].0) == k;
            let ja = if j < i { j } else { j + 1 };
            assert(b[j] == a[ja]);
            assert(has_key(a, k));
        }
        if has_key(a, k) && k != k0 {
            let j = choose|j: int| 0 <= j < a.len() && key_view(#[trigger] a[j].0) == k;
            if j < i {
                assert(b[j] == a[j]);
            } else {
                assert(j != i);
                assert(b[j - 1] == a[j]);
            }
        }
    }
    assert forall|k: KeyView| #[trigger] keyed(b).dom().contains(k) implies keyed(b)[k] == keyed(a).remove(
        k0,
    )[k] by {
        let j = choose|j: int| 0 <= j < b.len() && key_view(#[trigger] b[j].0) == k;
        lemma_keyed_index(b, j);
        let ja = if j < i { j } else { j + 1 };
        assert(b[j] == a[ja]);
        lemma_keyed_index(a, ja);
    }
    assert(keyed(b) =~= keyed(a).remove(k0));
}

impl View for LocalSlotWaiters {
    type V = Map<KeyView, usize>;

    closed spec fn view(&self) -> Map<KeyView, usize> {
        keyed(self.counts@)
    }
}

impl LocalSlotWaiters {
    /// Each account listed once, with at least one waiter.
    pub closed spec fn wf(&self) -> bool {
        &&& keys_distinct(self.counts@)
        &&& forall|i: int| 0 <= i < self.counts@.len() ==> (#[trigger] self.counts@[i]).1 > 0
    }

    /// The entries as plain values.
    pub closed spec fn entries(&self) -> Seq<(KeyView, usize)> {
        waiter_entries(self.counts@)
    }

    /// Nobody waits.
    pub fn new() -> (r: Self)
        ensures
            r.wf(),
            r@ == Map::<KeyView, usize>::empty(),
    {
        let r = LocalSlotWaiters { counts: Vec::new() };
        assert(r@ =~= Map::<KeyView, usize>::empty());
        r
    }

    /// Takes a place in `account`'s queue, unless `max_depth` (at least one)
    /// requests already wait there; says whether it did.
    pub fn try_enter(&mut self, account: &AccountConcurrencyKey, max_depth: usize) -> (r: bool)
        requires
            old(self).wf(),
        ensures
            final(self).wf(),
            r == (waiting(old(self)@, key_view(*account)) < (if max_depth == 0 {
                1
            } else {
                max_depth
            })),
            r ==> final(self)@ == entered(old(self)@, key_view(*account)),
            !r ==> final(self)@ == old(self)@,
    {
        let cap: usize = if max_depth == 0 {
            1
        } else {
            max_depth
        };
        match find_entry(&self.counts, account) {
            Some(i) => {
                proof {
                    lemma_keyed_index(self.counts@, i as int);
                }
                let n = self.counts[i].1;
                if n >= cap {
                    return false;
                }
                let key = copy_key(&self.counts[i].0);
                proof {
                    lemma_keyed_update(self.counts@, i as int, (n + 1) as usize);
                }
                let ghost before = self.counts@;
                self.counts.set(i, (key, n + 1));
                assert(self.counts@ == before.update(i as int, (before[i as int].0, (n + 1) as usize)));
                assert forall|j: int| 0 <= j < self.counts@.len() implies (#[trigger] self.counts@[j]).1 > 0 by {
                    if j != i {
                        assert(self.counts@[j] == before[j]);
                    }
                }
                true
            },
            None => {
                assert(!keyed(self.counts@).dom().contains(key_view(*account)));
                proof {
                    lemma_keyed_push(self.counts@, *account, 1usize);
                }
                let ghost before = self.counts@;
                self.counts.push((copy_key(account), 1));
                assert forall|j: int| 0 <= j < self.counts@.len() implies (#[trigger] self.counts@[j]).1 > 0 by {
                    if j < before.len() {
                        assert(self.counts@[j] == before[j]);
                    }
                }
                true
            },
        }
    }

    /// Gives back a place in `account`'s queue.
    pub fn leave(&mut self, account: &AccountConcurrencyKey)
        requires
            old(self).wf(),
        ensures
            final(self).wf(),
            final(self)@ == left(old(self)@, key_view(*account)),
    {
        match find_entry(&self.counts, account) {
            Some(i) => {
                proof {
                    lemma_keyed_index(self.counts@, i as int);
                }
                let n = self.counts[i].1;
                let ghost before = self.counts@;
                if n <= 1 {
                    proof {
                        lemma_keyed_remove(before, i as int);
                    }
                    self.counts.remove(i);
                    assert forall|j: int| 0 <= j < self.counts@.len() implies (#[trigger] self.counts@[j]).1 > 0 by {
                        let ja = if j < i { j } else { j + 1 };
                        assert(self.counts@[j] == before[ja]);
                    }
                } else {
                    let key = copy_key(&self.counts[i].0);
                    proof {
                        lemma_keyed_update(before, i as int, (n - 1) as usize);
                    }
                    self.counts.set(i, (key, n - 1));
                    assert(self.counts@ == before.update(i as int, (before[i as int].0, (n - 1) as usize)));
                    assert forall|j: int| 0 <= j < self.counts@.len() implies (#[trigger] self.counts@[j]).1 > 0 by {
                        if j != i {
                            assert(self.counts@[j] == before[j]);
                        }
                    }
                }
            },
            None => {
                assert(!keyed(self.counts@).dom().contains(key_view(*account)));
                assert(old(self)@.remove(key_view(*account)) =~= old(self)@);
            },
        }
    }

    /// How many requests wait on `account`.
    pub fn waiter_count(&self, account: &AccountConcurrencyKey) -> (r: usize)
        requires
            self.wf(),
        ensures
            r == waiting(self@, key_view(*account)),
    {
        match find_entry(&self.counts, account) {
            Some(i) => {
                proof {
                    lemma_keyed_index(self.counts@, i as int);
                }
                self.counts[i].1
            },
            None => 0,
        }
    }

    /// Whether the waiters of the accounts of `upstream_id` can be counted
    /// in a `usize`.
    pub fn upstream_waiter_count_fits(&self, upstream_id: &str) -> (r: bool)
        ensures
            r == (upstream_waiting(self.entries(), upstream_id@) <= usize::MAX),
    {
        let ghost e = waiter_entries(self.counts@);
        let mut total: usize = 0;
        let mut i: usize = 0;
        while i < self.counts.len()
            invariant
                i <= self.counts@.len(),
                e == waiter_entries(self.counts@),
                total == upstream_waiting(e.take(i as int), upstream_id@),
            decreases self.counts@.len() - i,
        {
            proof {
                assert(e.take(i + 1).drop_last() == e.take(i as int));
                lemma_upstream_waiting_prefix(e, upstream_id@, i + 1);
            }
            if str_eq(self.counts[i].0.upstream_id.as_str(), upstream_id) {
                if total > usize::MAX - self.counts[i].1 {
                    proof {
                        lemma_upstream_waiting_prefix(e, upstream_id@, i + 1);
                    }
                    return false;
                }
                total = total + self.counts[i].1;
            }
            i = i + 1;
        }
        assert(e.take(self.counts@.len() as int) == e);
        true
    }

    /// How many requests wait on the accounts of `upstream_id` together.
    pub fn upstream_waiter_count(&self, upstream_id: &str) -> (r: usize)
        requires
            upstream_waiting(self.entries(), upstream_id@) <= usize::MAX,
        ensures
            r == upstream_waiting(self.entries(), upstream_id@),
    {
        let ghost e = waiter_entries(self.counts@);
        let mut total: usize = 0;
        let mut i: usize = 0;
        while i < self.counts.len()
            invariant
                i <= self.counts@.len(),
                e == waiter_entries(self.counts@),
                upstream_waiting(e, upstream_id@) <= usize::MAX,
                total == upstream_waiting(e.take(i as int), upstream_id@),
            decreases self.counts@.len() - i,
        {
            proof {
                assert(e.take(i + 1).drop_last() == e.take(i as int));
                lemma_upstream_waiting_prefix(e, upstream_id@, i + 1);
            }
            if str_eq(self.counts[i].0.upstream_id.as_str(), upstream_id) {
                total = total + self.counts[i].1;
            }
            i = i + 1;
        }
        assert(e.take(self.counts@.len() as int) == e);
        total
    }
}

proof fn lemma_upstream_waiting_prefix(s: Seq<(KeyView, usize)>, u: Seq<char>, n: int)
    requires
        0 <= n <= s.len(),
    ensures
        upstream_waiting(s.take(n), u) <= upstream_waiting(s, u),
    decreases s.len() - n,
{
    if n < s.len() {
        lemma_upstream_waiting_prefix(s, u, n + 1);
        assert(s.take(n + 1).drop_last() == s.take(n));
    } else {
        assert(s.take(n) == s);
    }
}

/// A request that entered an account's queue and then left it leaves the
/// queue as it found it.
pub proof fn law_enter_then_leave(m: Map<KeyView, usize>, account: KeyView)
    requires
        forall|k: KeyView| #[trigger] m.dom().contains(k) ==> m[k] > 0,
        waiting(m, account) < usize::MAX,
    ensures
        left(entered(m, account), account) == m,
{
    let e = entered(m, account);
    assert(waiting(e, account) == waiting(m, account) + 1);
    if waiting(m, account) == 0 {
        assert(!m.dom().contains(account));
        assert(e.remove(account) =~= m);
    } else {
        assert(e.insert(account, waiting(m, account)) =~= m);
    }
}

} // verus!
