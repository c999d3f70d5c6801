//! Which budget ledger a request's cost is booked on: the owning portal
//! user's ledger when the key has an owner, else the key's own ledger.
use vstd::prelude::*;
use crate::text::{chars_eq, chars_of, owned};

verus! {

/// The ledger a request is charged to, and its daily limit if it has one.
#[derive(Clone, Debug, PartialEq, Eq)]
pub struct CostScope {
    pub scope_id: String,
    pub daily_limit_cents: Option<u64>,
}

impl CostScope {
    /// Whether the ledger has a daily cost limit; only limited ledgers keep
    /// a rolling window.
    pub fn is_limited(&self) -> (r: bool)
        ensures
            r == (self.daily_limit_cents matches Some(l) && l > 0),
    {
        match self.daily_limit_cents {
            Some(limit) => limit > 0,
            None => false,
        }
    }
}

/// The value stored under `key` in a list of entries: the first entry with
/// that key wins.
pub open spec fn lookup<V>(entries: Seq<(String, V)>, key: Seq<char>) -> Option<V>
    decreases entries.len(),
{
    if entries.len() == 0 {
        None
    } else if entries[0].0@ == key {
        Some(entries[0].1)
    } else {
        lookup(entries.drop_first(), key)
    }
}

/// The ledger id of a downstream key: its owner's id, or its own id.
pub open spec fn scope_id_spec(downstream_id: Seq<char>, owners: Seq<(String, String)>) -> Seq<
    char,
> {
    match lookup(owners, downstream_id) {
        Some(owner) => owner@,
        None => downstream_id,
    }
}

fn find_entry<V>(entries: &Vec<(String, V)>, key: &Vec<char>) -> (r: Option<usize>)
    ensures
        match r {
            Some(i) => i < entries@.len() && lookup(entries@, key@) == Some(entries@[i as int].1),
            None => lookup(entries@, key@) is None,
        },
{
    let mut i: usize = 0;
    assert(entries@.skip(0) == entries@);
    while i < entries.len()
        invariant
            i <= entries@.len(),
            lookup(entries@, key@) == lookup(entries@.skip(i as int), key@),
        decreases entries@.len() - i,
    {
        assert(entries@.skip(i as int).drop_first() == entries@.skip(i + 1));
        if chars_eq(&chars_of(entries[i].0.as_str()), key) {
            return Some(i);
        }
        i = i + 1;
    }
    None
}

/// Resolves the ledger of `downstream_id`. `owners` maps a key id to its
/// owning user id, `limits` maps a ledger id to its daily limit in cents; a
/// limit of zero counts as no limit.
pub fn resolve_cost_scope(
    downstream_id: &str,
    owners: &Vec<(String, String)>,
    limits: &Vec<(String, u64)>,
) -> (r: CostScope)
    ensures
        r.scope_id@ == scope_id_spec(downstream_id@, owners@),
        r.daily_limit_cents == match lookup(limits@, scope_id_spec(downstream_id@, owners@)) {
            Some(l) => if l > 0 {
                Some(l)
            } else {
                None
            },
            None => None,
        },
{
    let scope_id = match find_entry(owners, &chars_of(downstream_id)) {
        Some(i) => owned(owners[i].1.as_str()),
        None => owned(downstream_id),
    };
    let daily_limit_cents = match find_entry(limits, &chars_of(scope_id.as_str())) {
        Some(i) => {
            let limit = limits[i].1;
            if limit > 0 {
                Some(limit)
            } else {
                None
            }
        },
        None => None,
    };
    CostScope { scope_id, daily_limit_cents }
}

} // verus!
