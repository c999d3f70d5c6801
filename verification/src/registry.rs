//! The configured downstream keys and upstreams as lists: adding,
//! replacing, switching on and off, and removing entries by id.
use vstd::prelude::*;
use crate::config::{DownstreamConfig, UpstreamConfig};
use crate::downstream_patch::{downstream_position, find_downstream};
use crate::normalize::stored_form;
use crate::upstream_patch::{find_upstream, upstream_position};
use crate::validate::configuration_check;
use crate::text::{owned, push_text, str_eq};

verus! {

/// `Downstream '<id>' not found` or `Upstream '<id>' not found`, with
/// `lead` the text before the id.
pub open spec fn not_found_message(lead: Seq<char>, id: Seq<char>) -> Seq<char> {
    lead + id + "' not found"@
}

/// `Downstream with ID '<id>' already exists` or the upstream form, with
/// `lead` the text before the id.
pub open spec fn duplicate_message(lead: Seq<char>, id: Seq<char>) -> Seq<char> {
    lead + id + "' already exists"@
}

pub open spec fn other_downstream(id: Seq<char>) -> spec_fn(DownstreamConfig) -> bool {
    |d: DownstreamConfig| d.id@ != id
}

pub open spec fn other_upstream(id: Seq<char>) -> spec_fn(UpstreamConfig) -> bool {
    |u: UpstreamConfig| u.id@ != id
}

proof fn lemma_downstream_position_facts(ds: Seq<DownstreamConfig>, id: Seq<char>)
    ensures
        match downstream_position(ds, id) {
            Some(i) => 0 <= i < ds.len() && ds[i].id@ == id,
            None => forall|j: int| 0 <= j < ds.len() ==> (#[trigger] ds[j]).id@ != id,
        },
    decreases ds.len(),
{
    if ds.len() > 0 {
        lemma_downstream_position_facts(ds.drop_last(), id);
        match downstream_position(ds.drop_last(), id) {
            Some(i) => {
                assert(ds.drop_last()[i] == ds[i]);
            },
            None => {
                if downstream_position(ds, id) is None {
                    assert forall|j: int| 0 <= j < ds.len() implies (#[trigger] ds[j]).id@ != id by {
                        if j < ds.len() - 1 {
                            assert(ds.drop_last()[j] == ds[j]);
                        }
                    }
                }
            },
        }
    }
}

proof fn lemma_upstream_position_facts(us: Seq<UpstreamConfig>, id: Seq<char>)
    ensures
        match upstream_position(us, id) {
            Some(i) => 0 <= i < us.len() && us[i].id@ == id,
            None => forall|j: int| 0 <= j < us.len() ==> (#[trigger] us[j]).id@ != id,
        },
    decreases us.len(),
{
    if us.len() > 0 {
        lemma_upstream_position_facts(us.drop_last(), id);
        match upstream_position(us.drop_last(), id) {
            Some(i) => {
                assert(us.drop_last()[i] == us[i]);
            },
            None => {
                if upstream_position(us, id) is None {
                    assert forall|j: int| 0 <= j < us.len() implies (#[trigger] us[j]).id@ != id by {
                        if j < us.len() - 1 {
                            assert(us.drop_last()[j] == us[j]);
                        }
                    }
                }
            },
        }
    }
}

/// Whether no two downstreams share an id.
pub open spec fn downstream_ids_distinct(ds: Seq<DownstreamConfig>) -> bool {
    forall|i: int, j: int| 0 <= i < ds.len() && 0 <= j < ds.len() && i != j ==> (#[trigger] ds[i]).id@ != (#[trigger] ds[j]).id@
}

/// Adding a downstream keeps the ids distinct: it is refused when its id is
/// taken.
pub proof fn law_add_downstream_keeps_ids_distinct(ds: Seq<DownstreamConfig>, d: DownstreamConfig)
    requires
        downstream_ids_distinct(ds),
        downstream_position(ds, d.id@) is None,
    ensures
        downstream_ids_distinct(ds.push(d)),
{
    lemma_downstream_position_facts(ds, d.id@);
    let t = ds.push(d);
    assert forall|i: int, j: int| 0 <= i < t.len() && 0 <= j < t.len() && i != j implies (#[trigger] t[i]).id@ != (
    #[trigger] t[j]).id@ by {
        if i < ds.len() && j < ds.len() {
            assert(t[i] == ds[i] && t[j] == ds[j]);
        } else if i < ds.len() {
            assert(t[i] == ds[i]);
        } else {
            assert(t[j] == ds[j]);
        }
    }
}

/// After a downstream is removed by id, no downstream has that id, and
/// every other downstream stays.
pub proof fn law_removed_downstream_is_gone(ds: Seq<DownstreamConfig>, id: Seq<char>)
    ensures
        forall|i: int| 0 <= i < ds.filter(other_downstream(id)).len() ==> (#[trigger] ds.filter(other_downstream(id))[i]).id@ != id,
        forall|i: int| 0 <= i < ds.len() && ds[i].id@ != id ==> ds.filter(other_downstream(id)).contains(#[trigger] ds[i]),
{
    assert forall|i: int| 0 <= i < ds.filter(other_downstream(id)).len() implies (#[trigger] ds.filter(other_downstream(id))[i]).id@ != id by {
        ds.lemma_filter_pred(other_downstream(id), i);
    }
    assert forall|i: int| 0 <= i < ds.len() && ds[i].id@ != id implies ds.filter(other_downstream(id)).contains(#[trigger] ds[i]) by {
        ds.lemma_filter_contains(other_downstream(id), i);
    }
}

/// Toggling an upstream twice leaves the list as it was.
pub proof fn law_toggle_upstream_twice(us: Seq<UpstreamConfig>, id: Seq<char>)
    requires
        upstream_position(us, id) is Some,
    ensures
        ({
            let i = upstream_position(us, id)->Some_0;
            let once = us.update(i, UpstreamConfig { active: !us[i].active, ..us[i] });
            upstream_position(once, id) == Some(i) && once.update(i, UpstreamConfig { active: !once[i].active, ..once[i] })
                == us
        }),
{
    let i = upstream_position(us, id)->Some_0;
    lemma_upstream_position_facts(us, id);
    let once = us.update(i, UpstreamConfig { active: !us[i].active, ..us[i] });
    lemma_upstream_position_update(us, id, i, UpstreamConfig { active: !us[i].active, ..us[i] });
    assert(once.update(i, UpstreamConfig { active: !once[i].active, ..once[i] }) =~= us);
}

/// Replacing an upstream by one with the same id keeps its position first.
proof fn lemma_upstream_position_update(us: Seq<UpstreamConfig>, id: Seq<char>, i: int, u: UpstreamConfig)
    requires
        upstream_position(us, id) == Some(i),
        u.id@ == us[i].id@,
    ensures
        upstream_position(us.update(i, u), id) == Some(i),
    decreases us.len(),
{
    let t = us.update(i, u);
    lemma_upstream_position_facts(us, id);
    if i == us.len() - 1 {
        assert(t.drop_last() =~= us.drop_last());
    } else {
        assert(upstream_position(us.drop_last(), id) == Some(i));
        assert(us.drop_last()[i] == us[i]);
        assert(t.drop_last() =~= us.drop_last().update(i, u));
        lemma_upstream_position_update(us.drop_last(), id, i, u);
    }
}

fn message(lead: &str, id: &str, tail: &str) -> (r: String)
    ensures
        r@ == lead@ + id@ + tail@,
{
    let mut m = owned(lead);
    push_text(&mut m, id);
    push_text(&mut m, tail);
    m
}

/// Keeps the downstreams whose id is not `id`.
fn retain_other_downstreams(list: &mut Vec<DownstreamConfig>, id: &str)
    ensures
        final(list)@ == old(list)@.filter(other_downstream(id@)),
{
    let ghost l0 = list@;
    let mut rest: Vec<DownstreamConfig> = Vec::new();
    std::mem::swap(&mut rest, list);
    assert(rest@.len() == rest.len());
    assert(list@ =~= l0.take(0).filter(other_downstream(id@))) by {
        reveal(Seq::filter);
    }
    let mut i: usize = 0;
    while rest.len() > 0
        invariant
            i + rest@.len() == l0.len(),
            l0.len() <= usize::MAX,
            rest@ == l0.skip(i as int),
            list@ == l0.take(i as int).filter(other_downstream(id@)),
        decreases rest@.len(),
    {
        proof {
            crate::lease_table::lemma_filter_take(l0, other_downstream(id@), i as int);
            assert(rest@[0] == l0[i as int]);
        }
        let d = rest.remove(0);
        if !str_eq(d.id.as_str(), id) {
            list.push(d);
        }
        assert(rest@ =~= l0.skip(i + 1));
        i += 1;
    }
    assert(l0.take(l0.len() as int) =~= l0);
}

/// Keeps the upstreams whose id is not `id`.
fn retain_other_upstreams(list: &mut Vec<UpstreamConfig>, id: &str)
    ensures
        final(list)@ == old(list)@.filter(other_upstream(id@)),
{
    let ghost l0 = list@;
    let mut rest: Vec<UpstreamConfig> = Vec::new();
    std::mem::swap(&mut rest, list);
    assert(rest@.len() == rest.len());
    assert(list@ =~= l0.take(0).filter(other_upstream(id@))) by {
        reveal(Seq::filter);
    }
    let mut i: usize = 0;
    while rest.len() > 0
        invariant
            i + rest@.len() == l0.len(),
            l0.len() <= usize::MAX,
            rest@ == l0.skip(i as int),
            list@ == l0.take(i as int).filter(other_upstream(id@)),
        decreases rest@.len(),
    {
        proof {
            crate::lease_table::lemma_filter_take(l0, other_upstream(id@), i as int);
            assert(rest@[0] == l0[i as int]);
        }
        let u = rest.remove(0);
        if !str_eq(u.id.as_str(), id) {
            list.push(u);
        }
        assert(rest@ =~= l0.skip(i + 1));
        i += 1;
    }
    assert(l0.take(l0.len() as int) =~= l0);
}

/// Appends a downstream as it is.
pub fn insert_downstream(list: &mut Vec<DownstreamConfig>, downstream: DownstreamConfig)
    ensures
        final(list)@ == old(list)@.push(downstream),
{
    list.push(downstream);
}

/// Appends a downstream whose id is not taken yet.
pub fn add_downstream(list: &mut Vec<DownstreamConfig>, downstream: DownstreamConfig) -> (r: Result<(), String>)
    ensures
        match downstream_position(old(list)@, downstream.id@) {
            Some(_) => (r matches Err(m) && m@ == duplicate_message("Downstream with ID '"@, downstream.id@)) && final(list)@
                == old(list)@,
            None => r is Ok && final(list)@ == old(list)@.push(downstream),
        },
{
    match find_downstream(list, downstream.id.as_str()) {
        Some(_) => {
            Err(message("Downstream with ID '", downstream.id.as_str(), "' already exists"))
        },
        None => {
            list.push(downstream);
            Ok(())
        },
    }
}

/// Replaces the first downstream with id `id` by `downstream` under that
/// id; whether there was one.
pub fn update_downstream(list: &mut Vec<DownstreamConfig>, id: &str, downstream: DownstreamConfig) -> (r: bool)
    ensures
        match downstream_position(old(list)@, id@) {
            None => !r && final(list)@ == old(list)@,
            Some(i) => r && final(list)@.len() == old(list)@.len() && final(list)@[i].id@ == id@ && final(list)@[i]
                == (DownstreamConfig { id: final(list)@[i].id, ..downstream }) && forall|j: int|
                0 <= j < old(list)@.len() && j != i ==> final(list)@[j] == old(list)@[j],
        },
{
    match find_downstream(list, id) {
        Some(i) => {
            let d = DownstreamConfig { id: owned(id), ..downstream };
            list.set(i, d);
            true
        },
        None => false,
    }
}

/// Drops every downstream with id `id`; whether any went.
pub fn remove_downstream(list: &mut Vec<DownstreamConfig>, id: &str) -> (r: bool)
    ensures
        final(list)@ == old(list)@.filter(other_downstream(id@)),
        r == (final(list)@.len() != old(list)@.len()),
{
    let before = list.len();
    retain_other_downstreams(list, id);
    list.len() != before
}

/// Drops every downstream with id `id`; an error when there was none.
pub fn delete_downstream_by_id(list: &mut Vec<DownstreamConfig>, id: &str) -> (r: Result<(), String>)
    ensures
        final(list)@ == old(list)@.filter(other_downstream(id@)),
        final(list)@.len() < old(list)@.len() ==> r is Ok,
        final(list)@.len() >= old(list)@.len() ==> (r matches Err(m) && m@ == not_found_message("Downstream '"@, id@)),
{
    let before = list.len();
    retain_other_downstreams(list, id);
    if list.len() < before {
        Ok(())
    } else {
        Err(message("Downstream '", id, "' not found"))
    }
}

/// Sets whether the first downstream with id `id` is active; whether there
/// was one.
pub fn set_downstream_active(list: &mut Vec<DownstreamConfig>, id: &str, active: bool) -> (r: bool)
    ensures
        match downstream_position(old(list)@, id@) {
            None => !r && final(list)@ == old(list)@,
            Some(i) => r && final(list)@ == old(list)@.update(i, DownstreamConfig { active, ..old(list)@[i] }),
        },
{
    match find_downstream(list, id) {
        Some(i) => {
            let mut d = list.remove(i);
            d.active = active;
            list.insert(i, d);
            true
        },
        None => false,
    }
}

/// Flips whether the first downstream with id `id` is active and hands
/// back the new state; an error when there is none.
pub fn toggle_downstream_by_id(list: &mut Vec<DownstreamConfig>, id: &str) -> (r: Result<bool, String>)
    ensures
        match downstream_position(old(list)@, id@) {
            None => (r matches Err(m) && m@ == not_found_message("Downstream '"@, id@)) && final(list)@ == old(list)@,
            Some(i) => r == Ok::<bool, String>(!old(list)@[i].active) && final(list)@ == old(list)@.update(
                i,
                DownstreamConfig { active: !old(list)@[i].active, ..old(list)@[i] },
            ),
        },
{
    match find_downstream(list, id) {
        Some(i) => {
            let mut d = list.remove(i);
            d.active = !d.active;
            let active = d.active;
            list.insert(i, d);
            Ok(active)
        },
        None => Err(message("Downstream '", id, "' not found")),
    }
}

/// Sets the key hash of the first downstream with id `id`; an error when
/// there is none.
pub fn update_downstream_hash(list: &mut Vec<DownstreamConfig>, id: &str, new_hash: String) -> (r: Result<(), String>)
    ensures
        match downstream_position(old(list)@, id@) {
            None => (r matches Err(m) && m@ == not_found_message("Downstream '"@, id@)) && final(list)@ == old(list)@,
            Some(i) => r is Ok && final(list)@ == old(list)@.update(i, DownstreamConfig { hash: new_hash, ..old(list)@[i] }),
        },
{
    match find_downstream(list, id) {
        Some(i) => {
            let mut d = list.remove(i);
            d.hash = new_hash;
            list.insert(i, d);
            Ok(())
        },
        None => Err(message("Downstream '", id, "' not found")),
    }
}

/// Stores an upstream in its normalized form when its configuration is
/// valid and its id is not taken yet.
pub fn add_upstream(list: &mut Vec<UpstreamConfig>, upstream: UpstreamConfig) -> (r: Result<(), String>)
    ensures
        exists|n: UpstreamConfig|
            #![trigger stored_form(upstream, n)]
            stored_form(upstream, n) && match configuration_check(n) {
                Some(e) => (r matches Err(m) && m@ == e) && final(list)@ == old(list)@,
                None => match upstream_position(old(list)@, n.id@) {
                    Some(_) => (r matches Err(m) && m@ == duplicate_message("Upstream with ID '"@, n.id@)) && final(list)@ == old(list)@,
                    None => r is Ok && final(list)@ == old(list)@.push(n),
                },
            },
{
    let ghost orig = upstream;
    let mut upstream = upstream;
    upstream.normalize_for_storage();
    let ghost n = upstream;
    assert(stored_form(orig, n));
    match upstream.validate_configuration() {
        Err(e) => {
            return Err(e);
        },
        Ok(()) => {},
    }
    match find_upstream(list, upstream.id.as_str()) {
        Some(_) => {
            Err(message("Upstream with ID '", upstream.id.as_str(), "' already exists"))
        },
        None => {
            list.push(upstream);
            Ok(())
        },
    }
}

/// Drops every upstream with id `id`; whether any went.
pub fn remove_upstream(list: &mut Vec<UpstreamConfig>, id: &str) -> (r: bool)
    ensures
        final(list)@ == old(list)@.filter(other_upstream(id@)),
        r == (final(list)@.len() != old(list)@.len()),
{
    let before = list.len();
    retain_other_upstreams(list, id);
    list.len() != before
}

/// Drops every upstream with id `id`; an error when there was none.
pub fn delete_upstream_by_id(list: &mut Vec<UpstreamConfig>, id: &str) -> (r: Result<(), String>)
    ensures
        final(list)@ == old(list)@.filter(other_upstream(id@)),
        final(list)@.len() < old(list)@.len() ==> r is Ok,
        final(list)@.len() >= old(list)@.len() ==> (r matches Err(m) && m@ == not_found_message("Upstream '"@, id@)),
{
    let before = list.len();
    retain_other_upstreams(list, id);
    if list.len() < before {
        Ok(())
    } else {
        Err(message("Upstream '", id, "' not found"))
    }
}

/// Sets whether the first upstream with id `id` is active; whether there
/// was one.
pub fn set_upstream_active(list: &mut Vec<UpstreamConfig>, id: &str, active: bool) -> (r: bool)
    ensures
        match upstream_position(old(list)@, id@) {
            None => !r && final(list)@ == old(list)@,
            Some(i) => r && final(list)@ == old(list)@.update(i, UpstreamConfig { active, ..old(list)@[i] }),
        },
{
    match find_upstream(list, id) {
        Some(i) => {
            let mut u = list.remove(i);
            u.active = active;
            list.insert(i, u);
            true
        },
        None => false,
    }
}

/// Flips whether the first upstream with id `id` is active and hands back
/// the new state; an error when there is none.
pub fn toggle_upstream_by_id(list: &mut Vec<UpstreamConfig>, id: &str) -> (r: Result<bool, String>)
    ensures
        match upstream_position(old(list)@, id@) {
            None => (r matches Err(m) && m@ == not_found_message("Upstream '"@, id@)) && final(list)@ == old(list)@,
            Some(i) => r == Ok::<bool, String>(!old(list)@[i].active) && final(list)@ == old(list)@.update(
                i,
                UpstreamConfig { active: !old(list)@[i].active, ..old(list)@[i] },
            ),
        },
{
    match find_upstream(list, id) {
        Some(i) => {
            let mut u = list.remove(i);
            u.active = !u.active;
            let active = u.active;
            list.insert(i, u);
            Ok(active)
        },
        None => Err(message("Upstream '", id, "' not found")),
    }
}

/// Counts one more failure for the first upstream with id `id`
/// (saturating); nothing when there is none.
pub fn mark_upstream_failure(list: &mut Vec<UpstreamConfig>, id: &str)
    ensures
        final(list)@ == match upstream_position(old(list)@, id@) {
            None => old(list)@,
            Some(i) => old(list)@.update(
                i,
                UpstreamConfig {
                    failure_count: if old(list)@[i].failure_count == u32::MAX {
                        u32::MAX
                    } else {
                        (old(list)@[i].failure_count + 1) as u32
                    },
                    ..old(list)@[i]
                },
            ),
        },
{
    match find_upstream(list, id) {
        Some(i) => {
            let mut u = list.remove(i);
            u.failure_count = u.failure_count.saturating_add(1);
            list.insert(i, u);
        },
        None => {},
    }
}

/// Clears the failure count of the first upstream with id `id`; nothing
/// when there is none.
pub fn mark_upstream_success(list: &mut Vec<UpstreamConfig>, id: &str)
    ensures
        final(list)@ == match upstream_position(old(list)@, id@) {
            None => old(list)@,
            Some(i) => old(list)@.update(i, UpstreamConfig { failure_count: 0, ..old(list)@[i] }),
        },
{
    match find_upstream(list, id) {
        Some(i) => {
            let mut u = list.remove(i);
            u.failure_count = 0;
            list.insert(i, u);
        },
        None => {},
    }
}

} // verus!
