//! Which models a downstream key may use: the allowed-model sets of model
//! groups and legacy allowlists, their union and intersection, and the
//! access policy of a key.
use vstd::prelude::*;
use crate::model_catalog::{group_id_spec, ModelCatalog, ModelId};
use crate::model_identity::AliasEntry;
use crate::order::{
    lemma_sorted_insert, lemma_text_less_asymmetric, lemma_text_less_irreflexive,
    lemma_text_less_total, lemma_text_less_transitive, strictly_sorted, text_less, text_less_exec,
};
use crate::text::{blank, chars_of, is_blank, owned, str_eq, trim_seq, trimmed, views};

verus! {

/// The models a key may use: every model, none (`Nothing`), or the listed
/// ids (kept strictly sorted).
#[derive(Clone, Debug, PartialEq, Eq)]
pub enum AllowedModels {
    All,
    Nothing,
    Models(Vec<ModelId>),
}

/// An allowed-model set as plain values.
pub enum AllowedView {
    All,
    Nothing,
    Models(Seq<Seq<char>>),
}

pub open spec fn ids_of(v: Seq<ModelId>) -> Seq<Seq<char>> {
    v.map_values(|m: ModelId| m@)
}

/// `r` is the union of `a` and `b`: it admits what either admits; either
/// allowing all allows all; nothing added to a set leaves it; two lists give
/// a (sorted) list.
pub open spec fn union_of(a: AllowedModels, b: AllowedModels, r: AllowedModels) -> bool {
    &&& r.wf()
    &&& forall|id: Seq<char>| r.admits(id) <==> (a.admits(id) || b.admits(id))
    &&& (a@ is All || b@ is All) ==> r@ == AllowedView::All
    &&& !(a@ is All || b@ is All) && a@ is Nothing ==> r@ == b@
    &&& !(a@ is All || b@ is All) && b@ is Nothing ==> r@ == a@
    &&& a@ is Models && b@ is Models ==> r@ is Models
}

/// The union does not depend on the order of its operands, and nothing
/// added to a set leaves it as it was.
pub proof fn law_union_commutes(a: AllowedModels, b: AllowedModels, r1: AllowedModels, r2: AllowedModels)
    requires
        union_of(a, b, r1),
        union_of(b, a, r2),
    ensures
        r1@ == r2@,
        b@ is Nothing ==> r1@ == a@,
{
    if let AllowedView::Models(x) = r1@ {
        if let AllowedView::Models(y) = r2@ {
            assert forall|id: Seq<char>| #![trigger x.contains(id)] #![trigger y.contains(id)] x.contains(id) <==> y.contains(id) by {
                assert(r1.admits(id) == x.contains(id));
                assert(r2.admits(id) == y.contains(id));
            }
            crate::order::lemma_sorted_same_members(x, y);
        }
    }
}

impl View for AllowedModels {
    type V = AllowedView;

    open spec fn view(&self) -> AllowedView {
        match self {
            AllowedModels::All => AllowedView::All,
            AllowedModels::Nothing => AllowedView::Nothing,
            AllowedModels::Models(v) => AllowedView::Models(ids_of(v@)),
        }
    }
}

impl AllowedModels {
    /// The listed ids are strictly sorted.
    pub open spec fn wf(&self) -> bool {
        match self@ {
            AllowedView::Models(ids) => strictly_sorted(ids),
            _ => true,
        }
    }

    /// Whether the set admits the model with id `id`.
    pub open spec fn admits(&self, id: Seq<char>) -> bool {
        match self@ {
            AllowedView::All => true,
            AllowedView::Nothing => false,
            AllowedView::Models(ids) => ids.contains(id),
        }
    }
}

/// The ids of a model group's entries.
pub open spec fn group_ids(es: Seq<AliasEntry>, labels: Seq<Seq<char>>, models: Seq<Seq<char>>) -> Set<
    Seq<char>,
> {
    Set::new(|x: Seq<char>| exists|i: int| 0 <= i < models.len() && group_id_spec(es, labels, #[trigger] models[i]) == x)
}

/// A model group's entries are acceptable: not empty, no blank entry, and
/// the denial sentinel only on its own.
pub open spec fn group_check(models: Seq<Seq<char>>) -> Result<(), Seq<char>> {
    if models.len() == 0 || exists|i: int| 0 <= i < models.len() && trim_seq(#[trigger] models[i]).len() == 0 {
        Err("model group must contain nonempty model names"@)
    } else if (exists|i: int| 0 <= i < models.len() && trim_seq(#[trigger] models[i]) == "__none__"@)
        && models.len() != 1 {
        Err("denial sentinel cannot be combined with model names"@)
    } else {
        Ok(())
    }
}

pub fn copy_id(m: &ModelId) -> (r: ModelId)
    ensures
        r == *m,
{
    ModelId(m.0.clone())
}

/// Whether `v` lists `x`.
fn lists(v: &Vec<ModelId>, x: &ModelId) -> (r: bool)
    ensures
        r == ids_of(v@).contains(x@),
{
    let ghost iv = ids_of(v@);
    let mut i: usize = 0;
    while i < v.len()
        invariant
            i <= v@.len(),
            iv == ids_of(v@),
            forall|j: int| 0 <= j < i ==> iv[j] != x@,
        decreases v@.len() - i,
    {
        if str_eq(v[i].0.as_str(), x.0.as_str()) {
            assert(iv[i as int] == x@);
            return true;
        }
        i = i + 1;
    }
    false
}

/// `r` lists exactly what `v` lists and `x`.
pub open spec fn lists_with(r: Seq<Seq<char>>, v: Seq<Seq<char>>, x: Seq<char>) -> bool {
    forall|y: Seq<char>| r.contains(y) <==> (v.contains(y) || y == x)
}

pub proof fn lemma_lists_with_insert(v: Seq<Seq<char>>, x: Seq<char>, p: int)
    requires
        0 <= p <= v.len(),
    ensures
        lists_with(v.insert(p, x), v, x),
{
    let w = v.insert(p, x);
    assert forall|y: Seq<char>| w.contains(y) <==> (v.contains(y) || y == x) by {
        if w.contains(y) {
            let k = choose|k: int| 0 <= k < w.len() && w[k] == y;
            if k < p {
                assert(v[k] == y);
            } else if k > p {
                assert(v[k - 1] == y);
            }
        }
        if v.contains(y) {
            let k = choose|k: int| 0 <= k < v.len() && v[k] == y;
            if k < p {
                assert(w[k] == y);
            } else {
                assert(w[k + 1] == y);
            }
        }
        if y == x {
            assert(w[p] == y);
        }
    }
}

/// Adds `x` to the strictly sorted `v` unless it is listed.
fn insert_id(v: Vec<ModelId>, x: ModelId) -> (r: Vec<ModelId>)
    requires
        strictly_sorted(ids_of(v@)),
    ensures
        strictly_sorted(ids_of(r@)),
        lists_with(ids_of(r@), ids_of(v@), x@),
{
    let ghost xv = x@;
    let ghost orig = v@;
    let mut out = v;
    let ghost before = ids_of(out@);
    let mut p: usize = 0;
    while p < out.len() && text_less_exec(out[p].0.as_str(), x.0.as_str())
        invariant
            p <= out@.len(),
            ids_of(out@) == before,
            forall|k: int| 0 <= k < p ==> text_less(#[trigger] before[k], x@),
        decreases out@.len() - p,
    {
        p = p + 1;
    }
    let present = p < out.len() && str_eq(out[p].0.as_str(), x.0.as_str());
    if present {
        assert(before[p as int] == xv);
        assert(before.contains(xv));
        assert(ids_of(out@) == before);
        assert(lists_with(ids_of(out@), before, xv));
    } else {
        proof {
            lemma_sorted_insert(before, xv, p as int);
        }
        out.insert(p, x);
        assert(ids_of(out@) =~= before.insert(p as int, xv));
        proof {
            lemma_lists_with_insert(before, xv, p as int);
        }
        assert(lists_with(ids_of(out@), before, xv));
    }
    assert(before == ids_of(orig));
    out
}

fn copy_ids(v: &Vec<ModelId>) -> (r: Vec<ModelId>)
    ensures
        r@ == v@,
{
    let mut r: Vec<ModelId> = Vec::new();
    for i in 0..v.len()
        invariant
            r@ == v@.take(i as int),
    {
        r.push(copy_id(&v[i]));
        assert(r@ =~= v@.take(i + 1));
    }
    assert(v@.take(v@.len() as int) == v@);
    r
}

impl AllowedModels {
    /// A copy of the set.
    pub fn duplicate(&self) -> (r: Self)
        ensures
            r@ == self@,
    {
        match self {
            AllowedModels::All => AllowedModels::All,
            AllowedModels::Nothing => AllowedModels::Nothing,
            AllowedModels::Models(v) => AllowedModels::Models(copy_ids(v)),
        }
    }
}

/// Some entry of `models`, trimmed, is `lit`.
pub open spec fn has_trimmed(models: Seq<Seq<char>>, lit: Seq<char>) -> bool {
    exists|i: int| 0 <= i < models.len() && trim_seq(#[trigger] models[i]) == lit
}

/// Whether an id is listed in `ys`.
pub open spec fn listed_in(ys: Seq<Seq<char>>) -> spec_fn(Seq<char>) -> bool {
    |y: Seq<char>| ys.contains(y)
}

/// The models allowed by both sets: nothing when either allows nothing,
/// the other when one allows all, else the ids listed by both, in the first
/// list's order, and nothing when there are none.
pub open spec fn meet(a: AllowedView, b: AllowedView) -> AllowedView {
    match (a, b) {
        (AllowedView::Nothing, _) | (_, AllowedView::Nothing) => AllowedView::Nothing,
        (AllowedView::All, o) => o,
        (o, AllowedView::All) => o,
        (AllowedView::Models(x), AllowedView::Models(y)) => {
            let f = x.filter(listed_in(y));
            if f.len() == 0 {
                AllowedView::Nothing
            } else {
                AllowedView::Models(f)
            }
        },
    }
}

/// The meet of two sets that are not empty lists is never an empty list:
/// no common id means nothing is allowed.
pub proof fn law_meet_never_empty_list(a: AllowedView, b: AllowedView)
    requires
        !(a matches AllowedView::Models(x) && x.len() == 0),
        !(b matches AllowedView::Models(y) && y.len() == 0),
    ensures
        !(meet(a, b) matches AllowedView::Models(z) && z.len() == 0),
{
}

/// Ids listed by both sorted lists, in order.
fn common_ids(a: &Vec<ModelId>, b: &Vec<ModelId>) -> (r: Vec<ModelId>)
    requires
        strictly_sorted(ids_of(a@)),
    ensures
        strictly_sorted(ids_of(r@)),
        ids_of(r@) == ids_of(a@).filter(listed_in(ids_of(b@))),
{
    let ghost av = ids_of(a@);
    let ghost bv = ids_of(b@);
    let ghost p = listed_in(bv);
    let mut out: Vec<ModelId> = Vec::new();
    let mut i: usize = 0;
    assert(ids_of(out@) =~= av.take(0).filter(p)) by {
        reveal_with_fuel(Seq::filter, 1);
    }
    while i < a.len()
        invariant
            i <= av.len(),
            av == ids_of(a@),
            bv == ids_of(b@),
            p == listed_in(bv),
            strictly_sorted(av),
            strictly_sorted(ids_of(out@)),
            forall|k: int, m: int|
                0 <= k < out@.len() && i <= m < av.len() ==> text_less(
                    #[trigger] ids_of(out@)[k],
                    #[trigger] av[m],
                ),
            ids_of(out@) == av.take(i as int).filter(p),
        decreases av.len() - i,
    {
        assert(av[i as int] == a@[i as int]@);
        let ghost ov = ids_of(out@);
        assert(av.take(i + 1).drop_last() == av.take(i as int));
        assert(av.take(i + 1).last() == av[i as int]);
        let inb = lists(b, &a[i]);
        if inb {
            let id = copy_id(&a[i]);
            out.push(id);
            assert(ids_of(out@) =~= ov.push(av[i as int]));
        }
        assert(ids_of(out@) == av.take(i + 1).filter(p)) by {
            reveal_with_fuel(Seq::filter, 1);
        }
        i = i + 1;
    }
    assert(av.take(i as int) == av);
    out
}

impl AllowedModels {
    /// The allowed models of a model group: `None` for the lone denial
    /// sentinel, `All` for a wildcard, else the ids of its entries. An empty
    /// group, a blank entry, and the sentinel beside other entries are
    /// refused.
    pub fn from_group(models: &[String], catalog: &ModelCatalog) -> (r: Result<Self, String>)
        ensures
            match group_check(views(models@)) {
                Err(m) => r matches Err(e) && e@ == m,
                Ok(_) => r matches Ok(a) && a.wf() && if has_trimmed(views(models@), "__none__"@) {
                    a@ == AllowedView::Nothing
                } else if has_trimmed(views(models@), "*"@) {
                    a@ == AllowedView::All
                } else {
                    a@ is Models && forall|x: Seq<char>|
                        a.admits(x) <==> group_ids(catalog.alias_entries(), catalog.labels(), views(models@)).contains(x)
                },
            },
    {
        let ghost mv = views(models@);
        if models.len() == 0 {
            return Err(owned("model group must contain nonempty model names"));
        }
        let mut i: usize = 0;
        while i < models.len()
            invariant
                i <= models@.len(),
                mv == views(models@),
                forall|j: int| 0 <= j < i ==> trim_seq(#[trigger] mv[j]).len() != 0,
            decreases models@.len() - i,
        {
            assert(mv[i as int] == models@[i as int]@);
            if chars_of(trimmed(models[i].as_str()).as_str()).len() == 0 {
                return Err(owned("model group must contain nonempty model names"));
            }
            i = i + 1;
        }
        let mut sentinel = false;
        let mut wildcard = false;
        for k in 0..models.len()
            invariant
                mv == views(models@),
                sentinel == exists|j: int| 0 <= j < k && trim_seq(#[trigger] mv[j]) == "__none__"@,
                wildcard == exists|j: int| 0 <= j < k && trim_seq(#[trigger] mv[j]) == "*"@,
        {
            assert(mv[k as int] == models@[k as int]@);
            let t = trimmed(models[k].as_str());
            if str_eq(t.as_str(), "__none__") {
                sentinel = true;
            }
            if str_eq(t.as_str(), "*") {
                wildcard = true;
            }
        }
        if sentinel {
            if models.len() == 1 {
                return Ok(AllowedModels::Nothing);
            }
            return Err(owned("denial sentinel cannot be combined with model names"));
        }
        if wildcard {
            return Ok(AllowedModels::All);
        }
        let ghost es = catalog.alias_entries();
        let ghost lv = catalog.labels();
        let mut ids: Vec<ModelId> = Vec::new();
        for k in 0..models.len()
            invariant
                mv == views(models@),
                es == catalog.alias_entries(),
                lv == catalog.labels(),
                strictly_sorted(ids_of(ids@)),
                forall|x: Seq<char>|
                    ids_of(ids@).contains(x) <==> group_ids(es, lv, mv.take(k as int)).contains(x),
        {
            assert(mv[k as int] == models@[k as int]@);
            let id = catalog.resolve_group_model_id(models[k].as_str());
            let ghost before = ids_of(ids@);
            ids = insert_id(ids, id);
            assert forall|x: Seq<char>| ids_of(ids@).contains(x) <==> group_ids(es, lv, mv.take(k + 1)).contains(x) by {
                let t = mv.take(k + 1);
                assert(t[k as int] == mv[k as int]);
                if group_ids(es, lv, t).contains(x) {
                    let j = choose|j: int| 0 <= j < t.len() && group_id_spec(es, lv, #[trigger] t[j]) == x;
                    if j < k {
                        assert(mv.take(k as int)[j] == t[j]);
                        assert(group_ids(es, lv, mv.take(k as int)).contains(x));
                    }
                }
                let t0 = mv.take(k as int);
                if group_ids(es, lv, t0).contains(x) {
                    let j = choose|j: int| 0 <= j < t0.len() && group_id_spec(es, lv, #[trigger] t0[j]) == x;
                    assert(t[j] == t0[j]);
                }
            }
        }
        assert(mv.take(mv.len() as int) == mv);
        let r = AllowedModels::Models(ids);
        assert forall|x: Seq<char>| r.admits(x) <==> group_ids(es, lv, mv).contains(x) by {}
        Ok(r)
    }

    /// The allowed models of a legacy allowlist: an empty list allows
    /// everything, a list that is not a valid group allows nothing.
    pub fn from_legacy(models: &[String], catalog: &ModelCatalog) -> (r: Self)
        ensures
            r.wf(),
            models@.len() == 0 ==> r@ == AllowedView::All,
            models@.len() > 0 && group_check(views(models@)) is Err ==> r@ == AllowedView::Nothing,
            models@.len() > 0 && group_check(views(models@)) is Ok ==> (if has_trimmed(views(models@), "__none__"@) {
                r@ == AllowedView::Nothing
            } else if has_trimmed(views(models@), "*"@) {
                r@ == AllowedView::All
            } else {
                r@ is Models && forall|x: Seq<char>|
                    r.admits(x) <==> group_ids(catalog.alias_entries(), catalog.labels(), views(models@)).contains(x)
            }),
    {
        if models.len() == 0 {
            return AllowedModels::All;
        }
        match Self::from_group(models, catalog) {
            Ok(a) => a,
            Err(_) => AllowedModels::Nothing,
        }
    }

    /// The models allowed by either set.
    pub fn union(&self, other: &Self) -> (r: Self)
        requires
            self.wf(),
            other.wf(),
        ensures
            union_of(*self, *other, r),
    {
        match (self, other) {
            (AllowedModels::All, _) | (_, AllowedModels::All) => AllowedModels::All,
            (AllowedModels::Nothing, o) => o.duplicate(),
            (o, AllowedModels::Nothing) => o.duplicate(),
            (AllowedModels::Models(left), AllowedModels::Models(right)) => {
                let mut ids = copy_ids(left);
                for k in 0..right.len()
                    invariant
                        strictly_sorted(ids_of(ids@)),
                        strictly_sorted(ids_of(left@)),
                        forall|x: Seq<char>|
                            ids_of(ids@).contains(x) <==> (ids_of(left@).contains(x) || ids_of(right@).take(
                                k as int,
                            ).contains(x)),
                {
                    let ghost before = ids_of(ids@);
                    ids = insert_id(ids, copy_id(&right[k]));
                    assert forall|x: Seq<char>| ids_of(ids@).contains(x) <==> (ids_of(left@).contains(x)
                        || ids_of(right@).take(k + 1).contains(x)) by {
                        let rv = ids_of(right@);
                        assert(rv.take(k + 1) =~= rv.take(k as int).push(rv[k as int]));
                        let t1 = rv.take(k + 1);
                        let t0 = rv.take(k as int);
                        if t1.contains(x) && x != rv[k as int] {
                            let j = choose|j: int| 0 <= j < t1.len() && t1[j] == x;
                            assert(t0[j] == x);
                        }
                        if t0.contains(x) {
                            let j = choose|j: int| 0 <= j < t0.len() && t0[j] == x;
                            assert(t1[j] == x);
                        }
                        assert(t1[k as int] == rv[k as int]);
                    }
                }
                assert(ids_of(right@).take(right@.len() as int) == ids_of(right@));
                AllowedModels::Models(ids)
            },
        }
    }

    /// The models allowed by both sets; an empty common list allows nothing.
    pub fn intersection(&self, other: &Self) -> (r: Self)
        requires
            self.wf(),
            other.wf(),
        ensures
            r.wf(),
            forall|id: Seq<char>| r.admits(id) <==> (self.admits(id) && other.admits(id)),
            (self@ is Nothing || other@ is Nothing) ==> r@ == AllowedView::Nothing,
            !(self@ is Nothing || other@ is Nothing) && self@ is All ==> r@ == other@,
            !(self@ is Nothing || other@ is Nothing) && other@ is All ==> r@ == self@,
            r@ == meet(self@, other@),
    {
        match (self, other) {
            (AllowedModels::Nothing, _) | (_, AllowedModels::Nothing) => AllowedModels::Nothing,
            (AllowedModels::All, o) => {
                o.duplicate()
            },
            (o, AllowedModels::All) => o.duplicate(),
            (AllowedModels::Models(left), AllowedModels::Models(right)) => {
                let ids = common_ids(left, right);
                proof {
                    broadcast use vstd::seq_lib::group_filter_ensures;
                    let f = ids_of(left@).filter(listed_in(ids_of(right@)));
                    assert forall|id: Seq<char>| f.contains(id) <==> (ids_of(left@).contains(id)
                        && ids_of(right@).contains(id)) by {
                        if f.contains(id) {
                            ids_of(left@).lemma_filter_contains_rev(listed_in(ids_of(right@)), id);
                            let k = choose|k: int| 0 <= k < f.len() && f[k] == id;
                        }
                        if ids_of(left@).contains(id) && ids_of(right@).contains(id) {
                            let k = choose|k: int| 0 <= k < ids_of(left@).len() && ids_of(left@)[k] == id;
                        }
                    }
                }
                if ids.len() == 0 {
                    assert forall|id: Seq<char>| !(ids_of(left@).contains(id) && ids_of(right@).contains(id)) by {
                        if ids_of(left@).contains(id) && ids_of(right@).contains(id) {
                            assert(ids_of(ids@).contains(id));
                        }
                    }
                    AllowedModels::Nothing
                } else {
                    AllowedModels::Models(ids)
                }
            },
        }
    }

    /// Whether the set allows the model with id `id`.
    pub fn allows(&self, id: &ModelId) -> (r: bool)
        ensures
            r == self.admits(id@),
    {
        match self {
            AllowedModels::All => true,
            AllowedModels::Nothing => false,
            AllowedModels::Models(v) => lists(v, id),
        }
    }

    /// The set as a legacy allowlist: `*` for all, the denial sentinel for
    /// none, else the ids in order.
    pub fn legacy_projection(&self) -> (r: Vec<String>)
        ensures
            match self@ {
                AllowedView::All => views(r@) == seq!["*"@],
                AllowedView::Nothing => views(r@) == seq!["__none__"@],
                AllowedView::Models(ids) => views(r@) == ids,
            },
    {
        match self {
            AllowedModels::All => {
                let mut r: Vec<String> = Vec::new();
                r.push(owned("*"));
                assert(views(r@) =~= seq!["*"@]);
                r
            },
            AllowedModels::Nothing => {
                let mut r: Vec<String> = Vec::new();
                r.push(owned("__none__"));
                assert(views(r@) =~= seq!["__none__"@]);
                r
            },
            AllowedModels::Models(v) => {
                let mut r: Vec<String> = Vec::new();
                for i in 0..v.len()
                    invariant
                        views(r@) == ids_of(v@).take(i as int),
                {
                    let n = owned(v[i].as_str());
                    proof {
                        crate::text::lemma_views_push(r@, n);
                    }
                    r.push(n);
                    assert(views(r@) =~= ids_of(v@).take(i + 1));
                }
                assert(ids_of(v@).take(v@.len() as int) == ids_of(v@));
                r
            },
        }
    }
}

/// How a key's model access is decided: inherited from its owner, from a
/// model group, or denied.
#[derive(Clone, Copy, Debug, PartialEq, Eq, Structural)]
pub enum AccessMode {
    Inherit,
    Group,
    Deny,
}

impl AccessMode {
    /// The mode's stored name.
    pub fn as_str(self) -> (r: &'static str)
        ensures
            self == AccessMode::Inherit ==> r@ == "inherit"@,
            self == AccessMode::Group ==> r@ == "group"@,
            self == AccessMode::Deny ==> r@ == "deny"@,
    {
        match self {
            AccessMode::Inherit => "inherit",
            AccessMode::Group => "group",
            AccessMode::Deny => "deny",
        }
    }
}

/// A key's chosen access: the mode, and the model group in group mode.
#[derive(Clone, Debug, PartialEq, Eq)]
pub struct ModelAccessSelection {
    pub mode: AccessMode,
    pub group_id: Option<String>,
}

impl Default for ModelAccessSelection {
    fn default() -> (r: Self)
        ensures
            r.mode == AccessMode::Inherit,
            r.group_id is None,
    {
        ModelAccessSelection { mode: AccessMode::Inherit, group_id: None }
    }
}

/// A selection is consistent: group mode names a non-blank group, the
/// other modes name none.
pub open spec fn selection_ok(mode: AccessMode, group_id: Option<String>) -> bool {
    match group_id {
        Some(id) => mode == AccessMode::Group && !is_blank(id@),
        None => mode != AccessMode::Group,
    }
}

impl ModelAccessSelection {
    pub fn validate(&self) -> (r: Result<(), String>)
        ensures
            selection_ok(self.mode, self.group_id) ==> r is Ok,
            !selection_ok(self.mode, self.group_id) ==> (r matches Err(m) && m@
                == "group mode requires group_id; inherit and deny must not include it"@),
    {
        let ok = match &self.group_id {
            Some(id) => self.mode == AccessMode::Group && !blank(id.as_str()),
            None => self.mode != AccessMode::Group,
        };
        if ok {
            Ok(())
        } else {
            Err(owned("group mode requires group_id; inherit and deny must not include it"))
        }
    }

    /// The selection a stored group id stands for: the `deny-all` group
    /// denies, any other id selects that group.
    pub fn from_group_id(id: &str) -> (r: Self)
        ensures
            id@ == "deny-all"@ ==> r.mode == AccessMode::Deny && r.group_id is None,
            id@ != "deny-all"@ ==> r.mode == AccessMode::Group && (r.group_id matches Some(g) && g@
                == id@),
    {
        if str_eq(id, "deny-all") {
            ModelAccessSelection { mode: AccessMode::Deny, group_id: None }
        } else {
            ModelAccessSelection { mode: AccessMode::Group, group_id: Some(owned(id)) }
        }
    }

    /// The group id stored for the selection: its group, else `deny-all`.
    pub fn stored_group_id(&self) -> (r: &str)
        ensures
            match self.group_id {
                Some(g) => r@ == g@,
                None => r@ == "deny-all"@,
            },
    {
        match &self.group_id {
            Some(g) => g.as_str(),
            None => "deny-all",
        }
    }
}

/// A key's stored access policy.
#[derive(Clone, Debug)]
pub struct AccessPolicy {
    pub downstream_id: String,
    pub subject_kind: String,
    pub owner_user_id: Option<String>,
    pub mode: AccessMode,
    pub model_group_id: String,
    pub revision: i64,
}

impl AccessPolicy {
    /// The selection the policy stores: its group only in group mode.
    pub fn selection(&self) -> (r: ModelAccessSelection)
        ensures
            r.mode == self.mode,
            self.mode == AccessMode::Group ==> (r.group_id matches Some(g) && g@ == self.model_group_id@),
            self.mode != AccessMode::Group ==> r.group_id is None,
    {
        ModelAccessSelection {
            mode: self.mode,
            group_id: if self.mode == AccessMode::Group {
                Some(self.model_group_id.clone())
            } else {
                None
            },
        }
    }
}

/// The access a key ends up with, and why.
#[derive(Clone, Debug)]
pub struct ResolvedModelAccess {
    pub policy: Option<AccessPolicy>,
    pub allowed: AllowedModels,
    pub user_group_ids: Vec<String>,
    pub reason: Option<String>,
}

/// A change to keys and their access policies, applied together.
#[derive(Clone, Debug)]
pub enum AccessMutation {
    Update { downstream_id: String, selection: ModelAccessSelection, actor_user_id: Option<String> },
    CreatePortal {
        downstream_id: String,
        user_id: String,
        label: Option<String>,
        selection: ModelAccessSelection,
    },
    Bind {
        downstream_id: String,
        user_id: String,
        is_default: Option<bool>,
        label: Option<String>,
        selection: Option<ModelAccessSelection>,
        grant_existing: bool,
    },
    Unbind { downstream_id: String, user_id: String },
    SetDefault { downstream_id: String, user_id: String },
    SetLabel { downstream_id: String, user_id: String, label: Option<String> },
    RotatePortal { old_id: String, new_id: String, user_id: String },
}

/// The models a key may use. A denied key uses none. A portal key is
/// bounded by its owner's ceiling: inheriting takes the ceiling, a group
/// takes the group within the ceiling, and without an owner it uses none.
/// Any other key uses its group in group mode, else none.
pub fn resolve_effective_models(
    mode: AccessMode,
    portal: bool,
    owner: Option<&AllowedModels>,
    group: &AllowedModels,
) -> (r: AllowedModels)
    requires
        owner matches Some(c) ==> c.wf(),
        group.wf(),
    ensures
        r.wf(),
        mode == AccessMode::Deny ==> r@ == AllowedView::Nothing,
        mode != AccessMode::Deny && portal ==> match owner {
            Some(c) => if mode == AccessMode::Inherit {
                r@ == c@
            } else {
                r@ == meet(c@, group@) && forall|id: Seq<char>| r.admits(id) <==> (c.admits(id) && group.admits(id))
            },
            None => r@ == AllowedView::Nothing,
        },
        mode != AccessMode::Deny && !portal ==> if mode == AccessMode::Group {
            r@ == group@
        } else {
            r@ == AllowedView::Nothing
        },
        portal ==> forall|id: Seq<char>| r.admits(id) ==> (owner matches Some(c) && c.admits(id)),
{
    if mode == AccessMode::Deny {
        return AllowedModels::Nothing;
    }
    if portal {
        match owner {
            Some(ceiling) => if mode == AccessMode::Inherit {
                ceiling.duplicate()
            } else {
                ceiling.intersection(group)
            },
            None => AllowedModels::Nothing,
        }
    } else if mode == AccessMode::Group {
        group.duplicate()
    } else {
        AllowedModels::Nothing
    }
}

/// The model group stored under `id`: the first entry with that key.
pub open spec fn group_for(groups: Seq<(String, Vec<String>)>, id: Seq<char>) -> Option<Vec<String>>
    decreases groups.len(),
{
    if groups.len() == 0 {
        None
    } else if groups[0].0@ == id {
        Some(groups[0].1)
    } else {
        group_for(groups.drop_first(), id)
    }
}

/// The allowed models of the model group `id` among `groups`; a missing
/// group and an invalid one are refused with their message.
pub fn resolve_group(groups: &Vec<(String, Vec<String>)>, id: &str, catalog: &ModelCatalog) -> (r: Result<
    AllowedModels,
    String,
>)
    ensures
        match group_for(groups@, id@) {
            None => r matches Err(m) && m@ == "missing model group: "@ + id@,
            Some(models) => match group_check(views(models@)) {
                Err(m) => r matches Err(e) && e@ == m,
                Ok(_) => r matches Ok(a) && a.wf(),
            },
        },
{
    let mut i: usize = 0;
    assert(groups@.skip(0) == groups@);
    while i < groups.len()
        invariant
            i <= groups@.len(),
            group_for(groups@, id@) == group_for(groups@.skip(i as int), id@),
        decreases groups@.len() - i,
    {
        assert(groups@.skip(i as int).drop_first() == groups@.skip(i + 1));
        if str_eq(groups[i].0.as_str(), id) {
            return AllowedModels::from_group(groups[i].1.as_slice(), catalog);
        }
        i = i + 1;
    }
    let mut m = owned("missing model group: ");
    crate::text::push_text(&mut m, id);
    Err(m)
}

} // verus!
