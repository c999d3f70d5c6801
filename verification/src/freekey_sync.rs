//! Upstreams imported from an external key list: merging keys and per-key
//! model lists into an upstream.
use vstd::prelude::*;
use crate::config::{key_models_view, ApiKeyModelConfig, KeyModelsView};
use crate::normalize::{flatten_models, normalized_list};
use crate::text::{blank, owned, chars_of, clone_strings, contains_text, str_eq, trim_seq, trimmed, views};
use crate::config::opt_view;
use crate::normalize::{first_key_pos, stored_form};
use crate::config::UpstreamConfig;

verus! {

/// What an import did: upstreams created, items merged into existing
/// upstreams, items skipped.
#[derive(Debug, Clone, PartialEq, Eq)]
pub struct FreekeySyncSummary {
    pub created: usize,
    pub updated: usize,
    pub skipped: usize,
}

impl Default for FreekeySyncSummary {
    fn default() -> (r: Self)
        ensures
            r.created == 0 && r.updated == 0 && r.skipped == 0,
    {
        FreekeySyncSummary { created: 0, updated: 0, skipped: 0 }
    }
}

/// One imported key: the upstream it belongs to, the key, one model it
/// serves, and whether the key still works.
#[derive(Debug, Clone)]
pub struct FreekeySyncItem {
    pub name: Option<String>,
    pub base_url: String,
    pub api_key: String,
    pub model: String,
    pub valid: bool,
}

/// `existing` followed by the new non-blank trimmed keys of `incoming`, each
/// once.
pub open spec fn merged_keys(existing: Seq<Seq<char>>, incoming: Seq<Seq<char>>) -> Seq<Seq<char>>
    decreases incoming.len(),
{
    if incoming.len() == 0 {
        existing
    } else {
        let acc = merged_keys(existing, incoming.drop_last());
        let k = trim_seq(incoming.last());
        if k.len() == 0 || acc.contains(k) {
            acc
        } else {
            acc.push(k)
        }
    }
}

/// Adds the keys of `incoming`, trimmed, that are neither blank nor already
/// present, after the existing keys.
pub fn merge_api_keys(existing: &[String], incoming: &[String]) -> (r: Vec<String>)
    ensures
        views(r@) == merged_keys(views(existing@), views(incoming@)),
{
    let ghost inv = views(incoming@);
    let mut keys: Vec<String> = Vec::new();
    for i in 0..existing.len()
        invariant
            views(keys@) == views(existing@).take(i as int),
    {
        let k = existing[i].clone();
        proof {
            crate::text::lemma_views_push(keys@, k);
        }
        keys.push(k);
        assert(views(keys@) =~= views(existing@).take(i + 1));
    }
    assert(views(existing@).take(existing@.len() as int) == views(existing@));
    for i in 0..incoming.len()
        invariant
            inv == views(incoming@),
            views(keys@) == merged_keys(views(existing@), inv.take(i as int)),
    {
        assert(inv.take(i + 1).drop_last() == inv.take(i as int));
        assert(inv.take(i + 1).last() == incoming@[i as int]@);
        let key = trimmed(incoming[i].as_str());
        if chars_of(key.as_str()).len() > 0 && !contains_text(&keys, &chars_of(key.as_str())) {
            proof {
                crate::text::lemma_views_push(keys@, key);
            }
            keys.push(key);
        }
    }
    assert(inv.take(inv.len() as int) == inv);
    keys
}

/// Position of the first entry whose trimmed key is `k`.
pub open spec fn trimmed_key_pos(es: Seq<KeyModelsView>, k: Seq<char>) -> Option<int>
    decreases es.len(),
{
    if es.len() == 0 {
        None
    } else {
        match trimmed_key_pos(es.drop_last(), k) {
            Some(i) => Some(i),
            None => if trim_seq(es.last().0) == k {
                Some(es.len() - 1)
            } else {
                None
            },
        }
    }
}

pub proof fn lemma_trimmed_key_pos(es: Seq<KeyModelsView>, k: Seq<char>)
    ensures
        trimmed_key_pos(es, k) matches Some(i) ==> 0 <= i < es.len() && trim_seq(es[i].0) == k,
    decreases es.len(),
{
    if es.len() > 0 {
        lemma_trimmed_key_pos(es.drop_last(), k);
    }
}

/// Some model of `models`, trimmed, is `m`.
pub open spec fn lists_trimmed(models: Seq<Seq<char>>, m: Seq<char>) -> bool {
    exists|j: int| 0 <= j < models.len() && trim_seq(#[trigger] models[j]) == m
}

/// `models` with the non-blank trimmed models of `incoming` it does not
/// list yet appended.
pub open spec fn added_models(models: Seq<Seq<char>>, incoming: Seq<Seq<char>>) -> Seq<Seq<char>>
    decreases incoming.len(),
{
    if incoming.len() == 0 {
        models
    } else {
        let acc = added_models(models, incoming.drop_last());
        let m = trim_seq(incoming.last());
        if m.len() == 0 || lists_trimmed(acc, m) {
            acc
        } else {
            acc.push(m)
        }
    }
}

/// The non-blank trimmed models of a list, in order.
pub open spec fn trimmed_models(models: Seq<Seq<char>>) -> Seq<Seq<char>>
    decreases models.len(),
{
    if models.len() == 0 {
        Seq::empty()
    } else {
        trimmed_models(models.drop_last()) + if trim_seq(models.last()).len() > 0 {
            seq![trim_seq(models.last())]
        } else {
            Seq::empty()
        }
    }
}

/// `existing` with the per-key models of `incoming` merged in: a key that
/// is already there gains its new models, a new key is added with its
/// models; blank keys and models are ignored.
pub open spec fn merged_key_models(existing: Seq<KeyModelsView>, incoming: Seq<KeyModelsView>) -> Seq<
    KeyModelsView,
>
    decreases incoming.len(),
{
    if incoming.len() == 0 {
        existing
    } else {
        let acc = merged_key_models(existing, incoming.drop_last());
        let item = incoming.last();
        let k = trim_seq(item.0);
        if k.len() == 0 {
            acc
        } else {
            match trimmed_key_pos(acc, k) {
                Some(i) => acc.update(i, (acc[i].0, added_models(acc[i].1, item.1))),
                None => acc.push((k, trimmed_models(item.1))),
            }
        }
    }
}

pub(crate) fn copy_key_models(v: &[ApiKeyModelConfig]) -> (r: Vec<ApiKeyModelConfig>)
    ensures
        key_models_view(r@) == key_models_view(v@),
{
    let mut r: Vec<ApiKeyModelConfig> = Vec::new();
    for i in 0..v.len()
        invariant
            r@.len() == i,
            forall|j: int|
                0 <= j < i ==> (#[trigger] r@[j]).api_key@ == v@[j].api_key@ && views(r@[j].supported_models@)
                    == views(v@[j].supported_models@),
    {
        r.push(
            ApiKeyModelConfig { api_key: v[i].api_key.clone(), supported_models: clone_strings(&v[i].supported_models) },
        );
    }
    assert(key_models_view(r@) =~= key_models_view(v@));
    r
}

fn lists_trimmed_exec(models: &Vec<String>, m: &str) -> (r: bool)
    ensures
        r == lists_trimmed(views(models@), m@),
{
    let ghost mv = views(models@);
    let mut j: usize = 0;
    while j < models.len()
        invariant
            j <= models@.len(),
            mv == views(models@),
            forall|t: int| 0 <= t < j ==> trim_seq(#[trigger] mv[t]) != m@,
        decreases models@.len() - j,
    {
        assert(mv[j as int] == models@[j as int]@);
        if str_eq(trimmed(models[j].as_str()).as_str(), m) {
            return true;
        }
        j = j + 1;
    }
    false
}

fn add_models(models: &mut Vec<String>, incoming: &Vec<String>)
    ensures
        views(final(models)@) == added_models(views(old(models)@), views(incoming@)),
{
    let ghost base = views(models@);
    let ghost inv = views(incoming@);
    for k in 0..incoming.len()
        invariant
            inv == views(incoming@),
            views(models@) == added_models(base, inv.take(k as int)),
    {
        assert(inv.take(k + 1).drop_last() == inv.take(k as int));
        assert(inv.take(k + 1).last() == incoming@[k as int]@);
        let m = trimmed(incoming[k].as_str());
        if chars_of(m.as_str()).len() > 0 && !lists_trimmed_exec(models, m.as_str()) {
            proof {
                crate::text::lemma_views_push(models@, m);
            }
            models.push(m);
        }
    }
    assert(inv.take(inv.len() as int) == inv);
}

fn trimmed_nonblank(models: &Vec<String>) -> (r: Vec<String>)
    ensures
        views(r@) == trimmed_models(views(models@)),
{
    let ghost mv = views(models@);
    let mut out: Vec<String> = Vec::new();
    for k in 0..models.len()
        invariant
            mv == views(models@),
            views(out@) == trimmed_models(mv.take(k as int)),
    {
        assert(mv.take(k + 1).drop_last() == mv.take(k as int));
        assert(mv.take(k + 1).last() == models@[k as int]@);
        let m = trimmed(models[k].as_str());
        if chars_of(m.as_str()).len() > 0 {
            proof {
                crate::text::lemma_views_push(out@, m);
            }
            out.push(m);
        }
    }
    assert(mv.take(mv.len() as int) == mv);
    out
}

/// Merges per-key model lists: models of a key already present are added
/// to its list, new keys are appended with their models.
pub fn merge_api_key_models(existing: &[ApiKeyModelConfig], incoming: &[ApiKeyModelConfig]) -> (r: Vec<
    ApiKeyModelConfig,
>)
    ensures
        key_models_view(r@) == merged_key_models(key_models_view(existing@), key_models_view(incoming@)),
{
    let ghost inv = key_models_view(incoming@);
    let mut merged = copy_key_models(existing);
    for i in 0..incoming.len()
        invariant
            inv == key_models_view(incoming@),
            key_models_view(merged@) == merged_key_models(key_models_view(existing@), inv.take(i as int)),
    {
        assert(inv.take(i + 1).drop_last() == inv.take(i as int));
        assert(inv.take(i + 1).last() == inv[i as int]);
        let new_key = trimmed(incoming[i].api_key.as_str());
        if chars_of(new_key.as_str()).len() > 0 {
            let ghost acc = key_models_view(merged@);
            let mut found: Option<usize> = None;
            for j in 0..merged.len()
                invariant
                    acc == key_models_view(merged@),
                    found matches Some(f) ==> trimmed_key_pos(acc.take(j as int), new_key@) == Some(f as int),
                    found is None ==> trimmed_key_pos(acc.take(j as int), new_key@) is None,
            {
                assert(acc.take(j + 1).drop_last() == acc.take(j as int));
                assert(acc.take(j + 1).last() == acc[j as int]);
                if found.is_none() && str_eq(trimmed(merged[j].api_key.as_str()).as_str(), new_key.as_str()) {
                    found = Some(j);
                }
            }
            assert(acc.take(acc.len() as int) == acc);
            proof {
                lemma_trimmed_key_pos(acc, new_key@);
            }
            match found {
                Some(j) => {
                    let mut entry = merged.remove(j);
                    add_models(&mut entry.supported_models, &incoming[i].supported_models);
                    merged.insert(j, entry);
                    assert(key_models_view(merged@) =~= acc.update(
                        j as int,
                        (acc[j as int].0, added_models(acc[j as int].1, inv[i as int].1)),
                    ));
                },
                None => {
                    let models = trimmed_nonblank(&incoming[i].supported_models);
                    merged.push(ApiKeyModelConfig { api_key: new_key, supported_models: models });
                    assert(key_models_view(merged@) =~= acc.push(
                        (trim_seq(inv[i as int].0), trimmed_models(inv[i as int].1)),
                    ));
                },
            }
        }
    }
    assert(inv.take(inv.len() as int) == inv);
    merged
}

/// Every model of every per-key list, trimmed, non-blank, first occurrences.
pub fn derive_supported_models(key_models: &[ApiKeyModelConfig]) -> (r: Vec<String>)
    ensures
        views(r@) == normalized_list(flatten_models(key_models_view(key_models@))),
{
    let v = copy_key_models(key_models);
    proof {
        assert(key_models_view(v@) == key_models_view(key_models@));
    }
    crate::normalize::derive_supported_models(&v)
}

/// An imported item as plain values, trimmed: name, base URL, key, model,
/// validity.
pub type ItemView = (Option<Seq<char>>, Seq<char>, Seq<char>, Seq<char>, bool);

/// A name trimmed, when not blank.
pub open spec fn trimmed_name(name: Option<String>) -> Option<Seq<char>> {
    match name {
        Some(n) => if trim_seq(n@).len() > 0 {
            Some(trim_seq(n@))
        } else {
            None
        },
        None => None,
    }
}

/// An imported item trimmed; none when its base URL, key or model is blank.
pub open spec fn cleaned_item(item: FreekeySyncItem) -> Option<ItemView> {
    let b = trim_seq(item.base_url@);
    let k = trim_seq(item.api_key@);
    let m = trim_seq(item.model@);
    if b.len() == 0 || k.len() == 0 || m.len() == 0 {
        None
    } else {
        Some((trimmed_name(item.name), b, k, m, item.valid))
    }
}

/// The usable imported items, trimmed, in order.
pub open spec fn cleaned(items: Seq<FreekeySyncItem>) -> Seq<ItemView>
    decreases items.len(),
{
    if items.len() == 0 {
        Seq::empty()
    } else {
        let rest = cleaned(items.drop_last());
        match cleaned_item(items.last()) {
            Some(v) => rest.push(v),
            None => rest,
        }
    }
}

pub open spec fn item_view(item: FreekeySyncItem) -> ItemView {
    (opt_view(item.name), item.base_url@, item.api_key@, item.model@, item.valid)
}

pub open spec fn item_views(items: Seq<FreekeySyncItem>) -> Seq<ItemView> {
    items.map_values(|i: FreekeySyncItem| item_view(i))
}

/// The base URLs of the items, each once, in order of first appearance.
pub open spec fn base_urls(items: Seq<ItemView>) -> Seq<Seq<char>>
    decreases items.len(),
{
    if items.len() == 0 {
        Seq::empty()
    } else {
        let rest = base_urls(items.drop_last());
        if rest.contains(items.last().1) {
            rest
        } else {
            rest.push(items.last().1)
        }
    }
}

/// What the items of one base URL fold into: keys and models of the valid
/// items (each once, in order), per-key models, the last name given, and how
/// many items and valid items there are.
pub type GroupView = (Seq<Seq<char>>, Seq<Seq<char>>, Seq<KeyModelsView>, Option<Seq<char>>, nat, nat);

/// The items of base URL `b` folded, in order.
pub open spec fn fold_group(items: Seq<ItemView>, b: Seq<char>) -> GroupView
    decreases items.len(),
{
    if items.len() == 0 {
        (Seq::empty(), Seq::empty(), Seq::empty(), None, 0, 0)
    } else {
        let g = fold_group(items.drop_last(), b);
        let it = items.last();
        if it.1 != b {
            g
        } else {
            let name = if it.0 is Some {
                it.0
            } else {
                g.3
            };
            if !it.4 {
                (g.0, g.1, g.2, name, g.4 + 1, g.5)
            } else {
                let keys = if g.0.contains(it.2) {
                    g.0
                } else {
                    g.0.push(it.2)
                };
                let models = if g.1.contains(it.3) {
                    g.1
                } else {
                    g.1.push(it.3)
                };
                let per_key = match first_key_pos(g.2, it.2) {
                    Some(p) => if g.2[p].1.contains(it.3) {
                        g.2
                    } else {
                        g.2.update(p, (g.2[p].0, g.2[p].1.push(it.3)))
                    },
                    None => g.2.push((it.2, seq![it.3])),
                };
                (keys, models, per_key, name, g.4 + 1, g.5 + 1)
            }
        }
    }
}

fn clean_item(item: &FreekeySyncItem) -> (r: Option<FreekeySyncItem>)
    ensures
        match cleaned_item(*item) {
            Some(v) => r matches Some(c) && item_view(c) == v,
            None => r is None,
        },
{
    let base_url = trimmed(item.base_url.as_str());
    let api_key = trimmed(item.api_key.as_str());
    let model = trimmed(item.model.as_str());
    let name = match &item.name {
        Some(n) => if blank(n.as_str()) {
            None
        } else {
            Some(trimmed(n.as_str()))
        },
        None => None,
    };
    if blank(item.base_url.as_str()) || blank(item.api_key.as_str()) || blank(item.model.as_str()) {
        return None;
    }
    Some(FreekeySyncItem { name, base_url, api_key, model, valid: item.valid })
}

fn clean_items(items: &Vec<FreekeySyncItem>) -> (r: Vec<FreekeySyncItem>)
    ensures
        item_views(r@) == cleaned(items@),
{
    let mut r: Vec<FreekeySyncItem> = Vec::new();
    for i in 0..items.len()
        invariant
            item_views(r@) == cleaned(items@.take(i as int)),
    {
        assert(items@.take(i + 1).drop_last() == items@.take(i as int));
        match clean_item(&items[i]) {
            Some(c) => {
                let ghost before = item_views(r@);
                r.push(c);
                assert(item_views(r@) == before.push(item_view(c)));
            },
            None => {},
        }
    }
    assert(items@.take(items@.len() as int) == items@);
    r
}

fn collect_base_urls(items: &Vec<FreekeySyncItem>) -> (r: Vec<String>)
    ensures
        views(r@) == base_urls(item_views(items@)),
{
    let ghost iv = item_views(items@);
    let mut r: Vec<String> = Vec::new();
    for i in 0..items.len()
        invariant
            iv == item_views(items@),
            views(r@) == base_urls(iv.take(i as int)),
    {
        assert(iv.take(i + 1).drop_last() == iv.take(i as int));
        assert(iv[i as int].1 == items@[i as int].base_url@);
        if !contains_text(&r, &chars_of(items[i].base_url.as_str())) {
            let ghost before = r@;
            r.push(items[i].base_url.clone());
            proof {
                crate::text::lemma_views_push(before, r@.last());
                assert(r@ == before.push(r@.last()));
            }
        }
    }
    assert(iv.take(iv.len() as int) == iv);
    r
}

fn position_of_key(entries: &Vec<ApiKeyModelConfig>, key: &str) -> (r: Option<usize>)
    ensures
        match r {
            Some(p) => p < entries@.len() && first_key_pos(key_models_view(entries@), key@) == Some(p as int),
            None => first_key_pos(key_models_view(entries@), key@) is None,
        },
{
    let ghost es = key_models_view(entries@);
    proof {
        crate::normalize::lemma_first_key_pos(es, key@);
    }
    let mut i: usize = 0;
    while i < entries.len()
        invariant
            i <= entries@.len(),
            es == key_models_view(entries@),
            forall|j: int| 0 <= j < i ==> (#[trigger] es[j]).0 != key@,
        decreases entries@.len() - i,
    {
        assert(es[i as int].0 == entries@[i as int].api_key@);
        if str_eq(entries[i].api_key.as_str(), key) {
            proof {
                lemma_first_key_pos_exact(es, key@, i as int);
            }
            return Some(i);
        }
        i = i + 1;
    }
    None
}

proof fn lemma_first_key_pos_exact(es: Seq<KeyModelsView>, k: Seq<char>, i: int)
    requires
        0 <= i < es.len(),
        es[i].0 == k,
        forall|j: int| 0 <= j < i ==> (#[trigger] es[j]).0 != k,
    ensures
        first_key_pos(es, k) == Some(i),
    decreases es.len(),
{
    if es.len() - 1 > i {
        lemma_first_key_pos_exact(es.drop_last(), k, i);
    } else {
        crate::normalize::lemma_first_key_pos(es.drop_last(), k);
        assert forall|j: int| 0 <= j < es.drop_last().len() implies (#[trigger] es.drop_last()[j]).0 != k by {
            assert(es.drop_last()[j] == es[j]);
        }
    }
}

/// The items of one base URL folded (see `fold_group`).
pub struct FoldedGroup {
    pub keys: Vec<String>,
    pub models: Vec<String>,
    pub key_models: Vec<ApiKeyModelConfig>,
    pub name: Option<String>,
    pub items: usize,
    pub valid_items: usize,
}

pub open spec fn folded_view(f: FoldedGroup) -> GroupView {
    (views(f.keys@), views(f.models@), key_models_view(f.key_models@), opt_view(f.name), f.items as nat, f.valid_items as nat)
}

fn fold_items(items: &Vec<FreekeySyncItem>, base_url: &str) -> (r: FoldedGroup)
    ensures
        folded_view(r) == fold_group(item_views(items@), base_url@),
{
    let ghost iv = item_views(items@);
    let mut f = FoldedGroup {
        keys: Vec::new(),
        models: Vec::new(),
        key_models: Vec::new(),
        name: None,
        items: 0,
        valid_items: 0,
    };
    proof {
        assert(views(f.keys@) =~= Seq::<Seq<char>>::empty());
        assert(views(f.models@) =~= Seq::<Seq<char>>::empty());
        assert(key_models_view(f.key_models@) =~= Seq::<KeyModelsView>::empty());
    }
    for i in 0..items.len()
        invariant
            iv == item_views(items@),
            folded_view(f) == fold_group(iv.take(i as int), base_url@),
            f.items <= i,
            f.valid_items <= i,
    {
        assert(iv.take(i + 1).drop_last() == iv.take(i as int));
        let it = &items[i];
        assert(iv[i as int] == item_view(*it));
        let ghost g = fold_group(iv.take(i as int), base_url@);
        if str_eq(it.base_url.as_str(), base_url) {
            if let Some(n) = &it.name {
                f.name = Some(n.clone());
            }
            assert(opt_view(f.name) == if iv[i as int].0 is Some { iv[i as int].0 } else { g.3 });
            if it.valid {
                if !contains_text(&f.keys, &chars_of(it.api_key.as_str())) {
                    let ghost before = f.keys@;
                    f.keys.push(it.api_key.clone());
                    proof {
                        crate::text::lemma_views_push(before, f.keys@.last());
                        assert(f.keys@ == before.push(f.keys@.last()));
                    }
                }
                if !contains_text(&f.models, &chars_of(it.model.as_str())) {
                    let ghost before = f.models@;
                    f.models.push(it.model.clone());
                    proof {
                        crate::text::lemma_views_push(before, f.models@.last());
                        assert(f.models@ == before.push(f.models@.last()));
                    }
                }
                let ghost kms = key_models_view(f.key_models@);
                match position_of_key(&f.key_models, it.api_key.as_str()) {
                    Some(p) => {
                        proof {
                            crate::normalize::lemma_first_key_pos(kms, it.api_key@);
                        }
                        assert(kms[p as int] == (f.key_models@[p as int].api_key@, views(f.key_models@[p as int].supported_models@)));
                        if !contains_text(&f.key_models[p].supported_models, &chars_of(it.model.as_str())) {
                            let mut entry = ApiKeyModelConfig {
                                api_key: f.key_models[p].api_key.clone(),
                                supported_models: clone_strings(&f.key_models[p].supported_models),
                            };
                            let ghost before = entry.supported_models@;
                            entry.supported_models.push(it.model.clone());
                            proof {
                                crate::text::lemma_views_push(before, entry.supported_models@.last());
                                assert(entry.supported_models@ == before.push(entry.supported_models@.last()));
                            }
                            f.key_models.set(p, entry);
                            assert(key_models_view(f.key_models@) == kms.update(
                                p as int,
                                (kms[p as int].0, kms[p as int].1.push(it.model@)),
                            ));
                        }
                    },
                    None => {
                        let mut models: Vec<String> = Vec::new();
                        models.push(it.model.clone());
                        assert(views(models@) == seq![it.model@]);
                        f.key_models.push(ApiKeyModelConfig { api_key: it.api_key.clone(), supported_models: models });
                        assert(key_models_view(f.key_models@) == kms.push((it.api_key@, seq![it.model@])));
                    },
                }
                f.valid_items = f.valid_items + 1;
                assert(views(f.keys@) == (if g.0.contains(it.api_key@) { g.0 } else { g.0.push(it.api_key@) }));
                assert(views(f.models@) == (if g.1.contains(it.model@) { g.1 } else { g.1.push(it.model@) }));
                assert(key_models_view(f.key_models@) == match first_key_pos(g.2, it.api_key@) {
                    Some(p) => if g.2[p].1.contains(it.model@) {
                        g.2
                    } else {
                        g.2.update(p, (g.2[p].0, g.2[p].1.push(it.model@)))
                    },
                    None => g.2.push((it.api_key@, seq![it.model@])),
                });
            }
            f.items = f.items + 1;
            assert(folded_view(f) == fold_group(iv.take(i + 1), base_url@));
        } else {
            assert(folded_view(f) == fold_group(iv.take(i + 1), base_url@));
        }
    }
    assert(iv.take(iv.len() as int) == iv);
    f
}

/// Some upstream at `b` is managed by hand.
pub open spec fn manual_at(s: Seq<UpstreamConfig>, b: Seq<char>) -> bool {
    exists|i: int| 0 <= i < s.len() && (#[trigger] s[i]).base_url@ == b && !s[i].auto_managed
}

/// An upstream at `b` that imports manage.
pub open spec fn auto_at(u: UpstreamConfig, b: Seq<char>) -> bool {
    u.base_url@ == b && u.auto_managed
}

/// `i` is the first imported upstream at `b`.
pub open spec fn first_auto(s: Seq<UpstreamConfig>, b: Seq<char>, i: int) -> bool {
    &&& 0 <= i < s.len()
    &&& auto_at(s[i], b)
    &&& forall|j: int| 0 <= j < i ==> !auto_at(#[trigger] s[j], b)
}

/// Some imported upstream is at `b`.
pub open spec fn has_auto(s: Seq<UpstreamConfig>, b: Seq<char>) -> bool {
    exists|i: int| first_auto(s, b, i)
}

/// A group gives no key or no model.
pub open spec fn group_empty(g: GroupView) -> bool {
    g.0.len() == 0 || g.1.len() == 0
}

/// What a sync does with the items of `b`: skip them (a hand-managed
/// upstream is there, or nothing usable and no imported upstream), clear the
/// imported upstream, replace its keys, or create one.
pub open spec fn group_skipped(s: Seq<UpstreamConfig>, c: Seq<ItemView>, b: Seq<char>) -> bool {
    manual_at(s, b) || (group_empty(fold_group(c, b)) && !has_auto(s, b))
}

pub open spec fn group_clears(s: Seq<UpstreamConfig>, c: Seq<ItemView>, b: Seq<char>) -> bool {
    !manual_at(s, b) && group_empty(fold_group(c, b)) && has_auto(s, b)
}

pub open spec fn group_replaces(s: Seq<UpstreamConfig>, c: Seq<ItemView>, b: Seq<char>) -> bool {
    !manual_at(s, b) && !group_empty(fold_group(c, b)) && has_auto(s, b)
}

pub open spec fn group_creates(s: Seq<UpstreamConfig>, c: Seq<ItemView>, b: Seq<char>) -> bool {
    !manual_at(s, b) && !group_empty(fold_group(c, b)) && !has_auto(s, b)
}

/// `n` capped at `usize::MAX`.
pub open spec fn capped(n: int) -> usize {
    if n > usize::MAX {
        usize::MAX
    } else {
        n as usize
    }
}

/// The counts (created, updated, skipped) of a sync over the base URLs
/// `bs`: skipped and cleared groups count all their items, replaced and
/// created ones their valid items.
pub open spec fn tally(s: Seq<UpstreamConfig>, c: Seq<ItemView>, bs: Seq<Seq<char>>) -> (usize, usize, usize)
    decreases bs.len(),
{
    if bs.len() == 0 {
        (0, 0, 0)
    } else {
        let t = tally(s, c, bs.drop_last());
        let b = bs.last();
        let g = fold_group(c, b);
        if group_skipped(s, c, b) {
            (t.0, t.1, capped(t.2 + g.4))
        } else if group_clears(s, c, b) {
            (t.0, capped(t.1 + g.4), t.2)
        } else if group_replaces(s, c, b) {
            (t.0, capped(t.1 + g.5), t.2)
        } else {
            (capped(t.0 + g.5), t.1, t.2)
        }
    }
}

/// The base URLs among `bs` that get a new upstream, in order.
pub open spec fn creating(s: Seq<UpstreamConfig>, c: Seq<ItemView>, bs: Seq<Seq<char>>) -> Seq<Seq<char>>
    decreases bs.len(),
{
    if bs.len() == 0 {
        Seq::empty()
    } else {
        let rest = creating(s, c, bs.drop_last());
        if group_creates(s, c, bs.last()) {
            rest.push(bs.last())
        } else {
            rest
        }
    }
}

/// The existing upstream `i` is the one a sync over `bs` updates.
pub open spec fn targeted(s: Seq<UpstreamConfig>, bs: Seq<Seq<char>>, i: int) -> bool {
    &&& bs.contains(s[i].base_url@)
    &&& !manual_at(s, s[i].base_url@)
    &&& first_auto(s, s[i].base_url@, i)
}

/// `staged` is `base` with the fields a sync writes: keys, primary key,
/// per-key lists, supported models, name, managing source and sync time.
pub open spec fn synced_from(
    base: UpstreamConfig,
    staged: UpstreamConfig,
    keys: Seq<Seq<char>>,
    primary: Seq<char>,
    per_key: Seq<KeyModelsView>,
    supported: Seq<Seq<char>>,
    name: Seq<char>,
    source: Seq<char>,
    synced_at: u64,
) -> bool {
    &&& views(staged.api_keys@) == keys
    &&& staged.api_key@ == primary
    &&& key_models_view(staged.api_key_models@) == per_key
    &&& views(staged.supported_models@) == supported
    &&& staged.name@ == name
    &&& opt_view(staged.managed_source) == Some(source)
    &&& staged == (UpstreamConfig {
        api_keys: staged.api_keys,
        api_key: staged.api_key,
        api_key_models: staged.api_key_models,
        supported_models: staged.supported_models,
        name: staged.name,
        managed_source: staged.managed_source,
        last_synced_at: synced_at,
        ..base
    })
}

/// The group's name, else `fallback`.
pub open spec fn name_or(name: Option<Seq<char>>, fallback: Seq<char>) -> Seq<char> {
    match name {
        Some(n) => n,
        None => fallback,
    }
}

/// The first key, or nothing.
pub open spec fn first_or_empty(keys: Seq<Seq<char>>) -> Seq<char> {
    if keys.len() > 0 {
        keys[0]
    } else {
        Seq::empty()
    }
}

/// What a sync writes into the imported upstream `old` for group `g`,
/// before the stored form: an empty group clears its keys and models; else
/// the group's keys replace them, the first becoming the primary one, and
/// the per-key lists become the group's, the supported models derived.
pub open spec fn resynced(old: UpstreamConfig, staged: UpstreamConfig, g: GroupView, source: Seq<char>, synced_at: u64) -> bool {
    if group_empty(g) {
        synced_from(old, staged, Seq::empty(), Seq::empty(), Seq::empty(), Seq::empty(), name_or(g.3, old.name@), source, synced_at)
    } else {
        synced_from(
            old,
            staged,
            g.0,
            first_or_empty(g.0),
            g.2,
            normalized_list(flatten_models(g.2)),
            name_or(g.3, old.name@),
            source,
            synced_at,
        )
    }
}

/// A default upstream, whatever its id, base URL and management.
pub open spec fn fresh_upstream(u: UpstreamConfig) -> bool {
    &&& u.name@.len() == 0 && u.api_key@.len() == 0
    &&& u.api_keys@.len() == 0 && u.api_key_models@.len() == 0 && u.supported_models@.len() == 0
    &&& u.premium_models@.len() == 0
    &&& u.protocol == crate::config::UpstreamProtocol::ChatCompletions
    &&& u.protocols@ == seq![crate::config::UpstreamProtocol::ChatCompletions]
    &&& u.model_mappings@.len() == 0 && u.model_contexts@.len() == 0
    &&& u.default_model_context is None
    &&& u.remark@.len() == 0
    &&& u.continuation_provider_group is None
    &&& u.failure_count == 0
    &&& u.max_concurrency == crate::config::DEFAULT_UPSTREAM_MAX_CONCURRENCY
    &&& u.request_quota_window_hours == 1
    &&& u.active
    &&& u.last_synced_at == 0
    &&& u.request_quota_requests == 0 && u.requests_per_minute == 0 && u.priority == 0
    &&& !u.premium_only && !u.protect_premium_quota && !u.strip_nonstandard_chat_fields
    &&& u.managed_source is None
}

/// What a sync writes into a new upstream for group `g` at `b`, before the
/// stored form: a default upstream with a fresh id, managed by imports, the
/// first key primary and the others extra, the group's per-key lists and
/// models, named by the group or after its first model.
pub open spec fn created_for(staged: UpstreamConfig, b: Seq<char>, g: GroupView, source: Seq<char>, synced_at: u64) -> bool {
    exists|base: UpstreamConfig|
        fresh_upstream(base) && base.base_url@ == b && base.auto_managed && synced_from(
            base,
            staged,
            g.0.skip(1),
            first_or_empty(g.0),
            g.2,
            g.1,
            name_or(g.3, first_or_empty(g.1)),
            source,
            synced_at,
        )
}

fn has_manual_upstream(upstreams: &Vec<UpstreamConfig>, base_url: &str) -> (r: bool)
    ensures
        r == manual_at(upstreams@, base_url@),
{
    for i in 0..upstreams.len()
        invariant
            forall|j: int| 0 <= j < i ==> !((#[trigger] upstreams@[j]).base_url@ == base_url@ && !upstreams@[j].auto_managed),
    {
        if str_eq(upstreams[i].base_url.as_str(), base_url) && !upstreams[i].auto_managed {
            return true;
        }
    }
    false
}

fn find_auto_upstream(upstreams: &Vec<UpstreamConfig>, base_url: &str) -> (r: Option<usize>)
    ensures
        match r {
            Some(i) => first_auto(upstreams@, base_url@, i as int),
            None => !has_auto(upstreams@, base_url@),
        },
{
    for i in 0..upstreams.len()
        invariant
            forall|j: int| 0 <= j < i ==> !auto_at(#[trigger] upstreams@[j], base_url@),
    {
        if str_eq(upstreams[i].base_url.as_str(), base_url) && upstreams[i].auto_managed {
            return Some(i);
        }
    }
    proof {
        if has_auto(upstreams@, base_url@) {
            let i = choose|i: int| first_auto(upstreams@, base_url@, i);
            assert(!auto_at(upstreams@[i], base_url@));
        }
    }
    None
}

/// Writes a group into an imported upstream (see `resynced`) and puts it in
/// its stored form.
fn resync_upstream(upstream: &mut UpstreamConfig, f: &FoldedGroup, source: &str, synced_at: u64)
    ensures
        exists|staged: UpstreamConfig|
            resynced(*old(upstream), staged, folded_view(*f), source@, synced_at) && stored_form(staged, *final(upstream)),
{
    if f.keys.len() == 0 || f.models.len() == 0 {
        upstream.api_keys = Vec::new();
        upstream.api_key = String::new();
        upstream.api_key_models = Vec::new();
        upstream.supported_models = Vec::new();
        proof {
            assert(views(upstream.api_keys@) =~= Seq::<Seq<char>>::empty());
            assert(views(upstream.supported_models@) =~= Seq::<Seq<char>>::empty());
            assert(key_models_view(upstream.api_key_models@) =~= Seq::<KeyModelsView>::empty());
        }
    } else {
        upstream.api_keys = clone_strings(&f.keys);
        upstream.api_key = f.keys[0].clone();
        upstream.api_key_models = copy_key_models(f.key_models.as_slice());
        upstream.supported_models = crate::normalize::derive_supported_models(&upstream.api_key_models);
    }
    if let Some(n) = &f.name {
        upstream.name = n.clone();
    }
    upstream.managed_source = Some(owned(source));
    upstream.last_synced_at = synced_at;
    let ghost staged = *upstream;
    upstream.normalize_for_storage();
    assert(resynced(*old(upstream), staged, folded_view(*f), source@, synced_at));
}

/// A new imported upstream for group `f` at `base_url` (see
/// `created_for`), in its stored form.
fn create_upstream(base_url: &str, f: &FoldedGroup, source: &str, synced_at: u64) -> (r: UpstreamConfig)
    requires
        f.keys@.len() > 0,
        f.models@.len() > 0,
    ensures
        exists|staged: UpstreamConfig|
            created_for(staged, base_url@, folded_view(*f), source@, synced_at) && stored_form(staged, r),
        r.base_url@ == base_url@,
        r.auto_managed,
{
    let mut u = UpstreamConfig::default();
    u.id = crate::account_concurrency::random_token();
    u.base_url = owned(base_url);
    u.auto_managed = true;
    let ghost base = u;
    let mut extra: Vec<String> = Vec::new();
    for i in 1..f.keys.len()
        invariant
            views(extra@) == views(f.keys@).skip(1).take(i - 1),
            1 <= i <= f.keys@.len(),
    {
        let ghost before = extra@;
        extra.push(f.keys[i].clone());
        proof {
            crate::text::lemma_views_push(before, extra@.last());
            assert(extra@ == before.push(extra@.last()));
            assert(views(f.keys@).skip(1).take(i as int) == views(f.keys@).skip(1).take(i - 1).push(views(f.keys@)[i as int]));
        }
    }
    assert(views(f.keys@).skip(1).take(f.keys@.len() - 1) == views(f.keys@).skip(1));
    u.api_key = f.keys[0].clone();
    u.api_keys = extra;
    u.api_key_models = copy_key_models(f.key_models.as_slice());
    u.supported_models = clone_strings(&f.models);
    u.name = match &f.name {
        Some(n) => n.clone(),
        None => f.models[0].clone(),
    };
    u.managed_source = Some(owned(source));
    u.last_synced_at = synced_at;
    let ghost staged = u;
    assert(fresh_upstream(base));
    assert(synced_from(
        base,
        staged,
        views(f.keys@).skip(1),
        first_or_empty(views(f.keys@)),
        key_models_view(f.key_models@),
        views(f.models@),
        name_or(opt_view(f.name), first_or_empty(views(f.models@))),
        source@,
        synced_at,
    ));
    u.normalize_for_storage();
    u
}

proof fn lemma_base_urls(c: Seq<ItemView>)
    ensures
        forall|i: int, j: int| 0 <= i < j < base_urls(c).len() ==> base_urls(c)[i] != base_urls(c)[j],
        forall|x: Seq<char>| #[trigger] base_urls(c).contains(x) ==> exists|i: int| 0 <= i < c.len() && c[i].1 == x,
    decreases c.len(),
{
    if c.len() > 0 {
        lemma_base_urls(c.drop_last());
        let rest = base_urls(c.drop_last());
        assert forall|x: Seq<char>| #[trigger] base_urls(c).contains(x) implies exists|i: int| 0 <= i < c.len() && c[i].1 == x by {
            if rest.contains(x) {
                let i = choose|i: int| 0 <= i < c.drop_last().len() && c.drop_last()[i].1 == x;
                assert(c[i] == c.drop_last()[i]);
            } else {
                assert(c[c.len() - 1].1 == x);
            }
        }
    }
}

proof fn lemma_creating_within(s: Seq<UpstreamConfig>, c: Seq<ItemView>, bs: Seq<Seq<char>>)
    ensures
        forall|j: int| 0 <= j < creating(s, c, bs).len() ==> bs.contains(#[trigger] creating(s, c, bs)[j]),
    decreases bs.len(),
{
    if bs.len() > 0 {
        lemma_creating_within(s, c, bs.drop_last());
        let rest = creating(s, c, bs.drop_last());
        assert forall|j: int| 0 <= j < creating(s, c, bs).len() implies bs.contains(#[trigger] creating(s, c, bs)[j]) by {
            if j < rest.len() {
                assert(creating(s, c, bs)[j] == rest[j]);
                assert(bs.drop_last().contains(rest[j]));
                let x = choose|x: int| 0 <= x < bs.drop_last().len() && bs.drop_last()[x] == rest[j];
                assert(bs[x] == rest[j]);
            } else {
                assert(bs[bs.len() - 1] == bs.last());
            }
        }
    }
}

/// Every base URL that gets a new upstream has no hand-managed upstream.
proof fn lemma_creating_not_manual(s: Seq<UpstreamConfig>, c: Seq<ItemView>, bs: Seq<Seq<char>>)
    ensures
        forall|j: int| 0 <= j < creating(s, c, bs).len() ==> !manual_at(s, #[trigger] creating(s, c, bs)[j]),
    decreases bs.len(),
{
    if bs.len() > 0 {
        lemma_creating_not_manual(s, c, bs.drop_last());
        let rest = creating(s, c, bs.drop_last());
        assert forall|j: int| 0 <= j < creating(s, c, bs).len() implies !manual_at(s, #[trigger] creating(s, c, bs)[j]) by {
            if j < rest.len() {
                assert(creating(s, c, bs)[j] == rest[j]);
            }
        }
    }
}

/// The state of a sync after the first `k` base URLs.
/// `new` is the imported upstream `old` after group `g` was written into
/// it and it was put in its stored form.
pub open spec fn resynced_stored(old: UpstreamConfig, new: UpstreamConfig, g: GroupView, source: Seq<char>, synced_at: u64) -> bool {
    exists|staged: UpstreamConfig| resynced(old, staged, g, source, synced_at) && stored_form(staged, new)
}

/// `new` is the upstream created for group `g` at `b`, in its stored form.
pub open spec fn created_stored(new: UpstreamConfig, b: Seq<char>, g: GroupView, source: Seq<char>, synced_at: u64) -> bool {
    exists|staged: UpstreamConfig| created_for(staged, b, g, source, synced_at) && stored_form(staged, new)
}

/// Upstream `i` is one a sync over `bs` touched (updated or created), with
/// id `x`.
pub open spec fn touches(s0: Seq<UpstreamConfig>, cur: Seq<UpstreamConfig>, bs: Seq<Seq<char>>, i: int, x: Seq<char>) -> bool {
    0 <= i < cur.len() && (i >= s0.len() || targeted(s0, bs, i)) && cur[i].id@ == x
}

/// Some upstream a sync over `bs` touched has id `x`.
pub open spec fn touched_id(s0: Seq<UpstreamConfig>, cur: Seq<UpstreamConfig>, bs: Seq<Seq<char>>, x: Seq<char>) -> bool {
    exists|i: int| #[trigger] touches(s0, cur, bs, i, x)
}

/// The state of a sync after the base URLs `bs`.
pub open spec fn sync_reached(
    s0: Seq<UpstreamConfig>,
    cur: Seq<UpstreamConfig>,
    c: Seq<ItemView>,
    bs: Seq<Seq<char>>,
    summary: FreekeySyncSummary,
    touched: Seq<Seq<char>>,
    source: Seq<char>,
    synced_at: u64,
) -> bool {
    let cr = creating(s0, c, bs);
    &&& cur.len() == s0.len() + cr.len()
    &&& forall|i: int|
        #![trigger cur[i]]
        0 <= i < s0.len() ==> cur[i].base_url == s0[i].base_url && cur[i].auto_managed == s0[i].auto_managed
            && cur[i].id == s0[i].id
    &&& forall|i: int|
        #![trigger cur[i]]
        0 <= i < s0.len() ==> if targeted(s0, bs, i) {
            resynced_stored(s0[i], cur[i], fold_group(c, s0[i].base_url@), source, synced_at)
        } else {
            cur[i] == s0[i]
        }
    &&& forall|i: int|
        #![trigger cur[i]]
        s0.len() <= i < cur.len() ==> cur[i].base_url@ == cr[i - s0.len()] && cur[i].auto_managed
            && created_stored(cur[i], cr[i - s0.len()], fold_group(c, cr[i - s0.len()]), source, synced_at)
    &&& (summary.created, summary.updated, summary.skipped) == tally(s0, c, bs)
    &&& forall|w: int| #![trigger touched[w]] 0 <= w < touched.len() ==> touched_id(s0, cur, bs, touched[w])
    &&& forall|i: int|
        #![trigger cur[i]]
        0 <= i < cur.len() && (i >= s0.len() || targeted(s0, bs, i)) ==> touched.contains(cur[i].id@)
}

proof fn lemma_same_lookup(s0: Seq<UpstreamConfig>, cur: Seq<UpstreamConfig>, cr: Seq<Seq<char>>, b: Seq<char>)
    requires
        cur.len() == s0.len() + cr.len(),
        forall|i: int|
            #![trigger cur[i]]
            0 <= i < s0.len() ==> cur[i].base_url == s0[i].base_url && cur[i].auto_managed == s0[i].auto_managed,
        forall|i: int| #![trigger cur[i]] s0.len() <= i < cur.len() ==> cur[i].base_url@ == cr[i - s0.len()] && cur[i].auto_managed,
        !cr.contains(b),
    ensures
        manual_at(cur, b) == manual_at(s0, b),
        forall|i: int| first_auto(cur, b, i) == first_auto(s0, b, i),
        has_auto(cur, b) == has_auto(s0, b),
{
    assert forall|i: int| 0 <= i < cur.len() implies (#[trigger] auto_at(cur[i], b)) == (i < s0.len() && auto_at(s0[i], b)) by {
        if i >= s0.len() {
            if cur[i].base_url@ == b {
                assert(cr[i - s0.len()] == b);
                assert(cr.contains(b));
            }
        }
    }
    if manual_at(cur, b) {
        let i = choose|i: int| 0 <= i < cur.len() && (#[trigger] cur[i]).base_url@ == b && !cur[i].auto_managed;
        if i < s0.len() {
            assert(s0[i].base_url@ == b && !s0[i].auto_managed);
        }
    }
    if manual_at(s0, b) {
        let i = choose|i: int| 0 <= i < s0.len() && (#[trigger] s0[i]).base_url@ == b && !s0[i].auto_managed;
        assert(cur[i].base_url@ == b && !cur[i].auto_managed);
    }
    assert forall|i: int| first_auto(cur, b, i) == first_auto(s0, b, i) by {
        if first_auto(cur, b, i) {
            assert(auto_at(cur[i], b));
            assert forall|j: int| 0 <= j < i implies !auto_at(#[trigger] s0[j], b) by {
                assert(!auto_at(cur[j], b));
            }
        }
        if first_auto(s0, b, i) {
            assert(auto_at(cur[i], b));
            assert forall|j: int| 0 <= j < i implies !auto_at(#[trigger] cur[j], b) by {
                assert(!auto_at(s0[j], b));
            }
        }
    }
    if has_auto(cur, b) {
        let i = choose|i: int| first_auto(cur, b, i);
        assert(first_auto(s0, b, i));
    }
    if has_auto(s0, b) {
        let i = choose|i: int| first_auto(s0, b, i);
        assert(first_auto(cur, b, i));
    }
}

proof fn lemma_first_auto_unique(s: Seq<UpstreamConfig>, b: Seq<char>, i: int, j: int)
    requires
        first_auto(s, b, i),
        first_auto(s, b, j),
    ensures
        i == j,
{
    if i < j {
        assert(!auto_at(s[i], b));
    }
    if j < i {
        assert(!auto_at(s[j], b));
    }
}

proof fn lemma_reached_unchanged(
    s0: Seq<UpstreamConfig>,
    cur: Seq<UpstreamConfig>,
    c: Seq<ItemView>,
    pre: Seq<Seq<char>>,
    post: Seq<Seq<char>>,
    before: FreekeySyncSummary,
    after: FreekeySyncSummary,
    touched: Seq<Seq<char>>,
    source: Seq<char>,
    synced_at: u64,
)
    requires
        sync_reached(s0, cur, c, pre, before, touched, source, synced_at),
        creating(s0, c, post) == creating(s0, c, pre),
        forall|i: int| 0 <= i < s0.len() ==> #[trigger] targeted(s0, post, i) == targeted(s0, pre, i),
        (after.created, after.updated, after.skipped) == tally(s0, c, post),
    ensures
        sync_reached(s0, cur, c, post, after, touched, source, synced_at),
{
    assert forall|i: int| 0 <= i < s0.len() implies (if targeted(s0, post, i) {
        resynced_stored(s0[i], #[trigger] cur[i], fold_group(c, s0[i].base_url@), source, synced_at)
    } else {
        cur[i] == s0[i]
    }) by {
        assert(targeted(s0, post, i) == targeted(s0, pre, i));
    }
    assert forall|w: int| 0 <= w < touched.len() implies touched_id(s0, cur, post, #[trigger] touched[w]) by {
        assert(touched_id(s0, cur, pre, touched[w]));
        let q = choose|q: int| touches(s0, cur, pre, q, touched[w]);
        if q < s0.len() {
            assert(targeted(s0, post, q) == targeted(s0, pre, q));
        }
        assert(touches(s0, cur, post, q, touched[w]));
    }
    assert forall|i: int| 0 <= i < cur.len() && (i >= s0.len() || targeted(s0, post, i)) implies touched.contains(
        (#[trigger] cur[i]).id@,
    ) by {
        if i < s0.len() {
            assert(targeted(s0, post, i) == targeted(s0, pre, i));
        }
    }
}

/// `b` is the next base URL after `pre`, new to them.
pub open spec fn next_base(pre: Seq<Seq<char>>, post: Seq<Seq<char>>, b: Seq<char>) -> bool {
    &&& post.drop_last() == pre
    &&& post.len() > 0
    &&& post.last() == b
    &&& !pre.contains(b)
    &&& forall|x: Seq<char>| #[trigger] post.contains(x) == (pre.contains(x) || x == b)
}

proof fn lemma_reached_after_update(
    s0: Seq<UpstreamConfig>,
    cur: Seq<UpstreamConfig>,
    nxt: Seq<UpstreamConfig>,
    c: Seq<ItemView>,
    pre: Seq<Seq<char>>,
    post: Seq<Seq<char>>,
    b: Seq<char>,
    i: int,
    before: FreekeySyncSummary,
    after: FreekeySyncSummary,
    t0: Seq<Seq<char>>,
    t1: Seq<Seq<char>>,
    source: Seq<char>,
    synced_at: u64,
)
    requires
        sync_reached(s0, cur, c, pre, before, t0, source, synced_at),
        next_base(pre, post, b),
        0 <= i < s0.len(),
        s0[i].base_url@ == b,
        first_auto(s0, b, i),
        !manual_at(s0, b),
        nxt.len() == cur.len(),
        forall|q: int| 0 <= q < nxt.len() && q != i ==> nxt[q] == cur[q],
        resynced_stored(s0[i], nxt[i], fold_group(c, b), source, synced_at),
        nxt[i].base_url == s0[i].base_url && nxt[i].auto_managed == s0[i].auto_managed && nxt[i].id == s0[i].id,
        t1 == t0.push(nxt[i].id@),
        creating(s0, c, post) == creating(s0, c, pre),
        (after.created, after.updated, after.skipped) == tally(s0, c, post),
    ensures
        sync_reached(s0, nxt, c, post, after, t1, source, synced_at),
{
    let cr = creating(s0, c, pre);
    assert(cur[i] == s0[i] || targeted(s0, pre, i));
    assert(!targeted(s0, pre, i));
    assert(targeted(s0, post, i));
    assert forall|q: int| 0 <= q < s0.len() implies #[trigger] targeted(s0, post, q) == (targeted(s0, pre, q) || q == i) by {
        if q != i && s0[q].base_url@ == b && targeted(s0, post, q) {
            lemma_first_auto_unique(s0, b, q, i);
        }
    }
    assert forall|q: int|
        0 <= q < s0.len() implies (#[trigger] nxt[q]).base_url == s0[q].base_url && nxt[q].auto_managed == s0[q].auto_managed
            && nxt[q].id == s0[q].id by {
        if q != i {
            assert(nxt[q] == cur[q]);
        }
    }
    assert forall|q: int| 0 <= q < s0.len() implies (if targeted(s0, post, q) {
        resynced_stored(s0[q], #[trigger] nxt[q], fold_group(c, s0[q].base_url@), source, synced_at)
    } else {
        nxt[q] == s0[q]
    }) by {
        if q != i {
            assert(nxt[q] == cur[q]);
        }
    }
    assert forall|q: int|
        s0.len() <= q < nxt.len() implies (#[trigger] nxt[q]).base_url@ == cr[q - s0.len()] && nxt[q].auto_managed
            && created_stored(nxt[q], cr[q - s0.len()], fold_group(c, cr[q - s0.len()]), source, synced_at) by {
        assert(nxt[q] == cur[q]);
    }
    assert forall|w: int| 0 <= w < t1.len() implies touched_id(s0, nxt, post, #[trigger] t1[w]) by {
        if w < t0.len() {
            assert(t1[w] == t0[w]);
            assert(touched_id(s0, cur, pre, t0[w]));
            let q = choose|q: int| touches(s0, cur, pre, q, t0[w]);
            assert(q != i);
            assert(nxt[q] == cur[q]);
            assert(touches(s0, nxt, post, q, t1[w]));
        } else {
            assert(touches(s0, nxt, post, i, t1[w]));
        }
    }
    assert forall|q: int| 0 <= q < nxt.len() && (q >= s0.len() || targeted(s0, post, q)) implies t1.contains(
        (#[trigger] nxt[q]).id@,
    ) by {
        if q == i {
            assert(t1[t0.len() as int] == nxt[q].id@);
        } else {
            assert(nxt[q] == cur[q]);
            assert(t0.contains(cur[q].id@));
            let w = choose|w: int| 0 <= w < t0.len() && t0[w] == cur[q].id@;
            assert(t1[w] == t0[w]);
        }
    }
}

proof fn lemma_reached_after_create(
    s0: Seq<UpstreamConfig>,
    cur: Seq<UpstreamConfig>,
    u: UpstreamConfig,
    c: Seq<ItemView>,
    pre: Seq<Seq<char>>,
    post: Seq<Seq<char>>,
    b: Seq<char>,
    before: FreekeySyncSummary,
    after: FreekeySyncSummary,
    t0: Seq<Seq<char>>,
    source: Seq<char>,
    synced_at: u64,
)
    requires
        sync_reached(s0, cur, c, pre, before, t0, source, synced_at),
        next_base(pre, post, b),
        !has_auto(s0, b),
        u.base_url@ == b,
        u.auto_managed,
        created_stored(u, b, fold_group(c, b), source, synced_at),
        creating(s0, c, post) == creating(s0, c, pre).push(b),
        (after.created, after.updated, after.skipped) == tally(s0, c, post),
    ensures
        sync_reached(s0, cur.push(u), c, post, after, t0.push(u.id@), source, synced_at),
{
    let cr = creating(s0, c, pre);
    let nxt = cur.push(u);
    let t1 = t0.push(u.id@);
    let last = nxt.len() - 1;
    assert forall|q: int| 0 <= q < s0.len() implies #[trigger] targeted(s0, post, q) == targeted(s0, pre, q) by {
        if s0[q].base_url@ == b && first_auto(s0, b, q) {
            assert(has_auto(s0, b));
        }
    }
    assert forall|q: int|
        0 <= q < s0.len() implies (#[trigger] nxt[q]).base_url == s0[q].base_url && nxt[q].auto_managed == s0[q].auto_managed
            && nxt[q].id == s0[q].id by {
        assert(nxt[q] == cur[q]);
    }
    assert forall|q: int| 0 <= q < s0.len() implies (if targeted(s0, post, q) {
        resynced_stored(s0[q], #[trigger] nxt[q], fold_group(c, s0[q].base_url@), source, synced_at)
    } else {
        nxt[q] == s0[q]
    }) by {
        assert(nxt[q] == cur[q]);
    }
    assert forall|q: int|
        s0.len() <= q < nxt.len() implies (#[trigger] nxt[q]).base_url@ == cr.push(b)[q - s0.len()] && nxt[q].auto_managed
            && created_stored(
            nxt[q],
            cr.push(b)[q - s0.len()],
            fold_group(c, cr.push(b)[q - s0.len()]),
            source,
            synced_at,
        ) by {
        if q < last {
            assert(nxt[q] == cur[q]);
        }
    }
    assert forall|w: int| 0 <= w < t1.len() implies touched_id(s0, nxt, post, #[trigger] t1[w]) by {
        if w < t0.len() {
            assert(t1[w] == t0[w]);
            assert(touched_id(s0, cur, pre, t0[w]));
            let q = choose|q: int| touches(s0, cur, pre, q, t0[w]);
            assert(nxt[q] == cur[q]);
            assert(touches(s0, nxt, post, q, t1[w]));
        } else {
            assert(touches(s0, nxt, post, last, t1[w]));
        }
    }
    assert forall|q: int| 0 <= q < nxt.len() && (q >= s0.len() || targeted(s0, post, q)) implies t1.contains(
        (#[trigger] nxt[q]).id@,
    ) by {
        if q == last {
            assert(t1[t0.len() as int] == nxt[q].id@);
        } else {
            assert(nxt[q] == cur[q]);
            assert(t0.contains(cur[q].id@));
            let w = choose|w: int| 0 <= w < t0.len() && t0[w] == cur[q].id@;
            assert(t1[w] == t0[w]);
        }
    }
}

/// Syncs the items of the `k`-th base URL.
fn sync_group(
    upstreams: &mut Vec<UpstreamConfig>,
    clean: &Vec<FreekeySyncItem>,
    bases: &Vec<String>,
    k: usize,
    source: &String,
    synced_at: u64,
    summary: &mut FreekeySyncSummary,
    touched: &mut Vec<String>,
    Ghost(s0): Ghost<Seq<UpstreamConfig>>,
)
    requires
        k < bases@.len(),
        views(bases@) == base_urls(item_views(clean@)),
        sync_reached(
            s0,
            old(upstreams)@,
            item_views(clean@),
            views(bases@).take(k as int),
            *old(summary),
            views(old(touched)@),
            source@,
            synced_at,
        ),
    ensures
        sync_reached(
            s0,
            final(upstreams)@,
            item_views(clean@),
            views(bases@).take(k + 1),
            *final(summary),
            views(final(touched)@),
            source@,
            synced_at,
        ),
{
    let ghost c = item_views(clean@);
    let ghost bs = views(bases@);
    let ghost b = bs[k as int];
    let ghost pre = bs.take(k as int);
    let ghost post = bs.take(k + 1);
    let ghost cur = upstreams@;
    let ghost cr = creating(s0, c, pre);
    let ghost t0 = views(touched@);
    let ghost before = *summary;
    proof {
        assert(post.drop_last() == pre);
        assert(post.last() == b);
        lemma_base_urls(c);
        lemma_creating_within(s0, c, pre);
        assert(!pre.contains(b)) by {
            if pre.contains(b) {
                let x = choose|x: int| 0 <= x < pre.len() && pre[x] == b;
                assert(bs[x] == bs[k as int]);
            }
        }
        assert(!cr.contains(b)) by {
            if cr.contains(b) {
                let j = choose|j: int| 0 <= j < cr.len() && cr[j] == b;
                assert(pre.contains(cr[j]));
            }
        }
        lemma_same_lookup(s0, cur, cr, b);
        assert forall|x: Seq<char>| #[trigger] post.contains(x) == (pre.contains(x) || x == b) by {
            if post.contains(x) {
                let y = choose|y: int| 0 <= y < post.len() && post[y] == x;
                if y < k {
                    assert(pre[y] == x);
                }
            }
            if pre.contains(x) {
                let y = choose|y: int| 0 <= y < pre.len() && pre[y] == x;
                assert(post[y] == x);
            }
            if x == b {
                assert(post[k as int] == x);
            }
        }
        assert(next_base(pre, post, b));
    }
    let base = &bases[k];
    assert(base@ == b);
    let f = fold_items(clean, base.as_str());
    let empty = f.keys.len() == 0 || f.models.len() == 0;
    assert(empty == group_empty(fold_group(c, b)));
    if has_manual_upstream(upstreams, base.as_str()) {
        summary.skipped = summary.skipped.saturating_add(f.items);
        proof {
            assert(creating(s0, c, post) == cr);
            assert forall|i: int| 0 <= i < s0.len() implies #[trigger] targeted(s0, post, i) == targeted(s0, pre, i) by {}
            lemma_reached_unchanged(s0, cur, c, pre, post, before, *summary, t0, source@, synced_at);
        }
        return;
    }
    match find_auto_upstream(upstreams, base.as_str()) {
        Some(i) => {
            assert(i < s0.len()) by {
                if i >= s0.len() {
                    assert(cur[i as int].base_url@ == cr[i - s0.len()]);
                }
            }
            assert(first_auto(s0, b, i as int));
            let mut u = upstreams.remove(i);
            assert(u == cur[i as int]);
            assert(!targeted(s0, pre, i as int));
            assert(u == s0[i as int]);
            let ghost u_old = u;
            resync_upstream(&mut u, &f, source.as_str(), synced_at);
            let id = u.id.clone();
            let ghost uu = u;
            upstreams.insert(i, u);
            if empty {
                summary.updated = summary.updated.saturating_add(f.items);
            } else {
                summary.updated = summary.updated.saturating_add(f.valid_items);
            }
            let ghost t_before = touched@;
            touched.push(id);
            proof {
                let nxt = upstreams@;
                assert(creating(s0, c, post) == cr);
                assert forall|q: int| 0 <= q < nxt.len() && q != i implies nxt[q] == cur[q] by {
                    if q < i {
                        assert(nxt[q] == cur.remove(i as int)[q]);
                    } else {
                        assert(nxt[q] == cur.remove(i as int)[q - 1]);
                    }
                }
                assert(nxt[i as int] == uu);
                let staged = choose|staged: UpstreamConfig|
                    resynced(u_old, staged, folded_view(f), source@, synced_at) && stored_form(staged, uu);
                assert(resynced(s0[i as int], staged, fold_group(c, b), source@, synced_at) && stored_form(staged, nxt[i as int]));
                assert(resynced_stored(s0[i as int], nxt[i as int], fold_group(c, b), source@, synced_at));
                crate::text::lemma_views_push(t_before, id);
                lemma_reached_after_update(
                    s0, cur, nxt, c, pre, post, b, i as int, before, *summary, t0, views(touched@), source@, synced_at,
                );
            }
        },
        None => {
            if empty {
                summary.skipped = summary.skipped.saturating_add(f.items);
                proof {
                    assert(creating(s0, c, post) == cr);
                    assert forall|i: int| 0 <= i < s0.len() implies #[trigger] targeted(s0, post, i) == targeted(s0, pre, i) by {
                        if s0[i].base_url@ == b && first_auto(s0, b, i) {
                            assert(has_auto(s0, b));
                        }
                    }
                    lemma_reached_unchanged(s0, cur, c, pre, post, before, *summary, t0, source@, synced_at);
                }
            } else {
                let u = create_upstream(base.as_str(), &f, source.as_str(), synced_at);
                let id = u.id.clone();
                let ghost uu = u;
                upstreams.push(u);
                summary.created = summary.created.saturating_add(f.valid_items);
                let ghost t_before = touched@;
                touched.push(id);
                proof {
                    assert(creating(s0, c, post) == cr.push(b));
                    let staged = choose|staged: UpstreamConfig|
                        created_for(staged, b, folded_view(f), source@, synced_at) && stored_form(staged, uu);
                    assert(created_stored(uu, b, fold_group(c, b), source@, synced_at));
                    crate::text::lemma_views_push(t_before, id);
                    lemma_reached_after_create(s0, cur, uu, c, pre, post, b, before, *summary, t0, source@, synced_at);
                }
            }
        },
    }
}

/// Imports keys from an external list into the upstreams. Items are trimmed,
/// those with a blank base URL, key or model dropped, and the rest grouped
/// by base URL in order of first appearance (see `fold_group`). For each
/// base URL: a hand-managed upstream there means the items are skipped;
/// else the first imported upstream there gets the group's keys (replacing
/// its own; none clears them) and per-key models; else, when the group has a
/// key and a model, a new imported upstream is created with a fresh id.
/// Written upstreams record `source` (trimmed) and `synced_at` and are put in
/// their stored form. The counts and the ids of the upstreams written come
/// back (see `sync_reached`, `tally`).
pub fn sync_freekey_upstreams(
    upstreams: &mut Vec<UpstreamConfig>,
    source: &str,
    imports: &Vec<FreekeySyncItem>,
    synced_at: u64,
) -> (r: (FreekeySyncSummary, Vec<String>))
    ensures
        sync_reached(
            old(upstreams)@,
            final(upstreams)@,
            cleaned(imports@),
            base_urls(cleaned(imports@)),
            r.0,
            views(r.1@),
            trim_seq(source@),
            synced_at,
        ),
{
    let source = trimmed(source);
    let clean = clean_items(imports);
    let bases = collect_base_urls(&clean);
    let mut summary = FreekeySyncSummary { created: 0, updated: 0, skipped: 0 };
    let mut touched: Vec<String> = Vec::new();
    let ghost s0 = upstreams@;
    let ghost c = item_views(clean@);
    let ghost bs = views(bases@);
    proof {
        let e = bs.take(0);
        assert(e == Seq::<Seq<char>>::empty());
        assert(creating(s0, c, e) == Seq::<Seq<char>>::empty());
        assert forall|i: int| 0 <= i < s0.len() implies !#[trigger] targeted(s0, e, i) by {}
        assert(views(touched@) == Seq::<Seq<char>>::empty());
        assert(sync_reached(s0, s0, c, e, summary, views(touched@), source@, synced_at));
    }
    for k in 0..bases.len()
        invariant
            views(bases@) == bs,
            bs == base_urls(c),
            c == item_views(clean@),
            sync_reached(s0, upstreams@, c, bs.take(k as int), summary, views(touched@), source@, synced_at),
    {
        sync_group(upstreams, &clean, &bases, k, &source, synced_at, &mut summary, &mut touched, Ghost(s0));
    }
    assert(bs.take(bs.len() as int) == bs);
    (summary, touched)
}

/// A sync never touches an upstream managed by hand, nor any upstream at a
/// base URL where one is managed by hand, and creates none there; it never
/// drops or reorders upstreams, and keeps every existing upstream's id, base
/// URL and management; new upstreams come after the existing ones, each
/// imported and at a base URL of the items.
pub proof fn law_sync_keeps_existing(
    s0: Seq<UpstreamConfig>,
    cur: Seq<UpstreamConfig>,
    c: Seq<ItemView>,
    summary: FreekeySyncSummary,
    touched: Seq<Seq<char>>,
    source: Seq<char>,
    synced_at: u64,
)
    requires
        sync_reached(s0, cur, c, base_urls(c), summary, touched, source, synced_at),
    ensures
        cur.len() >= s0.len(),
        forall|i: int| 0 <= i < s0.len() && !s0[i].auto_managed ==> #[trigger] cur[i] == s0[i],
        forall|i: int|
            0 <= i < s0.len() ==> (#[trigger] cur[i]).id == s0[i].id && cur[i].base_url == s0[i].base_url
                && cur[i].auto_managed == s0[i].auto_managed,
        forall|i: int| s0.len() <= i < cur.len() ==> (#[trigger] cur[i]).auto_managed && base_urls(c).contains(cur[i].base_url@),
        forall|i: int| 0 <= i < s0.len() && manual_at(s0, s0[i].base_url@) ==> #[trigger] cur[i] == s0[i],
        forall|i: int| s0.len() <= i < cur.len() ==> !manual_at(s0, (#[trigger] cur[i]).base_url@),
{
    let bs = base_urls(c);
    lemma_creating_within(s0, c, bs);
    lemma_creating_not_manual(s0, c, bs);
    assert forall|i: int| 0 <= i < s0.len() && manual_at(s0, s0[i].base_url@) implies #[trigger] cur[i] == s0[i] by {
        assert(!targeted(s0, bs, i));
    }
    assert forall|i: int| s0.len() <= i < cur.len() implies !manual_at(s0, (#[trigger] cur[i]).base_url@) by {
        let cr = creating(s0, c, bs);
        assert(cur[i].base_url@ == cr[i - s0.len()]);
    }
    assert forall|i: int| 0 <= i < s0.len() && !s0[i].auto_managed implies #[trigger] cur[i] == s0[i] by {
        if targeted(s0, bs, i) {
            assert(auto_at(s0[i], s0[i].base_url@));
        }
    }
    assert forall|i: int| s0.len() <= i < cur.len() implies (#[trigger] cur[i]).auto_managed && bs.contains(cur[i].base_url@) by {
        let cr = creating(s0, c, bs);
        assert(cur[i].base_url@ == cr[i - s0.len()]);
        assert(bs.contains(cr[i - s0.len()]));
    }
}


proof fn lemma_all_manual_counts(s: Seq<UpstreamConfig>, c: Seq<ItemView>, bs: Seq<Seq<char>>)
    requires
        forall|k: int| 0 <= k < bs.len() ==> manual_at(s, #[trigger] bs[k]),
    ensures
        creating(s, c, bs).len() == 0,
        tally(s, c, bs).0 == 0,
        tally(s, c, bs).1 == 0,
    decreases bs.len(),
{
    if bs.len() > 0 {
        let d = bs.drop_last();
        assert forall|k: int| 0 <= k < d.len() implies manual_at(s, #[trigger] d[k]) by {
            assert(d[k] == bs[k]);
        }
        lemma_all_manual_counts(s, c, d);
        assert(bs[bs.len() - 1] == bs.last());
        assert(manual_at(s, bs.last()));
    }
}

/// A sync whose items all come from base URLs where an upstream is managed
/// by hand changes no upstream, creates none and updates none: such base
/// URLs are never merged into.
pub proof fn law_sync_skips_hand_managed(
    s0: Seq<UpstreamConfig>,
    cur: Seq<UpstreamConfig>,
    c: Seq<ItemView>,
    summary: FreekeySyncSummary,
    touched: Seq<Seq<char>>,
    source: Seq<char>,
    synced_at: u64,
)
    requires
        sync_reached(s0, cur, c, base_urls(c), summary, touched, source, synced_at),
        forall|k: int| 0 <= k < base_urls(c).len() ==> manual_at(s0, #[trigger] base_urls(c)[k]),
    ensures
        cur == s0,
        summary.created == 0,
        summary.updated == 0,
{
    let bs = base_urls(c);
    lemma_all_manual_counts(s0, c, bs);
    assert forall|i: int| 0 <= i < s0.len() implies #[trigger] cur[i] == s0[i] by {
        if targeted(s0, bs, i) {
            let k = choose|k: int| 0 <= k < bs.len() && bs[k] == s0[i].base_url@;
            assert(manual_at(s0, bs[k]));
        }
    }
    assert(cur =~= s0);
}
} // verus!
