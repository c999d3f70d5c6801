//! The public model catalog: the models the gateway publishes, each with
//! its canonical id, display name and the upstream routes that serve it,
//! and the name resolution every request and model group goes through.
use vstd::prelude::*;
use crate::config::{mappings_view, GlobalContextProfile, ModelContextConfig, PersistedState, UpstreamConfig};
use crate::context_profile::{base_url_key, normalize_context_profile_base_url, opt_context_view, profile_view};
use crate::model_identity::{
    aliases_apart, canonical_model_id, codex_subagent_base_model, equivalent, has_key, identity_key, key_index,
    lemma_first_key_index, lemma_value_for, model_identity_key_with, models_equivalent, resolve_spec, subagent_suffix, suffix_base, AliasEntry, ModelAliasRegistry,
};
use crate::normalize::canonical_route_spec;
use crate::order::{lemma_sorted_insert, strictly_sorted, text_less, text_less_exec};
use crate::text::{
    blank, canonical_chars, canonical_seq, chars_of, contains_text, is_blank, owned, str_eq, trim_seq,
    trimmed, trimmed_chars, views,
};

verus! {

/// A public model id: the canonical spelling of a published model.
#[derive(Clone, Debug, PartialEq, Eq)]
pub struct ModelId(pub String);

impl View for ModelId {
    type V = Seq<char>;

    open spec fn view(&self) -> Seq<char> {
        self.0@
    }
}

impl ModelId {
    pub fn as_str(&self) -> (r: &str)
        ensures
            r@ == self@,
    {
        self.0.as_str()
    }
}

/// One upstream serving a published model: the upstream, the model name it
/// exposes and the name sent on the wire.
#[derive(Clone, Debug)]
pub struct PublishedRoute {
    pub upstream_id: String,
    pub wire_model: String,
    pub exposed_model: String,
}

/// A published model with its routes.
#[derive(Clone, Debug)]
pub struct PublishedModel {
    pub id: ModelId,
    pub name: String,
    pub routes: Vec<PublishedRoute>,
}

/// The published models, sorted by name, with the alias rules, the
/// canonical names that upstream mappings publish verbatim, and the
/// matching switch they were built with.
#[derive(Debug)]
pub struct ModelCatalog {
    models: Vec<PublishedModel>,
    aliases: ModelAliasRegistry,
    explicit_labels: Vec<String>,
    case_insensitive: bool,
}

/// The id a model group entry `name` stands for: its canonical form when a
/// mapping publishes that name, else the canonical form of the rule it is an
/// alias of, else its own canonical form.
pub open spec fn group_id_spec(es: Seq<AliasEntry>, labels: Seq<Seq<char>>, name: Seq<char>) -> Seq<
    char,
> {
    let n = trim_seq(name);
    let key = canonical_seq(n);
    if labels.contains(key) {
        key
    } else {
        canonical_seq(
            match resolve_spec(es, n) {
                Some(c) => c,
                None => n,
            },
        )
    }
}

/// Resolving a group entry's id again gives the same id, when no alias
/// resolves to a name whose canonical key is itself an alias (as in every
/// registry built from rules).
pub proof fn law_group_id_idempotent(es: Seq<AliasEntry>, labels: Seq<Seq<char>>, name: Seq<char>)
    requires
        aliases_apart(es),
    ensures
        group_id_spec(es, labels, group_id_spec(es, labels, name)) == group_id_spec(es, labels, name),
{
    let n = trim_seq(name);
    let r = group_id_spec(es, labels, name);
    let inner = match resolve_spec(es, n) {
        Some(c) => c,
        None => n,
    };
    crate::text::lemma_canonical_idempotent(n);
    crate::text::lemma_canonical_idempotent(inner);
    if !labels.contains(canonical_seq(n)) {
        match resolve_spec(es, n) {
            Some(c) => {
                let k = canonical_seq(n);
                let w = choose|w: int| 0 <= w < es.len() && (#[trigger] es[w]).0 == k;
                lemma_first_key_index(es, k, w);
                let i = choose|i: int| key_index(es, k, i);
                lemma_value_for(es, k, i);
                assert(!has_key(es, canonical_seq(es[i].1)));
            },
            None => {
                crate::text::lemma_trim_idempotent(name);
            },
        }
    }
    assert(trim_seq(r) == r);
    assert(canonical_seq(r) == r);
}

/// A requested name with a codex subagent suffix removed, trimmed.
pub open spec fn public_base(name: Seq<char>) -> Seq<char> {
    trim_seq(
        match suffix_base(name, subagent_suffix()) {
            Some(b) => b,
            None => name,
        },
    )
}

/// The id a requested model name resolves to.
pub open spec fn public_id_spec(es: Seq<AliasEntry>, labels: Seq<Seq<char>>, name: Seq<char>) -> Seq<
    char,
> {
    group_id_spec(es, labels, public_base(name))
}

/// A request's model name after alias resolution; names a mapping
/// publishes are kept as sent.
pub open spec fn request_name_spec(es: Seq<AliasEntry>, labels: Seq<Seq<char>>, name: Seq<char>) -> Seq<
    char,
> {
    if labels.contains(canonical_seq(name)) {
        name
    } else {
        match resolve_spec(es, name) {
            Some(c) => c,
            None => name,
        }
    }
}

/// Position of the first model satisfying `p`.
pub open spec fn first_model(ms: Seq<PublishedModel>, p: spec_fn(PublishedModel) -> bool) -> Option<int>
    decreases ms.len(),
{
    if ms.len() == 0 {
        None
    } else if p(ms[0]) {
        Some(0)
    } else {
        match first_model(ms.drop_first(), p) {
            Some(i) => Some(i + 1),
            None => None,
        }
    }
}

pub proof fn lemma_first_model(ms: Seq<PublishedModel>, p: spec_fn(PublishedModel) -> bool, k: int)
    requires
        0 <= k <= ms.len(),
        forall|j: int| 0 <= j < k ==> !p(#[trigger] ms[j]),
    ensures
        k < ms.len() && p(ms[k]) ==> first_model(ms, p) == Some(k),
        k == ms.len() ==> first_model(ms, p) is None,
    decreases k,
{
    if k > 0 {
        let rest = ms.drop_first();
        assert forall|j: int| 0 <= j < k - 1 implies !p(#[trigger] rest[j]) by {
            assert(rest[j] == ms[j + 1]);
        }
        lemma_first_model(rest, p, k - 1);
        if k < ms.len() {
            assert(rest[k - 1] == ms[k]);
        }
    }
}

/// The model a lookup of `name` finds: the first whose name is the trimmed
/// request; else the first named like the alias-resolved request or, when
/// matching case-insensitively, with the request's id.
pub open spec fn find_spec(
    ms: Seq<PublishedModel>,
    es: Seq<AliasEntry>,
    labels: Seq<Seq<char>>,
    ci: bool,
    name: Seq<char>,
) -> Option<int> {
    match first_model(ms, |m: PublishedModel| m.name@ == trim_seq(name)) {
        Some(i) => Some(i),
        None => {
            let canonical = trim_seq(
                match resolve_spec(es, name) {
                    Some(c) => c,
                    None => name,
                },
            );
            let id = public_id_spec(es, labels, name);
            first_model(ms, |m: PublishedModel| m.name@ == canonical || (ci && m.id@ == id))
        },
    }
}

/// A model has a route of `upstream_id` exposing `exposed`.
pub open spec fn serves_route(m: PublishedModel, upstream_id: Seq<char>, exposed: Seq<char>) -> bool {
    exists|k: int|
        0 <= k < m.routes@.len() && (#[trigger] m.routes@[k]).upstream_id@ == upstream_id
            && m.routes@[k].exposed_model@ == exposed
}

/// Whether a legacy allowlist admits the model requested as `name`: an
/// empty list or a `*` entry admits everything; otherwise some entry other
/// than the denial sentinel must stand for the same id.
pub open spec fn legacy_allows(
    es: Seq<AliasEntry>,
    labels: Seq<Seq<char>>,
    allowed: Seq<Seq<char>>,
    name: Seq<char>,
) -> bool {
    ||| allowed.len() == 0
    ||| exists|i: int| 0 <= i < allowed.len() && trim_seq(#[trigger] allowed[i]) == "*"@
    ||| {
        &&& public_id_spec(es, labels, name).len() > 0
        &&& exists|i: int|
            0 <= i < allowed.len() && trim_seq(#[trigger] allowed[i]).len() > 0 && trim_seq(allowed[i])
                != "__none__"@ && group_id_spec(es, labels, trim_seq(allowed[i])) == public_id_spec(
                es,
                labels,
                name,
            )
    }
}

/// The names of the models a legacy allowlist admits, in catalog order.
pub open spec fn legacy_names(
    ms: Seq<PublishedModel>,
    es: Seq<AliasEntry>,
    labels: Seq<Seq<char>>,
    allowed: Seq<Seq<char>>,
) -> Seq<Seq<char>>
    decreases ms.len(),
{
    if ms.len() == 0 {
        Seq::empty()
    } else {
        legacy_names(ms.drop_last(), es, labels, allowed) + if legacy_allows(
            es,
            labels,
            allowed,
            ms.last().name@,
        ) {
            seq![ms.last().name@]
        } else {
            Seq::empty()
        }
    }
}

/// Position of the first upstream with id `id`.
pub open spec fn first_upstream(us: Seq<UpstreamConfig>, id: Seq<char>) -> Option<int>
    decreases us.len(),
{
    if us.len() == 0 {
        None
    } else if us[0].id@ == id {
        Some(0)
    } else {
        match first_upstream(us.drop_first(), id) {
            Some(i) => Some(i + 1),
            None => None,
        }
    }
}

pub proof fn lemma_first_upstream(us: Seq<UpstreamConfig>, id: Seq<char>, k: int)
    requires
        0 <= k <= us.len(),
        forall|j: int| 0 <= j < k ==> (#[trigger] us[j]).id@ != id,
    ensures
        k < us.len() && us[k].id@ == id ==> first_upstream(us, id) == Some(k),
        k == us.len() ==> first_upstream(us, id) is None,
    decreases k,
{
    if k > 0 {
        let rest = us.drop_first();
        assert forall|j: int| 0 <= j < k - 1 implies (#[trigger] rest[j]).id@ != id by {
            assert(rest[j] == us[j + 1]);
        }
        lemma_first_upstream(rest, id, k - 1);
        if k < us.len() {
            assert(rest[k - 1] == us[k]);
        }
    }
}

/// The profile stored under `key`: the first entry with that key.
pub open spec fn profile_for(ps: Seq<(String, GlobalContextProfile)>, key: Seq<char>) -> Option<
    GlobalContextProfile,
>
    decreases ps.len(),
{
    if ps.len() == 0 {
        None
    } else if ps[0].0@ == key {
        Some(ps[0].1)
    } else {
        profile_for(ps.drop_first(), key)
    }
}

fn find_profile<'a>(ps: &'a Vec<(String, GlobalContextProfile)>, key: &str) -> (r: Option<
    &'a GlobalContextProfile,
>)
    ensures
        match r {
            Some(p) => profile_for(ps@, key@) == Some(*p),
            None => profile_for(ps@, key@) is None,
        },
{
    let mut i: usize = 0;
    assert(ps@.skip(0) == ps@);
    while i < ps.len()
        invariant
            i <= ps@.len(),
            profile_for(ps@, key@) == profile_for(ps@.skip(i as int), key@),
        decreases ps@.len() - i,
    {
        assert(ps@.skip(i as int).drop_first() == ps@.skip(i + 1));
        if str_eq(ps[i].0.as_str(), key) {
            return Some(&ps[i].1);
        }
        i = i + 1;
    }
    None
}

impl ModelCatalog {
    pub closed spec fn published(&self) -> Seq<PublishedModel> {
        self.models@
    }

    pub closed spec fn alias_entries(&self) -> Seq<AliasEntry> {
        self.aliases.entries()
    }

    /// The canonical names that upstream mappings publish verbatim.
    pub closed spec fn labels(&self) -> Seq<Seq<char>> {
        views(self.explicit_labels@)
    }

    pub closed spec fn matches_case_insensitively(&self) -> bool {
        self.case_insensitive
    }

    /// The published models, sorted by name.
    pub fn models(&self) -> (r: &[PublishedModel])
        ensures
            r@ == self.published(),
    {
        self.models.as_slice()
    }

    /// The id a model group entry stands for.
    pub fn resolve_group_model_id(&self, name: &str) -> (r: ModelId)
        ensures
            r@ == group_id_spec(self.alias_entries(), self.labels(), name@),
    {
        let n = trimmed(name);
        let key = canonical_chars(n.as_str());
        if contains_text(&self.explicit_labels, &key) {
            return ModelId(canonical_model_id(n.as_str()));
        }
        match self.aliases.resolve_alias(n.as_str()) {
            Some(c) => ModelId(canonical_model_id(c)),
            None => ModelId(canonical_model_id(n.as_str())),
        }
    }

    /// The id a requested model name resolves to (a codex subagent variant
    /// resolves to its base model).
    pub fn resolve_public_model_id(&self, name: &str) -> (r: ModelId)
        ensures
            r@ == public_id_spec(self.alias_entries(), self.labels(), name@),
    {
        let base = match codex_subagent_base_model(name) {
            Some(b) => b,
            None => owned(name),
        };
        self.resolve_group_model_id(trimmed(base.as_str()).as_str())
    }

    /// A request's model name after alias resolution, keeping names that a
    /// mapping publishes.
    pub fn normalize_request_name(&self, name: &str) -> (r: String)
        ensures
            r@ == request_name_spec(self.alias_entries(), self.labels(), name@),
    {
        if contains_text(&self.explicit_labels, &canonical_chars(name)) {
            return owned(name);
        }
        match self.aliases.resolve_alias(name) {
            Some(c) => owned(c),
            None => owned(name),
        }
    }

    /// The published model a request names, if any.
    #[verifier::loop_isolation(false)]
    pub fn find(&self, name: &str) -> (r: Option<&PublishedModel>)
        ensures
            match find_spec(
                self.published(),
                self.alias_entries(),
                self.labels(),
                self.matches_case_insensitively(),
                name@,
            ) {
                Some(i) => r matches Some(m) && *m == self.published()[i],
                None => r is None,
            },
    {
        let ghost ms = self.models@;
        let wanted = trimmed(name);
        let ghost p1 = |m: PublishedModel| m.name@ == trim_seq(name@);
        let mut i: usize = 0;
        while i < self.models.len()
            invariant
                i <= ms.len(),
                ms == self.models@,
                wanted@ == trim_seq(name@),
                p1 == (|m: PublishedModel| m.name@ == trim_seq(name@)),
                forall|j: int| 0 <= j < i ==> !p1(#[trigger] ms[j]),
            decreases ms.len() - i,
        {
            if str_eq(self.models[i].name.as_str(), wanted.as_str()) {
                proof {
                    lemma_first_model(ms, p1, i as int);
                }
                return Some(&self.models[i]);
            }
            i = i + 1;
        }
        proof {
            lemma_first_model(ms, p1, i as int);
        }
        let resolved = match self.aliases.resolve_alias(name) {
            Some(c) => owned(c),
            None => owned(name),
        };
        let canonical = trimmed(resolved.as_str());
        let id = self.resolve_public_model_id(name);
        let ci = self.case_insensitive;
        let ghost p2 = |m: PublishedModel| m.name@ == canonical@ || (ci && m.id@ == id@);
        proof {
            let cs = trim_seq(
                match resolve_spec(self.aliases.entries(), name@) {
                    Some(c) => c,
                    None => name@,
                },
            );
            let ids = public_id_spec(self.aliases.entries(), views(self.explicit_labels@), name@);
            assert(p2 =~= (|m: PublishedModel| m.name@ == cs || (self.case_insensitive && m.id@ == ids)));
            assert(p1 =~= (|m: PublishedModel| m.name@ == trim_seq(name@)));
        }
        let mut k: usize = 0;
        while k < self.models.len()
            invariant
                k <= ms.len(),
                ms == self.models@,
                p2 == (|m: PublishedModel| m.name@ == canonical@ || (ci && m.id@ == id@)),
                forall|j: int| 0 <= j < k ==> !p2(#[trigger] ms[j]),
            decreases ms.len() - k,
        {
            let m = &self.models[k];
            if str_eq(m.name.as_str(), canonical.as_str()) || (ci && str_eq(
                m.id.0.as_str(),
                id.0.as_str(),
            )) {
                proof {
                    lemma_first_model(ms, p2, k as int);
                }
                return Some(m);
            }
            k = k + 1;
        }
        proof {
            lemma_first_model(ms, p2, k as int);
        }
        None
    }

    /// The public name of the model that a route of `upstream_id` exposing
    /// `exposed_model` serves.
    pub fn public_name_for_route(&self, upstream_id: &str, exposed_model: &str) -> (r: Option<&str>)
        ensures
            match first_model(
                self.published(),
                |m: PublishedModel| serves_route(m, upstream_id@, exposed_model@),
            ) {
                Some(i) => r matches Some(n) && n@ == self.published()[i].name@,
                None => r is None,
            },
    {
        let ghost ms = self.models@;
        let ghost p = |m: PublishedModel| serves_route(m, upstream_id@, exposed_model@);
        let mut i: usize = 0;
        while i < self.models.len()
            invariant
                i <= ms.len(),
                ms == self.models@,
                p == (|m: PublishedModel| serves_route(m, upstream_id@, exposed_model@)),
                forall|j: int| 0 <= j < i ==> !p(#[trigger] ms[j]),
            decreases ms.len() - i,
        {
            let m = &self.models[i];
            let mut found = false;
            let mut k: usize = 0;
            while k < m.routes.len()
                invariant
                    k <= m.routes@.len(),
                    found == exists|t: int|
                        0 <= t < k && (#[trigger] m.routes@[t]).upstream_id@ == upstream_id@
                            && m.routes@[t].exposed_model@ == exposed_model@,
                decreases m.routes@.len() - k,
            {
                if !found && str_eq(m.routes[k].upstream_id.as_str(), upstream_id) && str_eq(
                    m.routes[k].exposed_model.as_str(),
                    exposed_model,
                ) {
                    found = true;
                }
                k = k + 1;
            }
            if found {
                proof {
                    lemma_first_model(ms, p, i as int);
                }
                return Some(m.name.as_str());
            }
            i = i + 1;
        }
        proof {
            lemma_first_model(ms, p, i as int);
        }
        None
    }

    /// The context window of a route: its upstream's entry for the exposed
    /// model, with the global profile of the upstream's base URL.
    pub fn route_context(&self, snapshot: &PersistedState, route: &PublishedRoute) -> (r: Option<
        ModelContextConfig,
    >)
        ensures
            match first_upstream(snapshot.upstreams@, route.upstream_id@) {
                None => r is None,
                Some(i) => {
                    let u = snapshot.upstreams@[i];
                    let prof = profile_for(snapshot.global_context_profiles@, base_url_key(u.base_url@));
                    opt_context_view(r) == u.context_spec_for(
                        route.exposed_model@,
                        match prof {
                            Some(p) => profile_view(Some(&p)),
                            None => None,
                        },
                        self.matches_case_insensitively(),
                    )
                },
            },
    {
        let ghost us = snapshot.upstreams@;
        let mut i: usize = 0;
        while i < snapshot.upstreams.len()
            invariant
                i <= us.len(),
                us == snapshot.upstreams@,
                forall|j: int| 0 <= j < i ==> (#[trigger] us[j]).id@ != route.upstream_id@,
            decreases us.len() - i,
        {
            if str_eq(snapshot.upstreams[i].id.as_str(), route.upstream_id.as_str()) {
                proof {
                    lemma_first_upstream(us, route.upstream_id@, i as int);
                }
                let upstream = &snapshot.upstreams[i];
                let base = normalize_context_profile_base_url(upstream.base_url.as_str());
                let profile = find_profile(&snapshot.global_context_profiles, base.as_str());
                return upstream.context_config_for_model_with_profile_and_case(
                    route.exposed_model.as_str(),
                    profile,
                    self.case_insensitive,
                );
            }
            i = i + 1;
        }
        proof {
            lemma_first_upstream(us, route.upstream_id@, i as int);
        }
        None
    }

    /// Whether a legacy allowlist admits the model requested as `name`.
    pub fn allows_legacy(&self, allowed: &[String], name: &str) -> (r: bool)
        ensures
            r == legacy_allows(self.alias_entries(), self.labels(), views(allowed@), name@),
    {
        let ghost av = views(allowed@);
        if allowed.len() == 0 {
            return true;
        }
        let mut i: usize = 0;
        while i < allowed.len()
            invariant
                i <= allowed@.len(),
                av == views(allowed@),
                forall|j: int| 0 <= j < i ==> trim_seq(#[trigger] av[j]) != "*"@,
            decreases allowed@.len() - i,
        {
            assert(av[i as int] == allowed@[i as int]@);
            if str_eq(trimmed(allowed[i].as_str()).as_str(), "*") {
                return true;
            }
            i = i + 1;
        }
        let requested = self.resolve_public_model_id(name);
        if chars_of(requested.0.as_str()).len() == 0 {
            return false;
        }
        let mut k: usize = 0;
        while k < allowed.len()
            invariant
                k <= allowed@.len(),
                av == views(allowed@),
                requested@ == public_id_spec(self.alias_entries(), self.labels(), name@),
                requested@.len() > 0,
                forall|j: int|
                    0 <= j < k ==> !(trim_seq(#[trigger] av[j]).len() > 0 && trim_seq(av[j]) != "__none__"@
                        && group_id_spec(self.alias_entries(), self.labels(), trim_seq(av[j]))
                        == requested@),
            decreases allowed@.len() - k,
        {
            assert(av[k as int] == allowed@[k as int]@);
            let value = trimmed(allowed[k].as_str());
            if chars_of(value.as_str()).len() > 0 && !str_eq(value.as_str(), "__none__") {
                let id = self.resolve_group_model_id(value.as_str());
                if str_eq(id.0.as_str(), requested.0.as_str()) {
                    assert(trim_seq(av[k as int]).len() > 0 && trim_seq(av[k as int]) != "__none__"@
                        && group_id_spec(self.alias_entries(), self.labels(), trim_seq(av[k as int]))
                        == public_id_spec(self.alias_entries(), self.labels(), name@));
                    return true;
                }
            }
            k = k + 1;
        }
        false
    }

    /// The names of the published models a legacy allowlist admits, in
    /// catalog order.
    pub fn names_for_legacy(&self, allowed: &[String]) -> (r: Vec<String>)
        ensures
            views(r@) == legacy_names(self.published(), self.alias_entries(), self.labels(), views(allowed@)),
    {
        let ghost ms = self.models@;
        let mut names: Vec<String> = Vec::new();
        for i in 0..self.models.len()
            invariant
                ms == self.models@,
                views(names@) == legacy_names(ms.take(i as int), self.alias_entries(), self.labels(), views(allowed@)),
        {
            assert(ms.take(i + 1).drop_last() == ms.take(i as int));
            assert(ms.take(i + 1).last() == ms[i as int]);
            if self.allows_legacy(allowed, self.models[i].name.as_str()) {
                let n = self.models[i].name.clone();
                proof {
                    crate::text::lemma_views_push(names@, n);
                }
                names.push(n);
            }
        }
        assert(ms.take(ms.len() as int) == ms);
        names
    }
}

/// A model an upstream publishes downstream, and whether a mapping names it.
#[derive(Clone, Debug, PartialEq, Eq)]
pub struct DownstreamModelEntry {
    pub model: String,
    pub from_mapping: bool,
}

pub open spec fn entry_view(e: DownstreamModelEntry) -> (Seq<char>, bool) {
    (e.model@, e.from_mapping)
}

/// The first mapping with a downstream name whose upstream model is `route`.
pub open spec fn mapping_for(ms: Seq<(Seq<char>, Seq<char>)>, route: Seq<char>) -> Option<int>
    decreases ms.len(),
{
    if ms.len() == 0 {
        None
    } else {
        match mapping_for(ms.drop_last(), route) {
            Some(k) => Some(k),
            None => if equivalent(ms.last().0, route) && !is_blank(ms.last().1) {
                Some(ms.len() - 1)
            } else {
                None
            },
        }
    }
}

pub proof fn lemma_mapping_for_bounds(ms: Seq<(Seq<char>, Seq<char>)>, route: Seq<char>)
    ensures
        mapping_for(ms, route) matches Some(k) ==> 0 <= k < ms.len(),
    decreases ms.len(),
{
    if ms.len() > 0 {
        lemma_mapping_for_bounds(ms.drop_last(), route);
    }
}

/// What an upstream publishes: each route model, under the downstream name
/// of its mapping when it has one.
pub open spec fn upstream_entries(u: UpstreamConfig) -> Seq<(Seq<char>, bool)> {
    let mv = mappings_view(u.model_mappings@);
    u.route_models_spec().map_values(
        |r: Seq<char>|
            match mapping_for(mv, r) {
                Some(k) => (trim_seq(mv[k].1), true),
                None => (r, false),
            },
    )
}

impl UpstreamConfig {
    /// The models this upstream publishes downstream, with their origin.
    pub fn effective_downstream_models_detailed(&self) -> (r: Vec<DownstreamModelEntry>)
        ensures
            r@.map_values(|e: DownstreamModelEntry| entry_view(e)) == upstream_entries(*self),
    {
        let routes = self.route_models();
        let ghost mv = mappings_view(self.model_mappings@);
        let mut out: Vec<DownstreamModelEntry> = Vec::new();
        for i in 0..routes.len()
            invariant
                views(routes@) == self.route_models_spec(),
                mv == mappings_view(self.model_mappings@),
                out@.len() == i,
                forall|j: int|
                    0 <= j < i ==> entry_view(#[trigger] out@[j]) == upstream_entries(*self)[j],
        {
            let route = &routes[i];
            assert(views(routes@)[i as int] == route@);
            let mut found: Option<usize> = None;
            for k in 0..self.model_mappings.len()
                invariant
                    mv == mappings_view(self.model_mappings@),
                    found matches Some(f) ==> mapping_for(mv.take(k as int), route@) == Some(f as int),
                    found is None ==> mapping_for(mv.take(k as int), route@) is None,
            {
                assert(mv.take(k + 1).drop_last() == mv.take(k as int));
                assert(mv.take(k + 1).last() == mv[k as int]);
                if found.is_none() && models_equivalent(
                    self.model_mappings[k].upstream_model.as_str(),
                    route.as_str(),
                ) && !blank(self.model_mappings[k].downstream_model.as_str()) {
                    found = Some(k);
                }
            }
            assert(mv.take(mv.len() as int) == mv);
            proof {
                lemma_mapping_for_bounds(mv, route@);
            }
            let entry = match found {
                Some(k) => DownstreamModelEntry {
                    model: trimmed(self.model_mappings[k].downstream_model.as_str()),
                    from_mapping: true,
                },
                None => DownstreamModelEntry { model: owned(route.as_str()), from_mapping: false },
            };
            out.push(entry);
        }
        assert(out@.map_values(|e: DownstreamModelEntry| entry_view(e)) =~= upstream_entries(*self));
        out
    }
}

/// Every published entry of the active upstreams, in order, with its upstream.
pub open spec fn catalog_entries(us: Seq<UpstreamConfig>) -> Seq<(UpstreamConfig, (Seq<char>, bool))>
    decreases us.len(),
{
    if us.len() == 0 {
        Seq::empty()
    } else {
        catalog_entries(us.drop_last()) + if us.last().active {
            upstream_entries(us.last()).map_values(
                |e: (Seq<char>, bool)| (us.last(), e),
            )
        } else {
            Seq::empty()
        }
    }
}

/// The canonical names of the entries a mapping publishes.
pub open spec fn catalog_labels(xs: Seq<(UpstreamConfig, (Seq<char>, bool))>) -> Seq<Seq<char>>
    decreases xs.len(),
{
    if xs.len() == 0 {
        Seq::empty()
    } else {
        catalog_labels(xs.drop_last()) + if xs.last().1.1 {
            seq![canonical_seq(xs.last().1.0)]
        } else {
            Seq::empty()
        }
    }
}

/// A route as plain values: upstream id, wire model, exposed model.
pub type RouteView = (Seq<char>, Seq<char>, Seq<char>);

pub open spec fn route_view(r: PublishedRoute) -> RouteView {
    (r.upstream_id@, r.wire_model@, r.exposed_model@)
}

/// A model group while the catalog is built.
#[verifier::ext_equal]
pub struct GroupView {
    pub key: Seq<char>,
    pub name: Seq<char>,
    pub mapped: bool,
    pub id: Seq<char>,
    pub routes: Seq<RouteView>,
}

/// Whether a published entry names a model: not blank, not the wildcard,
/// not the denial sentinel.
pub open spec fn item_valid(raw: Seq<char>) -> bool {
    raw.len() > 0 && raw != "*"@ && raw != "__none__"@
}

/// The display name of an entry: a mapping's label verbatim, else the rule
/// it is an alias of, else its canonical form when matching
/// case-insensitively.
pub open spec fn item_name(es: Seq<AliasEntry>, raw: Seq<char>, mapped: bool, ci: bool) -> Seq<char> {
    if mapped {
        raw
    } else {
        match resolve_spec(es, raw) {
            Some(c) => c,
            None => if ci {
                canonical_seq(raw)
            } else {
                raw
            },
        }
    }
}

/// The name an upstream is sent for an exposed model.
pub open spec fn wire_of(u: UpstreamConfig, raw: Seq<char>, ci: bool) -> Seq<char> {
    match canonical_route_spec(u.route_models_spec(), raw, ci) {
        Some(w) => w,
        None => raw,
    }
}

/// Position of the group with key `key`.
pub open spec fn group_index(gs: Seq<GroupView>, key: Seq<char>) -> Option<int>
    decreases gs.len(),
{
    if gs.len() == 0 {
        None
    } else if gs[0].key == key {
        Some(0)
    } else {
        match group_index(gs.drop_first(), key) {
            Some(i) => Some(i + 1),
            None => None,
        }
    }
}

pub proof fn lemma_group_index(gs: Seq<GroupView>, key: Seq<char>, k: int)
    requires
        0 <= k <= gs.len(),
        forall|j: int| 0 <= j < k ==> (#[trigger] gs[j]).key != key,
    ensures
        k < gs.len() && gs[k].key == key ==> group_index(gs, key) == Some(k),
        k == gs.len() ==> group_index(gs, key) is None,
    decreases k,
{
    if k > 0 {
        let rest = gs.drop_first();
        assert forall|j: int| 0 <= j < k - 1 implies (#[trigger] rest[j]).key != key by {
            assert(rest[j] == gs[j + 1]);
        }
        lemma_group_index(rest, key, k - 1);
        if k < gs.len() {
            assert(rest[k - 1] == gs[k]);
        }
    }
}

/// A group after taking in one more entry: a mapping's label wins over
/// other names, otherwise the smaller name wins; the route is appended.
pub open spec fn absorb(g: GroupView, name: Seq<char>, mapped: bool, route: RouteView) -> GroupView {
    let replace = (mapped && !g.mapped) || (mapped == g.mapped && text_less(name, g.name));
    GroupView {
        name: if replace {
            name
        } else {
            g.name
        },
        mapped: if replace {
            mapped
        } else {
            g.mapped
        },
        routes: g.routes.push(route),
        ..g
    }
}

/// The groups after one more published entry.
pub open spec fn group_step(
    gs: Seq<GroupView>,
    x: (UpstreamConfig, (Seq<char>, bool)),
    es: Seq<AliasEntry>,
    labels: Seq<Seq<char>>,
    ci: bool,
) -> Seq<GroupView> {
    let raw = trim_seq(x.1.0);
    if !item_valid(raw) {
        gs
    } else {
        let name = item_name(es, raw, x.1.1, ci);
        let key = identity_key(name, ci);
        let route = (x.0.id@, wire_of(x.0, raw, ci), raw);
        match group_index(gs, key) {
            Some(i) => gs.update(i, absorb(gs[i], name, x.1.1, route)),
            None => gs.push(
                GroupView {
                    key,
                    name,
                    mapped: x.1.1,
                    id: public_id_spec(es, labels, name),
                    routes: seq![route],
                },
            ),
        }
    }
}

/// The model groups of a sequence of published entries, in order of first
/// appearance.
pub open spec fn grouped(
    xs: Seq<(UpstreamConfig, (Seq<char>, bool))>,
    es: Seq<AliasEntry>,
    labels: Seq<Seq<char>>,
    ci: bool,
) -> Seq<GroupView>
    decreases xs.len(),
{
    if xs.len() == 0 {
        Seq::empty()
    } else {
        group_step(grouped(xs.drop_last(), es, labels, ci), xs.last(), es, labels, ci)
    }
}

/// A route serves an exposed model that names a model (trimmed, not blank,
/// not the wildcard or the denial sentinel), for an upstream among `us` that
/// is active.
pub open spec fn route_published_from(route: RouteView, us: Seq<UpstreamConfig>) -> bool {
    &&& item_valid(route.2)
    &&& trim_seq(route.2) == route.2
    &&& exists|j: int| 0 <= j < us.len() && (#[trigger] us[j]).id@ == route.0 && us[j].active
}

proof fn lemma_catalog_entries_active(us: Seq<UpstreamConfig>)
    ensures
        forall|j: int|
            0 <= j < catalog_entries(us).len() ==> us.contains((#[trigger] catalog_entries(us)[j]).0)
                && catalog_entries(us)[j].0.active,
    decreases us.len(),
{
    if us.len() > 0 {
        let d = us.drop_last();
        lemma_catalog_entries_active(d);
        let prev = catalog_entries(d);
        let tail = if us.last().active {
            upstream_entries(us.last()).map_values(|e: (Seq<char>, bool)| (us.last(), e))
        } else {
            Seq::<(UpstreamConfig, (Seq<char>, bool))>::empty()
        };
        assert(catalog_entries(us) == prev + tail);
        assert forall|j: int| 0 <= j < catalog_entries(us).len() implies us.contains((#[trigger] catalog_entries(us)[j]).0)
            && catalog_entries(us)[j].0.active by {
            if j < prev.len() {
                assert(catalog_entries(us)[j] == prev[j]);
                assert(d.contains(prev[j].0));
                let k = choose|k: int| 0 <= k < d.len() && d[k] == prev[j].0;
                assert(us[k] == d[k]);
            } else {
                assert(catalog_entries(us)[j] == tail[j - prev.len()]);
                assert(us[us.len() - 1] == us.last());
            }
        }
    }
}

proof fn lemma_grouped_routes(
    xs: Seq<(UpstreamConfig, (Seq<char>, bool))>,
    es: Seq<AliasEntry>,
    labels: Seq<Seq<char>>,
    ci: bool,
)
    ensures
        forall|i: int, k: int|
            0 <= i < grouped(xs, es, labels, ci).len() && 0 <= k < grouped(xs, es, labels, ci)[i].routes.len() ==> {
                let route = #[trigger] grouped(xs, es, labels, ci)[i].routes[k];
                &&& item_valid(route.2)
                &&& trim_seq(route.2) == route.2
                &&& exists|j: int| 0 <= j < xs.len() && (#[trigger] xs[j]).0.id@ == route.0
            },
    decreases xs.len(),
{
    if xs.len() > 0 {
        let d = xs.drop_last();
        lemma_grouped_routes(d, es, labels, ci);
        let gs = grouped(d, es, labels, ci);
        let n = grouped(xs, es, labels, ci);
        let x = xs.last();
        let raw = trim_seq(x.1.0);
        crate::text::lemma_trim_idempotent(x.1.0);
        lemma_group_index_bounds(gs, identity_key(item_name(es, raw, x.1.1, ci), ci));
        assert(xs[xs.len() - 1] == x);
        assert forall|i: int, k: int| 0 <= i < n.len() && 0 <= k < n[i].routes.len() implies {
            let route = #[trigger] n[i].routes[k];
            &&& item_valid(route.2)
            &&& trim_seq(route.2) == route.2
            &&& exists|j: int| 0 <= j < xs.len() && (#[trigger] xs[j]).0.id@ == route.0
        } by {
            if i < gs.len() && k < gs[i].routes.len() && n[i].routes[k] == gs[i].routes[k] {
                let j = choose|j: int| 0 <= j < d.len() && (#[trigger] d[j]).0.id@ == gs[i].routes[k].0;
                assert(xs[j] == d[j]);
            }
        }
    }
}

/// Every route of every model the catalog of `us` publishes serves a name
/// that is trimmed and names a model, for an active upstream of `us`.
pub proof fn law_catalog_routes(us: Seq<UpstreamConfig>, es: Seq<AliasEntry>, labels: Seq<Seq<char>>, ci: bool)
    ensures
        forall|i: int, k: int|
            0 <= i < grouped(catalog_entries(us), es, labels, ci).len() && 0 <= k < grouped(
                catalog_entries(us),
                es,
                labels,
                ci,
            )[i].routes.len() ==> route_published_from(
                #[trigger] grouped(catalog_entries(us), es, labels, ci)[i].routes[k],
                us,
            ),
{
    let xs = catalog_entries(us);
    lemma_grouped_routes(xs, es, labels, ci);
    lemma_catalog_entries_active(us);
    let g = grouped(xs, es, labels, ci);
    assert forall|i: int, k: int| 0 <= i < g.len() && 0 <= k < g[i].routes.len() implies route_published_from(
        #[trigger] g[i].routes[k],
        us,
    ) by {
        let route = g[i].routes[k];
        let j = choose|j: int| 0 <= j < xs.len() && (#[trigger] xs[j]).0.id@ == route.0;
        assert(us.contains(xs[j].0) && xs[j].0.active);
        let m = choose|m: int| 0 <= m < us.len() && us[m] == xs[j].0;
        assert(us[m].id@ == route.0);
    }
}

/// Group keys differ, and each group's name has the group's key.
pub open spec fn groups_wf(gs: Seq<GroupView>, ci: bool) -> bool {
    &&& forall|i: int| 0 <= i < gs.len() ==> identity_key(#[trigger] gs[i].name, ci) == gs[i].key
    &&& forall|i: int, j: int|
        0 <= i < gs.len() && 0 <= j < gs.len() && i != j ==> (#[trigger] gs[i]).key != (
        #[trigger] gs[j]).key
}

pub proof fn lemma_group_index_bounds(gs: Seq<GroupView>, key: Seq<char>)
    ensures
        group_index(gs, key) matches Some(i) ==> 0 <= i < gs.len() && gs[i].key == key,
        group_index(gs, key) is None ==> forall|j: int| 0 <= j < gs.len() ==> (#[trigger] gs[j]).key != key,
    decreases gs.len(),
{
    if gs.len() > 0 {
        lemma_group_index_bounds(gs.drop_first(), key);
        assert forall|j: int| 0 < j < gs.len() implies gs[j] == gs.drop_first()[j - 1] by {}
    }
}

pub proof fn lemma_group_step_wf(
    gs: Seq<GroupView>,
    x: (UpstreamConfig, (Seq<char>, bool)),
    es: Seq<AliasEntry>,
    labels: Seq<Seq<char>>,
    ci: bool,
)
    requires
        groups_wf(gs, ci),
    ensures
        groups_wf(group_step(gs, x, es, labels, ci), ci),
{
    let raw = trim_seq(x.1.0);
    if item_valid(raw) {
        let name = item_name(es, raw, x.1.1, ci);
        let key = identity_key(name, ci);
        lemma_group_index_bounds(gs, key);
        let r = group_step(gs, x, es, labels, ci);
        match group_index(gs, key) {
            Some(i) => {
                assert forall|a: int, b: int|
                    0 <= a < r.len() && 0 <= b < r.len() && a != b implies (#[trigger] r[a]).key != (
                    #[trigger] r[b]).key by {
                    assert(r[a].key == gs[a].key && r[b].key == gs[b].key);
                }
            },
            None => {
                assert forall|a: int, b: int|
                    0 <= a < r.len() && 0 <= b < r.len() && a != b implies (#[trigger] r[a]).key != (
                    #[trigger] r[b]).key by {
                    if a < gs.len() && b < gs.len() {
                        assert(r[a] == gs[a] && r[b] == gs[b]);
                    } else if a < gs.len() {
                        assert(r[a] == gs[a]);
                    } else {
                        assert(r[b] == gs[b]);
                    }
                }
            },
        }
    }
}

pub proof fn lemma_grouped_wf(
    xs: Seq<(UpstreamConfig, (Seq<char>, bool))>,
    es: Seq<AliasEntry>,
    labels: Seq<Seq<char>>,
    ci: bool,
)
    ensures
        groups_wf(grouped(xs, es, labels, ci), ci),
    decreases xs.len(),
{
    if xs.len() > 0 {
        lemma_grouped_wf(xs.drop_last(), es, labels, ci);
        lemma_group_step_wf(grouped(xs.drop_last(), es, labels, ci), xs.last(), es, labels, ci);
    }
}

/// The groups of a well-formed grouping have pairwise different names.
pub proof fn lemma_group_names_distinct(gs: Seq<GroupView>, ci: bool, i: int, j: int)
    requires
        groups_wf(gs, ci),
        0 <= i < gs.len(),
        0 <= j < gs.len(),
        i != j,
    ensures
        gs[i].name != gs[j].name,
{
    assert(identity_key(gs[i].name, ci) == gs[i].key);
    assert(identity_key(gs[j].name, ci) == gs[j].key);
}

/// A published model as plain values.
pub open spec fn model_view(m: PublishedModel) -> (Seq<char>, Seq<char>, Seq<RouteView>) {
    (m.id@, m.name@, m.routes@.map_values(|r: PublishedRoute| route_view(r)))
}

pub open spec fn group_model_view(g: GroupView) -> (Seq<char>, Seq<char>, Seq<RouteView>) {
    (g.id, g.name, g.routes)
}

pub open spec fn work_view(e: (String, PublishedModel, bool)) -> GroupView {
    GroupView {
        key: e.0@,
        name: e.1.name@,
        mapped: e.2,
        id: e.1.id@,
        routes: e.1.routes@.map_values(|r: PublishedRoute| route_view(r)),
    }
}

pub open spec fn work_views(v: Seq<(String, PublishedModel, bool)>) -> Seq<GroupView> {
    v.map_values(|e: (String, PublishedModel, bool)| work_view(e))
}

/// An upstream's published entries, each with the upstream.
pub open spec fn tagged_entries(u: UpstreamConfig) -> Seq<(UpstreamConfig, (Seq<char>, bool))> {
    upstream_entries(u).map_values(|e: (Seq<char>, bool)| (u, e))
}

pub proof fn lemma_catalog_entries_step(us: Seq<UpstreamConfig>, n: int)
    requires
        0 <= n < us.len(),
    ensures
        catalog_entries(us.take(n + 1)) == catalog_entries(us.take(n)) + if us[n].active {
            tagged_entries(us[n])
        } else {
            Seq::empty()
        },
{
    assert(us.take(n + 1).drop_last() == us.take(n));
    assert(us.take(n + 1).last() == us[n]);
}

fn group_position(groups: &Vec<(String, PublishedModel, bool)>, key: &str) -> (r: Option<usize>)
    ensures
        match r {
            Some(i) => group_index(work_views(groups@), key@) == Some(i as int),
            None => group_index(work_views(groups@), key@) is None,
        },
{
    let ghost gv = work_views(groups@);
    let mut i: usize = 0;
    while i < groups.len()
        invariant
            i <= groups@.len(),
            gv == work_views(groups@),
            forall|j: int| 0 <= j < i ==> (#[trigger] gv[j]).key != key@,
        decreases groups@.len() - i,
    {
        if str_eq(groups[i].0.as_str(), key) {
            proof {
                lemma_group_index(gv, key@, i as int);
            }
            return Some(i);
        }
        i = i + 1;
    }
    proof {
        lemma_group_index(gv, key@, i as int);
    }
    None
}

pub open spec fn names_of(ms: Seq<PublishedModel>) -> Seq<Seq<char>> {
    ms.map_values(|m: PublishedModel| m.name@)
}

/// Inserts `m` into `models`, kept strictly sorted by name.
fn insert_by_name(models: &mut Vec<PublishedModel>, m: PublishedModel)
    requires
        strictly_sorted(names_of(old(models)@)),
        forall|i: int| 0 <= i < old(models)@.len() ==> (#[trigger] old(models)@[i]).name@ != m.name@,
    ensures
        strictly_sorted(names_of(final(models)@)),
        final(models)@.len() == old(models)@.len() + 1,
        final(models)@.contains(m),
        forall|i: int| 0 <= i < old(models)@.len() ==> final(models)@.contains(#[trigger] old(models)@[i]),
        forall|i: int|
            0 <= i < final(models)@.len() ==> #[trigger] final(models)@[i] == m || old(models)@.contains(
                final(models)@[i],
            ),
{
    let ghost before = models@;
    let mut p: usize = 0;
    while p < models.len() && text_less_exec(models[p].name.as_str(), m.name.as_str())
        invariant
            p <= models@.len(),
            models@ == before,
            forall|k: int| 0 <= k < p ==> text_less(#[trigger] names_of(before)[k], m.name@),
        decreases models@.len() - p,
    {
        p = p + 1;
    }
    proof {
        let ns = names_of(before);
        if p < before.len() {
            assert(ns[p as int] == before[p as int].name@);
        }
        lemma_sorted_insert(ns, m.name@, p as int);
        assert(names_of(before.insert(p as int, m)) =~= ns.insert(p as int, m.name@));
    }
    models.insert(p, m);
    proof {
        assert(models@[p as int] == m);
        assert forall|i: int| 0 <= i < before.len() implies models@.contains(#[trigger] before[i]) by {
            if i < p {
                assert(models@[i] == before[i]);
            } else {
                assert(models@[i + 1] == before[i]);
            }
        }
        assert forall|i: int| 0 <= i < models@.len() implies #[trigger] models@[i] == m || before.contains(
            models@[i],
        ) by {
            if i < p {
                assert(models@[i] == before[i]);
            } else if i > p {
                assert(models@[i] == before[i - 1]);
            }
        }
    }
}

impl ModelCatalog {
    /// Takes one published entry of `upstream` into the groups.
    fn absorb_entry(
        &self,
        groups: &mut Vec<(String, PublishedModel, bool)>,
        upstream: &UpstreamConfig,
        entry: &DownstreamModelEntry,
    )
        ensures
            work_views(final(groups)@) == group_step(
                work_views(old(groups)@),
                (*upstream, entry_view(*entry)),
                self.alias_entries(),
                self.labels(),
                self.case_insensitive,
            ),
    {
        let ci = self.case_insensitive;
        let raw = trimmed(entry.model.as_str());
        if chars_of(raw.as_str()).len() == 0 || str_eq(raw.as_str(), "*") || str_eq(raw.as_str(), "__none__") {
            return;
        }
        let name = if entry.from_mapping {
            owned(raw.as_str())
        } else {
            match self.aliases.resolve_alias(raw.as_str()) {
                Some(c) => owned(c),
                None => if ci {
                    canonical_model_id(raw.as_str())
                } else {
                    owned(raw.as_str())
                },
            }
        };
        let key = model_identity_key_with(name.as_str(), ci);
        let wire = match upstream.resolved_model_name_with(raw.as_str(), ci) {
            Some(w) => w,
            None => owned(raw.as_str()),
        };
        let route = PublishedRoute {
            upstream_id: upstream.id.clone(),
            wire_model: wire,
            exposed_model: owned(raw.as_str()),
        };
        let ghost rv = route_view(route);
        let ghost old_views = work_views(groups@);
        match group_position(groups, key.as_str()) {
            Some(i) => {
                proof {
                    lemma_group_index_bounds(old_views, key@);
                }
                let (k, mut model, mapped) = groups.remove(i);
                let replace = (entry.from_mapping && !mapped) || (entry.from_mapping == mapped
                    && text_less_exec(name.as_str(), model.name.as_str()));
                let new_mapped = if replace {
                    entry.from_mapping
                } else {
                    mapped
                };
                if replace {
                    model.name = name;
                }
                let ghost before_routes = model.routes@;
                model.routes.push(route);
                assert(model.routes@.map_values(|r: PublishedRoute| route_view(r)) =~= before_routes.map_values(
                    |r: PublishedRoute| route_view(r),
                ).push(rv));
                groups.insert(i, (k, model, new_mapped));
                assert(work_views(groups@) =~= old_views.update(
                    i as int,
                    absorb(old_views[i as int], name@, entry.from_mapping, rv),
                ));
            },
            None => {
                let id = self.resolve_public_model_id(name.as_str());
                let mut routes: Vec<PublishedRoute> = Vec::new();
                routes.push(route);
                assert(routes@.map_values(|r: PublishedRoute| route_view(r)) =~= seq![rv]);
                groups.push((key, PublishedModel { id, name, routes }, entry.from_mapping));
                assert(work_views(groups@) =~= old_views.push(work_view(groups@.last())));
            },
        }
    }
}

/// The canonical names that mappings publish, over the entries of the
/// active upstreams.
fn mapped_labels(upstreams: &[UpstreamConfig]) -> (r: Vec<String>)
    ensures
        views(r@) == catalog_labels(catalog_entries(upstreams@)),
{
    let ghost us = upstreams@;
    let mut labels: Vec<String> = Vec::new();
    for u in 0..upstreams.len()
        invariant
            us == upstreams@,
            views(labels@) == catalog_labels(catalog_entries(us.take(u as int))),
    {
        proof {
            lemma_catalog_entries_step(us, u as int);
        }
        let ghost base = catalog_entries(us.take(u as int));
        if upstreams[u].active {
            let entries = upstreams[u].effective_downstream_models_detailed();
            let ghost tagged = tagged_entries(us[u as int]);
            assert(tagged.len() == entries@.len());
            for k in 0..entries.len()
                invariant
                    tagged == tagged_entries(us[u as int]),
                    tagged.len() == entries@.len(),
                    entries@.map_values(|e: DownstreamModelEntry| entry_view(e)) == upstream_entries(
                        us[u as int],
                    ),
                    views(labels@) == catalog_labels(base + tagged.take(k as int)),
            {
                assert(tagged[k as int] == (us[u as int], entry_view(entries@[k as int])));
                assert((base + tagged.take(k + 1)).drop_last() == base + tagged.take(k as int));
                assert((base + tagged.take(k + 1)).last() == tagged[k as int]);
                if entries[k].from_mapping {
                    let l = canonical_model_id(entries[k].model.as_str());
                    proof {
                        crate::text::lemma_views_push(labels@, l);
                    }
                    labels.push(l);
                }
            }
            assert(tagged.take(tagged.len() as int) == tagged);
        } else {
            assert(base + Seq::<(UpstreamConfig, (Seq<char>, bool))>::empty() == base);
        }
    }
    assert(us.take(us.len() as int) == us);
    labels
}

impl ModelCatalog {
    /// The catalog of the active upstreams' published models: entries are
    /// grouped by identity key, a group is named by a mapping's label when
    /// it has one (else by its smallest name), keeps the id of its first
    /// entry and every route, and the groups are sorted by name.
    #[verifier::rlimit(40)]
    pub fn new(upstreams: &[UpstreamConfig], aliases: &ModelAliasRegistry, case_insensitive: bool) -> (r:
        Self)
        ensures
            r.alias_entries() == aliases.entries(),
            r.labels() == catalog_labels(catalog_entries(upstreams@)),
            r.matches_case_insensitively() == case_insensitive,
            strictly_sorted(names_of(r.published())),
            r.published().len() == grouped(
                catalog_entries(upstreams@),
                aliases.entries(),
                catalog_labels(catalog_entries(upstreams@)),
                case_insensitive,
            ).len(),
            forall|i: int|
                0 <= i < r.published().len() ==> exists|j: int|
                    0 <= j < r.published().len() && model_view(#[trigger] r.published()[i])
                        == group_model_view(
                        grouped(
                            catalog_entries(upstreams@),
                            aliases.entries(),
                            catalog_labels(catalog_entries(upstreams@)),
                            case_insensitive,
                        )[j],
                    ),
            forall|j: int|
                0 <= j < r.published().len() ==> exists|i: int|
                    0 <= i < r.published().len() && model_view(r.published()[i]) == group_model_view(
                        #[trigger] grouped(
                            catalog_entries(upstreams@),
                            aliases.entries(),
                            catalog_labels(catalog_entries(upstreams@)),
                            case_insensitive,
                        )[j],
                    ),
    {
        let ghost us = upstreams@;
        let labels = mapped_labels(upstreams);
        let catalog = ModelCatalog {
            models: Vec::new(),
            aliases: aliases.duplicate(),
            explicit_labels: labels,
            case_insensitive,
        };
        let ghost es = aliases.entries();
        let ghost lv = catalog_labels(catalog_entries(us));
        let mut groups: Vec<(String, PublishedModel, bool)> = Vec::new();
        assert(work_views(groups@) =~= grouped(catalog_entries(us.take(0)), es, lv, case_insensitive));
        for u in 0..upstreams.len()
            invariant
                us == upstreams@,
                catalog.alias_entries() == es,
                catalog.labels() == lv,
                catalog.case_insensitive == case_insensitive,
                work_views(groups@) == grouped(catalog_entries(us.take(u as int)), es, lv, case_insensitive),
        {
            proof {
                lemma_catalog_entries_step(us, u as int);
            }
            let ghost base = catalog_entries(us.take(u as int));
            if upstreams[u].active {
                let entries = upstreams[u].effective_downstream_models_detailed();
                let ghost tagged = tagged_entries(us[u as int]);
                assert(tagged.len() == entries@.len());
                for k in 0..entries.len()
                    invariant
                        tagged == tagged_entries(us[u as int]),
                        tagged.len() == entries@.len(),
                        entries@.map_values(|e: DownstreamModelEntry| entry_view(e)) == upstream_entries(
                            us[u as int],
                        ),
                        catalog.alias_entries() == es,
                        catalog.labels() == lv,
                        catalog.case_insensitive == case_insensitive,
                        u < us.len(),
                        us == upstreams@,
                        work_views(groups@) == grouped(base + tagged.take(k as int), es, lv, case_insensitive),
                {
                    assert(tagged[k as int] == (us[u as int], entry_view(entries@[k as int])));
                    assert((base + tagged.take(k + 1)).drop_last() == base + tagged.take(k as int));
                    assert((base + tagged.take(k + 1)).last() == tagged[k as int]);
                    catalog.absorb_entry(&mut groups, &upstreams[u], &entries[k]);
                }
                assert(tagged.take(tagged.len() as int) == tagged);
            } else {
                assert(base + Seq::<(UpstreamConfig, (Seq<char>, bool))>::empty() == base);
            }
        }
        assert(us.take(us.len() as int) == us);
        let ghost all = groups@;
        let ghost gs = grouped(catalog_entries(us), es, lv, case_insensitive);
        proof {
            lemma_grouped_wf(catalog_entries(us), es, lv, case_insensitive);
        }
        let mut models: Vec<PublishedModel> = Vec::new();
        while groups.len() > 0
            invariant
                work_views(all) == gs,
                groups_wf(gs, case_insensitive),
                groups@ == all.take(groups@.len() as int),
                groups@.len() <= all.len(),
                models@.len() + groups@.len() == all.len(),
                strictly_sorted(names_of(models@)),
                forall|i: int|
                    0 <= i < models@.len() ==> exists|j: int|
                        groups@.len() <= j < all.len() && #[trigger] models@[i] == all[j].1,
                forall|j: int| groups@.len() <= j < all.len() ==> models@.contains(#[trigger] all[j].1),
            decreases groups@.len(),
        {
            let g = groups.len() - 1;
            let ghost before = models@;
            let (_, model, _) = groups.pop().unwrap();
            assert(groups@ =~= all.take(g as int));
            assert(model == all[g as int].1);
            proof {
                assert forall|i: int| 0 <= i < before.len() implies (#[trigger] before[i]).name@
                    != model.name@ by {
                    let j = choose|j: int| g + 1 <= j < all.len() && before[i] == all[j].1;
                    lemma_group_names_distinct(gs, case_insensitive, j, g as int);
                    assert(gs[j].name == all[j].1.name@);
                    assert(gs[g as int].name == all[g as int].1.name@);
                }
            }
            insert_by_name(&mut models, model);
            proof {
                assert forall|i: int| 0 <= i < models@.len() implies exists|j: int|
                    groups@.len() <= j < all.len() && #[trigger] models@[i] == all[j].1 by {
                    if models@[i] != all[g as int].1 {
                        let t = choose|t: int| 0 <= t < before.len() && before[t] == models@[i];
                        let j = choose|j: int| g + 1 <= j < all.len() && before[t] == all[j].1;
                    }
                }
                assert forall|j: int| groups@.len() <= j < all.len() implies models@.contains(
                    #[trigger] all[j].1,
                ) by {
                    if j > g {
                        let t = choose|t: int| 0 <= t < before.len() && before[t] == all[j].1;
                        assert(models@.contains(before[t]));
                    }
                }
            }
        }
        proof {
            assert forall|i: int| 0 <= i < models@.len() implies exists|j: int|
                0 <= j < models@.len() && model_view(#[trigger] models@[i]) == group_model_view(gs[j]) by {
                let j = choose|j: int| 0 <= j < all.len() && models@[i] == all[j].1;
                assert(gs[j] == work_view(all[j]));
            }
            assert forall|j: int| 0 <= j < models@.len() implies exists|i: int|
                0 <= i < models@.len() && model_view(models@[i]) == group_model_view(#[trigger] gs[j]) by {
                assert(models@.contains(all[j].1));
                let i = choose|i: int| 0 <= i < models@.len() && models@[i] == all[j].1;
                assert(gs[j] == work_view(all[j]));
            }
        }
        ModelCatalog { models, ..catalog }
    }
}

} // verus!
