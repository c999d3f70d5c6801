//! Context windows of routed models: the explicit entry of the upstream or
//! of the shared base-URL profile, else a default window; and the larger
//! window of the same context group to fall back to.
use vstd::prelude::*;
use crate::config::{GlobalContextProfile, ModelContextConfig, UpstreamConfig};
use crate::model_identity::{equivalent, models_equivalent};
use crate::normalize::{
    canonical_route_spec, contexts_view, default_view, normalized_contexts, normalized_default,
    normalized_default_model_context, normalized_model_contexts, ContextView, DefaultContextView,
};
use crate::text::{
    chars_eq, chars_of, owned, string_from_chars, trim_chars, trim_seq, trimmed, trimmed_chars,
    trimmed_eq,
};

verus! {

/// Whether a context slug names the candidate model.
pub open spec fn slug_match(slug: Seq<char>, cand: Seq<char>, ci: bool) -> bool {
    if ci {
        equivalent(slug, cand)
    } else {
        trim_seq(slug) == cand
    }
}

/// Index of the first entry whose slug names `cand`.
pub open spec fn first_slug(cs: Seq<ContextView>, cand: Seq<char>, ci: bool) -> Option<int>
    decreases cs.len(),
{
    if cs.len() == 0 {
        None
    } else {
        match first_slug(cs.drop_last(), cand, ci) {
            Some(i) => Some(i),
            None => if slug_match(cs.last().0, cand, ci) {
                Some(cs.len() - 1)
            } else {
                None
            },
        }
    }
}

pub proof fn lemma_first_slug(cs: Seq<ContextView>, cand: Seq<char>, ci: bool)
    ensures
        first_slug(cs, cand, ci) matches Some(i) ==> 0 <= i < cs.len(),
    decreases cs.len(),
{
    if cs.len() > 0 {
        lemma_first_slug(cs.drop_last(), cand, ci);
    }
}

pub proof fn lemma_first_slug_prefix(cs: Seq<ContextView>, cand: Seq<char>, ci: bool, n: int)
    requires
        0 <= n <= cs.len(),
        first_slug(cs.take(n), cand, ci) is Some,
    ensures
        first_slug(cs, cand, ci) == first_slug(cs.take(n), cand, ci),
    decreases cs.len() - n,
{
    if n < cs.len() {
        assert(cs.take(n + 1).drop_last() == cs.take(n));
        lemma_first_slug_prefix(cs, cand, ci, n + 1);
    } else {
        assert(cs.take(n) == cs);
    }
}

/// A profile as plain values: its entries and its default window.
pub type ProfileView = (Seq<ContextView>, Option<DefaultContextView>);

pub open spec fn profile_view(p: Option<&GlobalContextProfile>) -> Option<ProfileView> {
    match p {
        Some(p) => Some((contexts_view(p.model_contexts@), default_view(p.default_model_context))),
        None => None,
    }
}

/// The explicit entry for `cand`: the upstream's own first, then the profile's.
pub open spec fn lookup_entry(own: Seq<ContextView>, prof: Option<ProfileView>, cand: Seq<char>, ci: bool) -> Option<
    ContextView,
> {
    match first_slug(own, cand, ci) {
        Some(i) => Some(own[i]),
        None => match prof {
            Some(p) => match first_slug(p.0, cand, ci) {
                Some(j) => Some(p.0[j]),
                None => None,
            },
            None => None,
        },
    }
}

/// A default window applied to the trimmed request name.
pub open spec fn from_default(model: Seq<char>, d: DefaultContextView) -> ContextView {
    (trim_seq(model), d.0, d.1, d.2, d.3)
}

/// The context window of a request for `model` on an upstream with the given
/// route models, own entries and default, under an optional profile.
pub open spec fn context_spec(
    routes: Seq<Seq<char>>,
    own: Seq<ContextView>,
    own_default: Option<DefaultContextView>,
    prof: Option<ProfileView>,
    model: Seq<char>,
    ci: bool,
) -> Option<ContextView> {
    match canonical_route_spec(routes, model, ci) {
        None => None,
        Some(c) => match lookup_entry(own, prof, c, ci) {
            Some(x) => Some(x),
            None => match lookup_entry(own, prof, trim_seq(model), ci) {
                Some(x) => Some(x),
                None => match own_default {
                    Some(d) => Some(from_default(model, d)),
                    None => match prof {
                        Some(p) => match p.1 {
                            Some(d) => Some(from_default(model, d)),
                            None => None,
                        },
                        None => None,
                    },
                },
            },
        },
    }
}

pub open spec fn context_view_of(c: ModelContextConfig) -> ContextView {
    (c.slug@, c.context_limit, c.output_reserve, c.max_output_tokens, c.context_group@)
}

pub open spec fn opt_context_view(c: Option<ModelContextConfig>) -> Option<ContextView> {
    match c {
        Some(c) => Some(context_view_of(c)),
        None => None,
    }
}

/// `s` without trailing `/` characters.
pub open spec fn strip_trailing_slashes(s: Seq<char>) -> Seq<char>
    decreases s.len(),
{
    if s.len() > 0 && s.last() == '/' {
        strip_trailing_slashes(s.drop_last())
    } else {
        s
    }
}

/// The key a base URL is stored under: trimmed, trailing slashes removed.
pub open spec fn base_url_key(s: Seq<char>) -> Seq<char> {
    strip_trailing_slashes(trim_seq(s))
}

fn copy_context(c: &ModelContextConfig) -> (r: ModelContextConfig)
    ensures
        context_view_of(r) == context_view_of(*c),
{
    ModelContextConfig {
        slug: owned(c.slug.as_str()),
        context_limit: c.context_limit,
        output_reserve: c.output_reserve,
        max_output_tokens: c.max_output_tokens,
        context_group: owned(c.context_group.as_str()),
    }
}

fn find_slug(cs: &Vec<ModelContextConfig>, cand: &String, ci: bool) -> (r: Option<usize>)
    ensures
        match first_slug(contexts_view(cs@), cand@, ci) {
            Some(i) => r matches Some(x) && x as int == i,
            None => r is None,
        },
{
    let ghost cv = contexts_view(cs@);
    let cc = chars_of(cand.as_str());
    for i in 0..cs.len()
        invariant
            cv == contexts_view(cs@),
            cc@ == cand@,
            first_slug(cv.take(i as int), cand@, ci) is None,
    {
        assert(cv.take(i + 1).drop_last() == cv.take(i as int));
        assert(cv.take(i + 1).last().0 == cs@[i as int].slug@);
        let hit = if ci {
            models_equivalent(cs[i].slug.as_str(), cand.as_str())
        } else {
            chars_eq(&trimmed_chars(cs[i].slug.as_str()), &cc)
        };
        if hit {
            proof {
                lemma_first_slug_prefix(cv, cand@, ci, i + 1);
            }
            return Some(i);
        }
    }
    assert(cv.take(cs.len() as int) == cv);
    None
}

fn lookup_entry_exec(
    own: &Vec<ModelContextConfig>,
    profile: Option<&GlobalContextProfile>,
    cand: &String,
    ci: bool,
) -> (r: Option<ModelContextConfig>)
    ensures
        opt_context_view(r) == lookup_entry(contexts_view(own@), profile_view(profile), cand@, ci),
{
    proof {
        lemma_first_slug(contexts_view(own@), cand@, ci);
    }
    match find_slug(own, cand, ci) {
        Some(i) => {
            assert(contexts_view(own@)[i as int] == context_view_of(own@[i as int]));
            return Some(copy_context(&own[i]));
        },
        None => {},
    }
    match profile {
        Some(p) => {
            proof {
                lemma_first_slug(contexts_view(p.model_contexts@), cand@, ci);
            }
            match find_slug(&p.model_contexts, cand, ci) {
                Some(j) => {
                    assert(contexts_view(p.model_contexts@)[j as int] == context_view_of(
                        p.model_contexts@[j as int],
                    ));
                    Some(copy_context(&p.model_contexts[j]))
                },
                None => None,
            }
        },
        None => None,
    }
}

/// `base_url` trimmed, with trailing slashes removed.
pub fn normalize_context_profile_base_url(base_url: &str) -> (r: String)
    ensures
        r@ == base_url_key(base_url@),
{
    let t = trimmed_chars(base_url);
    let mut end = t.len();
    assert(t@.subrange(0, t.len() as int) == t@);
    while end > 0 && t[end - 1] == '/'
        invariant
            end <= t.len(),
            strip_trailing_slashes(t@) == strip_trailing_slashes(t@.subrange(0, end as int)),
        decreases end,
    {
        assert(t@.subrange(0, end as int).drop_last() == t@.subrange(0, end - 1));
        end -= 1;
    }
    assert(t@.subrange(0, t.len() as int) == t@);
    string_from_chars(&crate::text::slice_chars(&t, 0, end))
}

impl GlobalContextProfile {
    /// Normalizes the profile's entries and default window for storage.
    pub fn normalize_for_storage(&mut self)
        ensures
            contexts_view(final(self).model_contexts@) == normalized_contexts(
                contexts_view(old(self).model_contexts@),
            ),
            default_view(final(self).default_model_context) == normalized_default(
                default_view(old(self).default_model_context),
            ),
    {
        self.model_contexts = normalized_model_contexts(&self.model_contexts);
        self.default_model_context = normalized_default_model_context(&self.default_model_context);
    }
}

fn copy_profile(p: &GlobalContextProfile) -> (r: GlobalContextProfile)
    ensures
        contexts_view(r.model_contexts@) == contexts_view(p.model_contexts@),
        default_view(r.default_model_context) == default_view(p.default_model_context),
{
    let mut contexts: Vec<ModelContextConfig> = Vec::new();
    for i in 0..p.model_contexts.len()
        invariant
            contexts_view(contexts@) =~= contexts_view(p.model_contexts@).take(i as int),
    {
        let c = copy_context(&p.model_contexts[i]);
        let ghost before = contexts_view(contexts@);
        contexts.push(c);
        assert(contexts_view(contexts@) =~= before.push(context_view_of(c)));
        assert(contexts_view(p.model_contexts@)[i as int] == context_view_of(p.model_contexts@[i as int]));
        assert(contexts_view(p.model_contexts@).take(i + 1) =~= contexts_view(p.model_contexts@).take(i as int).push(contexts_view(p.model_contexts@)[i as int]));
    }
    assert(contexts_view(p.model_contexts@).take(p.model_contexts.len() as int) == contexts_view(p.model_contexts@));
    let d = match &p.default_model_context {
        Some(d) => Some(
            crate::config::DefaultModelContextConfig {
                context_limit: d.context_limit,
                output_reserve: d.output_reserve,
                max_output_tokens: d.max_output_tokens,
                context_group: owned(d.context_group.as_str()),
            },
        ),
        None => None,
    };
    GlobalContextProfile { model_contexts: contexts, default_model_context: d }
}

/// Stored profiles keyed by base URL, as plain values.
pub open spec fn profile_entries_view(v: Seq<(String, GlobalContextProfile)>) -> Seq<(Seq<char>, ProfileView)> {
    v.map_values(|e: (String, GlobalContextProfile)| (e.0@, (contexts_view(e.1.model_contexts@), default_view(e.1.default_model_context))))
}

/// The stored form of a profile.
pub open spec fn normalized_profile(p: ProfileView) -> ProfileView {
    (normalized_contexts(p.0), normalized_default(p.1))
}

/// Normalizes every profile and its base-URL key, dropping blank keys; of
/// several profiles whose keys normalize alike, the first is kept.
pub fn normalize_global_context_profiles_for_storage(profiles: &Vec<(String, GlobalContextProfile)>) -> (r: Vec<
    (String, GlobalContextProfile),
>)
    ensures
        forall|i: int|
            0 <= i < r@.len() ==> (#[trigger] profile_entries_view(r@)[i]).0.len() > 0 && exists|
                j: int,
            |
                0 <= j < profiles@.len() && base_url_key(profiles@[j].0@) == profile_entries_view(
                    r@,
                )[i].0 && profile_entries_view(r@)[i].1 == normalized_profile(
                    profile_entries_view(profiles@)[j].1,
                ),
        forall|i: int, k: int|
            0 <= i < k < r@.len() ==> profile_entries_view(r@)[i].0 != profile_entries_view(
                r@,
            )[k].0,
        forall|j: int|
            0 <= j < profiles@.len() && base_url_key(#[trigger] profiles@[j].0@).len() > 0 ==> exists|
                i: int,
            | 0 <= i < r@.len() && profile_entries_view(r@)[i].0 == base_url_key(profiles@[j].0@),
{
    let mut out: Vec<(String, GlobalContextProfile)> = Vec::new();
    let mut keys: Vec<String> = Vec::new();
    for j in 0..profiles.len()
        invariant
            keys@.len() == out@.len(),
            forall|i: int| 0 <= i < keys@.len() ==> (#[trigger] keys@[i])@ == out@[i].0@,
            forall|i: int|
                0 <= i < out@.len() ==> (#[trigger] profile_entries_view(out@)[i]).0.len() > 0
                    && exists|t: int|
                    0 <= t < profiles@.len() && base_url_key(profiles@[t].0@)
                        == profile_entries_view(out@)[i].0 && profile_entries_view(out@)[i].1
                        == normalized_profile(profile_entries_view(profiles@)[t].1),
            forall|i: int, k: int|
                0 <= i < k < out@.len() ==> profile_entries_view(out@)[i].0 != profile_entries_view(
                    out@,
                )[k].0,
            forall|t: int|
                0 <= t < j && base_url_key(#[trigger] profiles@[t].0@).len() > 0 ==> exists|i: int|
                    0 <= i < out@.len() && profile_entries_view(out@)[i].0 == base_url_key(
                        profiles@[t].0@,
                    ),
    {
        let key = normalize_context_profile_base_url(profiles[j].0.as_str());
        let kc = chars_of(key.as_str());
        if kc.len() > 0 {
            let ghost kv = crate::text::views(keys@);
            assert forall|i: int| 0 <= i < keys@.len() implies kv[i] == profile_entries_view(out@)[i].0 by {
                assert(keys@[i]@ == out@[i].0@);
            }
            if !crate::text::contains_text(&keys, &kc) {
                let mut p = copy_profile(&profiles[j].1);
                p.normalize_for_storage();
                let ghost before = profile_entries_view(out@);
                let kk = owned(key.as_str());
                keys.push(kk);
                out.push((key, p));
                assert(profile_entries_view(out@) =~= before.push((kc@, normalized_profile(profile_entries_view(profiles@)[j as int].1))));
                assert(profile_entries_view(out@)[out@.len() - 1].0 == base_url_key(profiles@[j as int].0@));
                assert forall|i: int, k: int|
                    0 <= i < k < out@.len() implies profile_entries_view(out@)[i].0 != profile_entries_view(out@)[k].0 by {
                    if k == out@.len() - 1 {
                        assert(kv[i] == before[i].0);
                    } else {
                        assert(before[i].0 != before[k].0);
                    }
                }
                assert forall|t: int|
                    0 <= t < j + 1 && base_url_key(#[trigger] profiles@[t].0@).len() > 0 implies exists|i: int|
                        0 <= i < out@.len() && profile_entries_view(out@)[i].0 == base_url_key(profiles@[t].0@) by {
                    if t < j {
                        let i = choose|i: int| 0 <= i < before.len() && before[i].0 == base_url_key(profiles@[t].0@);
                        assert(profile_entries_view(out@)[i] == before[i]);
                    }
                }
                assert forall|i: int|
                    0 <= i < out@.len() implies (#[trigger] profile_entries_view(out@)[i]).0.len() > 0 && exists|t: int|
                        0 <= t < profiles@.len() && base_url_key(profiles@[t].0@) == profile_entries_view(out@)[i].0
                            && profile_entries_view(out@)[i].1 == normalized_profile(profile_entries_view(profiles@)[t].1) by {
                    if i < out@.len() - 1 {
                        assert(profile_entries_view(out@)[i] == before[i]);
                    } else {
                        assert(profile_entries_view(profiles@)[j as int].1 == (contexts_view(profiles@[j as int].1.model_contexts@), default_view(profiles@[j as int].1.default_model_context)));
                    }
                }
            } else {
                proof {
                    let i = choose|i: int| 0 <= i < kv.len() && kv[i] == kc@;
                    assert(profile_entries_view(out@)[i].0 == base_url_key(profiles@[j as int].0@));
                }
            }
        }
    }
    out
}

impl UpstreamConfig {
    /// The context spec of this upstream for `model`.
    pub open spec fn context_spec_for(&self, model: Seq<char>, prof: Option<ProfileView>, ci: bool) -> Option<
        ContextView,
    > {
        context_spec(
            self.route_models_spec(),
            contexts_view(self.model_contexts@),
            default_view(self.default_model_context),
            prof,
            model,
            ci,
        )
    }

    pub fn context_config_for_model(&self, model: &str) -> (r: Option<ModelContextConfig>)
        ensures
            opt_context_view(r) == self.context_spec_for(model@, None, true),
    {
        self.context_config_for_model_with(model, true)
    }

    pub fn context_config_for_model_with(&self, model: &str, case_insensitive: bool) -> (r: Option<
        ModelContextConfig,
    >)
        ensures
            opt_context_view(r) == self.context_spec_for(model@, None, case_insensitive),
    {
        self.context_config_for_model_with_profile_and_case(model, None, case_insensitive)
    }

    pub fn context_config_for_model_with_profile(
        &self,
        model: &str,
        profile: Option<&GlobalContextProfile>,
    ) -> (r: Option<ModelContextConfig>)
        ensures
            opt_context_view(r) == self.context_spec_for(model@, profile_view(profile), true),
    {
        self.context_config_for_model_with_profile_and_case(model, profile, true)
    }

    /// The window of a routable `model`: the explicit entry naming its
    /// resolved spelling, else the entry naming the request as given (the
    /// upstream's own entries before the profile's), else a default window
    /// (the upstream's, then the profile's) under the trimmed request name.
    pub fn context_config_for_model_with_profile_and_case(
        &self,
        model: &str,
        profile: Option<&GlobalContextProfile>,
        case_insensitive: bool,
    ) -> (r: Option<ModelContextConfig>)
        ensures
            opt_context_view(r) == self.context_spec_for(model@, profile_view(profile), case_insensitive),
    {
        let candidate = match self.resolved_model_name_with(model, case_insensitive) {
            Some(c) => c,
            None => return None,
        };
        match lookup_entry_exec(&self.model_contexts, profile, &candidate, case_insensitive) {
            Some(c) => return Some(c),
            None => {},
        }
        let trimmed_model = trimmed(model);
        match lookup_entry_exec(&self.model_contexts, profile, &trimmed_model, case_insensitive) {
            Some(c) => return Some(c),
            None => {},
        }
        match &self.default_model_context {
            Some(d) => {
                return Some(
                    ModelContextConfig {
                        slug: trimmed_model,
                        context_limit: d.context_limit,
                        output_reserve: d.output_reserve,
                        max_output_tokens: d.max_output_tokens,
                        context_group: owned(d.context_group.as_str()),
                    },
                );
            },
            None => {},
        }
        match profile {
            Some(p) => match &p.default_model_context {
                Some(d) => Some(
                    ModelContextConfig {
                        slug: trimmed_model,
                        context_limit: d.context_limit,
                        output_reserve: d.output_reserve,
                        max_output_tokens: d.max_output_tokens,
                        context_group: owned(d.context_group.as_str()),
                    },
                ),
                None => None,
            },
            None => None,
        }
    }
}

/// The entries a fallback is chosen from: the profile's, then the upstream's
/// own (a later entry with the same trimmed slug replaces an earlier one).
pub open spec fn candidate_pool(own: Seq<ContextView>, prof: Option<ProfileView>) -> Seq<ContextView> {
    match prof {
        Some(p) => p.0 + own,
        None => own,
    }
}

/// Entry `i` is not replaced by a later entry with the same trimmed slug.
pub open spec fn is_final_entry(pool: Seq<ContextView>, i: int) -> bool {
    &&& 0 <= i < pool.len()
    &&& forall|j: int| i < j < pool.len() ==> trim_seq(#[trigger] pool[j].0) != trim_seq(pool[i].0)
}

/// Entry `i` is a fallback candidate: a final entry of the group with a
/// larger window (at least `min` when given) that routes to a spelling other
/// than the current one.
pub open spec fn eligible(
    pool: Seq<ContextView>,
    i: int,
    group: Seq<char>,
    cur_limit: u32,
    current: Seq<char>,
    routes: Seq<Seq<char>>,
    ci: bool,
    min: Option<u32>,
) -> bool {
    &&& is_final_entry(pool, i)
    &&& trim_seq(pool[i].4) == group
    &&& pool[i].1 > cur_limit
    &&& (min matches Some(m) ==> pool[i].1 >= m)
    &&& canonical_route_spec(routes, pool[i].0, ci) matches Some(x) && trim_seq(x) != trim_seq(current)
}

/// Some entry is eligible.
pub open spec fn has_eligible(
    pool: Seq<ContextView>,
    group: Seq<char>,
    cur_limit: u32,
    current: Seq<char>,
    routes: Seq<Seq<char>>,
    ci: bool,
    min: Option<u32>,
) -> bool {
    exists|i: int| eligible(pool, i, group, cur_limit, current, routes, ci, min)
}

/// Entry `i` is an eligible candidate with the smallest window.
pub open spec fn best_candidate(
    pool: Seq<ContextView>,
    i: int,
    group: Seq<char>,
    cur_limit: u32,
    current: Seq<char>,
    routes: Seq<Seq<char>>,
    ci: bool,
    min: Option<u32>,
) -> bool {
    &&& eligible(pool, i, group, cur_limit, current, routes, ci, min)
    &&& forall|j: int|
        eligible(pool, j, group, cur_limit, current, routes, ci, min) ==> pool[i].1 <= #[trigger] pool[j].1
}

/// `r` is the routed spelling of a best candidate.
pub open spec fn picks_best(
    r: Option<String>,
    pool: Seq<ContextView>,
    group: Seq<char>,
    cur_limit: u32,
    current: Seq<char>,
    routes: Seq<Seq<char>>,
    ci: bool,
    min: Option<u32>,
) -> bool {
    r matches Some(x) && exists|i: int|
        best_candidate(pool, i, group, cur_limit, current, routes, ci, min) && canonical_route_spec(
            routes,
            pool[i].0,
            ci,
        ) == Some(x@)
}

/// A model the upstream does not route has no context window; the
/// upstream's own entry for the routed spelling wins over anything a profile
/// holds; and adding a profile never takes a window away.
pub proof fn law_context_config(
    routes: Seq<Seq<char>>,
    own: Seq<ContextView>,
    own_default: Option<DefaultContextView>,
    prof: Option<ProfileView>,
    model: Seq<char>,
    ci: bool,
)
    ensures
        canonical_route_spec(routes, model, ci) is None ==> context_spec(routes, own, own_default, prof, model, ci) is None,
        match canonical_route_spec(routes, model, ci) {
            Some(c) => match first_slug(own, c, ci) {
                Some(i) => context_spec(routes, own, own_default, prof, model, ci) == Some(own[i]),
                None => true,
            },
            None => true,
        },
        context_spec(routes, own, own_default, None, model, ci) is Some ==> context_spec(
            routes,
            own,
            own_default,
            prof,
            model,
            ci,
        ) is Some,
{
}

/// The entry found for a candidate is the first one whose slug names it,
/// and none is found exactly when no slug names it.
pub proof fn law_first_slug_is_first_match(cs: Seq<ContextView>, cand: Seq<char>, ci: bool)
    ensures
        first_slug(cs, cand, ci) matches Some(i) ==> 0 <= i < cs.len() && slug_match(cs[i].0, cand, ci) && forall|j: int|
            0 <= j < i ==> !slug_match(#[trigger] cs[j].0, cand, ci),
        first_slug(cs, cand, ci) is None <==> forall|j: int| 0 <= j < cs.len() ==> !slug_match(#[trigger] cs[j].0, cand, ci),
    decreases cs.len(),
{
    if cs.len() > 0 {
        let d = cs.drop_last();
        law_first_slug_is_first_match(d, cand, ci);
        assert forall|j: int| 0 <= j < d.len() implies d[j] == cs[j] by {}
        assert(cs[cs.len() - 1] == cs.last());
        if first_slug(cs, cand, ci) is None {
            assert forall|j: int| 0 <= j < cs.len() implies !slug_match(#[trigger] cs[j].0, cand, ci) by {
                if j < d.len() {
                    assert(d[j] == cs[j]);
                }
            }
        }
    }
}

/// A slug names a candidate, under case folding, when both are non-blank
/// and equal once trimmed and ASCII-lowercased; otherwise when the trimmed
/// slug is the candidate.
pub proof fn law_slug_match(slug: Seq<char>, cand: Seq<char>, ci: bool)
    ensures
        ci ==> (slug_match(slug, cand, ci) <==> (trim_seq(slug).len() > 0 && trim_seq(cand).len() > 0 && crate::text::lower_seq(
            trim_seq(slug),
        ) == crate::text::lower_seq(trim_seq(cand)))),
        !ci ==> (slug_match(slug, cand, ci) <==> trim_seq(slug) == cand),
{
}

/// No entry of `cs` names `cand`.
pub open spec fn names_none(cs: Seq<ContextView>, cand: Seq<char>, ci: bool) -> bool {
    forall|i: int| 0 <= i < cs.len() ==> !slug_match(#[trigger] cs[i].0, cand, ci)
}

proof fn lemma_first_slug_none(cs: Seq<ContextView>, cand: Seq<char>, ci: bool)
    requires
        names_none(cs, cand, ci),
    ensures
        first_slug(cs, cand, ci) is None,
    decreases cs.len(),
{
    if cs.len() > 0 {
        let d = cs.drop_last();
        assert forall|i: int| 0 <= i < d.len() implies !slug_match(#[trigger] d[i].0, cand, ci) by {
            assert(d[i] == cs[i]);
        }
        lemma_first_slug_none(d, cand, ci);
        assert(cs[cs.len() - 1] == cs.last());
    }
}

/// When a routed request has no explicit entry, neither its own nor the
/// profile's, under the routed or the requested spelling, the window is the
/// upstream's own default applied to the trimmed request name whatever the
/// profile's default is; without an own default it is the profile's
/// default; without either there is none.
pub proof fn law_defaults_own_before_profile(
    routes: Seq<Seq<char>>,
    own: Seq<ContextView>,
    own_default: Option<DefaultContextView>,
    prof: Option<ProfileView>,
    model: Seq<char>,
    ci: bool,
)
    requires
        canonical_route_spec(routes, model, ci) is Some,
        names_none(own, canonical_route_spec(routes, model, ci)->Some_0, ci),
        names_none(own, trim_seq(model), ci),
        prof matches Some(p) ==> names_none(p.0, canonical_route_spec(routes, model, ci)->Some_0, ci) && names_none(
            p.0,
            trim_seq(model),
            ci,
        ),
    ensures
        own_default matches Some(d) ==> context_spec(routes, own, own_default, prof, model, ci) == Some(
            (trim_seq(model), d.0, d.1, d.2, d.3),
        ),
        own_default is None ==> context_spec(routes, own, own_default, prof, model, ci) == match prof {
            Some(p) => match p.1 {
                Some(d) => Some((trim_seq(model), d.0, d.1, d.2, d.3)),
                None => None,
            },
            None => None,
        },
        own_default is Some ==> context_spec(routes, own, own_default, prof, model, ci) == context_spec(
            routes,
            own,
            own_default,
            None,
            model,
            ci,
        ),
{
    let c = canonical_route_spec(routes, model, ci)->Some_0;
    lemma_first_slug_none(own, c, ci);
    lemma_first_slug_none(own, trim_seq(model), ci);
    if let Some(p) = prof {
        lemma_first_slug_none(p.0, c, ci);
        lemma_first_slug_none(p.0, trim_seq(model), ci);
    }
}

/// A context fallback, when there is one, is the routed spelling of an
/// entry of the current window's (non-blank) context group with a strictly
/// larger window, and is not the spelling the request itself routes to;
/// a model with no context window has no fallback.
pub proof fn law_context_fallback(
    u: UpstreamConfig,
    r: Option<String>,
    model: Seq<char>,
    min: u32,
    prof: Option<ProfileView>,
    ci: bool,
)
    requires
        u.fallback_spec(r, model, min, prof, ci),
    ensures
        u.context_spec_for(model, prof, ci) is None ==> r is None,
        r matches Some(x) ==> u.context_spec_for(model, prof, ci) matches Some(cur) && {
            let pool = candidate_pool(contexts_view(u.model_contexts@), prof);
            let routes = u.route_models_spec();
            let current = match canonical_route_spec(routes, model, ci) {
                Some(y) => y,
                None => model,
            };
            &&& trim_seq(cur.4).len() > 0
            &&& exists|i: int|
                0 <= i < pool.len() && trim_seq(#[trigger] pool[i].4) == trim_seq(cur.4) && pool[i].1 > cur.1
                    && canonical_route_spec(routes, pool[i].0, ci) == Some(x@) && trim_seq(x@) != trim_seq(current)
        },
{
    if let Some(x) = r {
        let cur = u.context_spec_for(model, prof, ci)->Some_0;
        let group = trim_seq(cur.4);
        let pool = candidate_pool(contexts_view(u.model_contexts@), prof);
        let routes = u.route_models_spec();
        let current = match canonical_route_spec(routes, model, ci) {
            Some(y) => y,
            None => model,
        };
        let mn = if has_eligible(pool, group, cur.1, trim_seq(current), routes, ci, Some(min)) {
            Some(min)
        } else {
            None
        };
        assert(picks_best(r, pool, group, cur.1, trim_seq(current), routes, ci, mn));
        let i = choose|i: int|
            best_candidate(pool, i, group, cur.1, trim_seq(current), routes, ci, mn) && canonical_route_spec(
                routes,
                pool[i].0,
                ci,
            ) == Some(x@);
        assert(eligible(pool, i, group, cur.1, trim_seq(current), routes, ci, mn));
        assert(0 <= i < pool.len() && trim_seq(pool[i].4) == group && pool[i].1 > cur.1);
        assert(group.len() > 0);
        crate::text::lemma_trim_idempotent(current);
        assert(exists|k: int|
            0 <= k < pool.len() && trim_seq(#[trigger] pool[k].4) == trim_seq(cur.4) && pool[k].1 > cur.1
                && canonical_route_spec(routes, pool[k].0, ci) == Some(x@) && trim_seq(x@) != trim_seq(current));
    }
}

/// Entry `j` of `pool` can stand in for a window of `cur_limit` tokens of
/// context group `group`: no later entry has its trimmed slug, its group is
/// `group` once trimmed, its window is larger, and it routes to a spelling
/// other than `current` once trimmed.
pub open spec fn fallback_candidate(
    pool: Seq<ContextView>,
    j: int,
    group: Seq<char>,
    cur_limit: u32,
    current: Seq<char>,
    routes: Seq<Seq<char>>,
    ci: bool,
) -> bool {
    &&& 0 <= j < pool.len()
    &&& forall|k: int| j < k < pool.len() ==> trim_seq(#[trigger] pool[k].0) != trim_seq(pool[j].0)
    &&& trim_seq(pool[j].4) == group
    &&& pool[j].1 > cur_limit
    &&& canonical_route_spec(routes, pool[j].0, ci) matches Some(y) && trim_seq(y) != trim_seq(current)
}

/// Some candidate reaching `min` exists.
pub open spec fn candidate_reaching(
    pool: Seq<ContextView>,
    group: Seq<char>,
    cur_limit: u32,
    current: Seq<char>,
    routes: Seq<Seq<char>>,
    ci: bool,
    min: u32,
) -> bool {
    exists|j: int| fallback_candidate(pool, j, group, cur_limit, current, routes, ci) && #[trigger] pool[j].1 >= min
}

/// The spelling a request routes to, or the request itself.
pub open spec fn routed_or_self(routes: Seq<Seq<char>>, model: Seq<char>, ci: bool) -> Seq<char> {
    match canonical_route_spec(routes, model, ci) {
        Some(y) => y,
        None => model,
    }
}

/// The fallback of a request whose window `cur` has a non-blank context
/// group is the routed spelling of a candidate with the smallest window
/// among those reaching `min`, or, when none reaches it, among all
/// candidates; there is one exactly when there is a candidate; a blank
/// group has none.
pub proof fn law_fallback_smallest(
    u: UpstreamConfig,
    r: Option<String>,
    model: Seq<char>,
    min: u32,
    prof: Option<ProfileView>,
    ci: bool,
    cur: ContextView,
)
    requires
        u.fallback_spec(r, model, min, prof, ci),
        u.context_spec_for(model, prof, ci) == Some(cur),
    ensures
        trim_seq(cur.4).len() == 0 ==> r is None,
        trim_seq(cur.4).len() > 0 ==> (r is Some <==> exists|j: int|
            #[trigger] fallback_candidate(
                candidate_pool(contexts_view(u.model_contexts@), prof),
                j,
                trim_seq(cur.4),
                cur.1,
                routed_or_self(u.route_models_spec(), model, ci),
                u.route_models_spec(),
                ci,
            )),
        r matches Some(x) ==> exists|i: int|
            #[trigger] fallback_candidate(
                candidate_pool(contexts_view(u.model_contexts@), prof),
                i,
                trim_seq(cur.4),
                cur.1,
                routed_or_self(u.route_models_spec(), model, ci),
                u.route_models_spec(),
                ci,
            ) && canonical_route_spec(u.route_models_spec(), candidate_pool(contexts_view(u.model_contexts@), prof)[i].0, ci)
                == Some(x@) && smallest_fallback(
                candidate_pool(contexts_view(u.model_contexts@), prof),
                i,
                trim_seq(cur.4),
                cur.1,
                routed_or_self(u.route_models_spec(), model, ci),
                u.route_models_spec(),
                ci,
                min,
            ),
{
    let pool = candidate_pool(contexts_view(u.model_contexts@), prof);
    let routes = u.route_models_spec();
    let group = trim_seq(cur.4);
    let current = routed_or_self(routes, model, ci);
    crate::text::lemma_trim_idempotent(current);
    let ct = trim_seq(current);
    assert forall|j: int| #[trigger] fallback_candidate(pool, j, group, cur.1, current, routes, ci) <==> eligible(
        pool,
        j,
        group,
        cur.1,
        ct,
        routes,
        ci,
        None,
    ) by {}
    let reaching = candidate_reaching(pool, group, cur.1, current, routes, ci, min);
    if reaching {
        let j0 = choose|j: int| fallback_candidate(pool, j, group, cur.1, current, routes, ci) && #[trigger] pool[j].1 >= min;
        assert(eligible(pool, j0, group, cur.1, ct, routes, ci, Some(min)));
    } else {
        if has_eligible(pool, group, cur.1, ct, routes, ci, Some(min)) {
            let j0 = choose|j: int| eligible(pool, j, group, cur.1, ct, routes, ci, Some(min));
            assert(fallback_candidate(pool, j0, group, cur.1, current, routes, ci) && pool[j0].1 >= min);
        }
    }
    if group.len() > 0 {
        if let Some(x) = r {
            let mn = if has_eligible(pool, group, cur.1, ct, routes, ci, Some(min)) {
                Some(min)
            } else {
                None
            };
            assert(picks_best(r, pool, group, cur.1, ct, routes, ci, mn));
            let i = choose|i: int|
                best_candidate(pool, i, group, cur.1, ct, routes, ci, mn) && canonical_route_spec(routes, pool[i].0, ci)
                    == Some(x@);
            assert(eligible(pool, i, group, cur.1, ct, routes, ci, mn));
            assert(fallback_candidate(pool, i, group, cur.1, current, routes, ci));
            if reaching {
                assert forall|j: int|
                    fallback_candidate(pool, j, group, cur.1, current, routes, ci) && #[trigger] pool[j].1 >= min
                        implies pool[i].1 <= pool[j].1 by {
                    assert(eligible(pool, j, group, cur.1, ct, routes, ci, Some(min)));
                }
            } else {
                assert forall|j: int| #[trigger] fallback_candidate(pool, j, group, cur.1, current, routes, ci) implies pool[i].1
                    <= pool[j].1 by {
                    assert(eligible(pool, j, group, cur.1, ct, routes, ci, None));
                }
            }
            assert(smallest_fallback(pool, i, group, cur.1, current, routes, ci, min));
        } else {
            assert(!has_eligible(pool, group, cur.1, ct, routes, ci, None));
            assert forall|j: int| !#[trigger] fallback_candidate(pool, j, group, cur.1, current, routes, ci) by {
                if fallback_candidate(pool, j, group, cur.1, current, routes, ci) {
                    assert(eligible(pool, j, group, cur.1, ct, routes, ci, None));
                }
            }
        }
    }
}

/// Candidate `i` has the smallest window among the candidates reaching
/// `min` when some reach it (and reaches it itself), else among all.
pub open spec fn smallest_fallback(
    pool: Seq<ContextView>,
    i: int,
    group: Seq<char>,
    cur_limit: u32,
    current: Seq<char>,
    routes: Seq<Seq<char>>,
    ci: bool,
    min: u32,
) -> bool {
    if candidate_reaching(pool, group, cur_limit, current, routes, ci, min) {
        &&& pool[i].1 >= min
        &&& forall|j: int|
            fallback_candidate(pool, j, group, cur_limit, current, routes, ci) && #[trigger] pool[j].1 >= min ==> pool[i].1
                <= pool[j].1
    } else {
        forall|j: int| #[trigger] fallback_candidate(pool, j, group, cur_limit, current, routes, ci) ==> pool[i].1 <= pool[j].1
    }
}

pub(crate) fn copy_contexts_into(out: &mut Vec<ModelContextConfig>, cs: &Vec<ModelContextConfig>)
    ensures
        contexts_view(final(out)@) == contexts_view(old(out)@) + contexts_view(cs@),
{
    let ghost start = contexts_view(out@);
    for i in 0..cs.len()
        invariant
            contexts_view(out@) == start + contexts_view(cs@).take(i as int),
    {
        let c = copy_context(&cs[i]);
        let ghost before = contexts_view(out@);
        out.push(c);
        assert(contexts_view(out@) =~= before.push(context_view_of(c)));
        assert(contexts_view(cs@)[i as int] == context_view_of(cs@[i as int]));
        assert(contexts_view(cs@).take(i + 1) =~= contexts_view(cs@).take(i as int).push(contexts_view(cs@)[i as int]));
    }
    assert(contexts_view(cs@).take(cs.len() as int) == contexts_view(cs@));
}

impl UpstreamConfig {
    fn entry_is_final(pool: &Vec<ModelContextConfig>, i: usize) -> (r: bool)
        requires
            i < pool.len(),
        ensures
            r == is_final_entry(contexts_view(pool@), i as int),
    {
        let ghost pv = contexts_view(pool@);
        let slug = trimmed_chars(pool[i].slug.as_str());
        assert(pv[i as int].0 == pool@[i as int].slug@);
        let mut j = i + 1;
        while j < pool.len()
            invariant
                pv == contexts_view(pool@),
                i < j <= pool.len(),
                slug@ == trim_seq(pv[i as int].0),
                forall|k: int| i < k < j ==> trim_seq(#[trigger] pv[k].0) != trim_seq(pv[i as int].0),
            decreases pool.len() - j,
        {
            assert(pv[j as int].0 == pool@[j as int].slug@);
            if chars_eq(&trimmed_chars(pool[j].slug.as_str()), &slug) {
                return false;
            }
            j += 1;
        }
        true
    }

    fn best_fallback(
        &self,
        pool: &Vec<ModelContextConfig>,
        group: &Vec<char>,
        cur_limit: u32,
        current: &Vec<char>,
        ci: bool,
        min: Option<u32>,
    ) -> (r: Option<String>)
        requires
            trim_seq(current@) == current@,
        ensures
            has_eligible(contexts_view(pool@), group@, cur_limit, current@, self.route_models_spec(), ci, min)
                ==> picks_best(r, contexts_view(pool@), group@, cur_limit, current@, self.route_models_spec(), ci, min),
            !has_eligible(contexts_view(pool@), group@, cur_limit, current@, self.route_models_spec(), ci, min)
                ==> r is None,
    {
        let ghost pv = contexts_view(pool@);
        let ghost routes = self.route_models_spec();
        let mut best: Option<(usize, String)> = None;
        for i in 0..pool.len()
            invariant
                pv == contexts_view(pool@),
                routes == self.route_models_spec(),
                trim_seq(current@) == current@,
                match best {
                    Some((b, x)) => b < i && eligible(pv, b as int, group@, cur_limit, current@, routes, ci, min)
                        && canonical_route_spec(routes, pv[b as int].0, ci) == Some(x@)
                        && forall|j: int| 0 <= j < i && eligible(pv, j, group@, cur_limit, current@, routes, ci, min)
                            ==> pv[b as int].1 <= #[trigger] pv[j].1,
                    None => forall|j: int| 0 <= j < i ==> !eligible(pv, j, group@, cur_limit, current@, routes, ci, min),
                },
        {
            let c = &pool[i];
            assert(pv[i as int] == context_view_of(*c));
            let in_group = chars_eq(&trimmed_chars(c.context_group.as_str()), group);
            let big_enough = match min {
                Some(m) => c.context_limit >= m,
                None => true,
            };
            if in_group && c.context_limit > cur_limit && big_enough && Self::entry_is_final(pool, i) {
                match self.resolved_model_name_with(c.slug.as_str(), ci) {
                    Some(x) => {
                        if !chars_eq(&trimmed_chars(x.as_str()), current) {
                            let better = match &best {
                                Some((b, _)) => c.context_limit < pool[*b].context_limit,
                                None => true,
                            };
                            if better {
                                best = Some((i, x));
                            }
                        }
                    },
                    None => {},
                }
            }
        }
        proof {
            match best {
                Some((b, _)) => {
                    assert forall|j: int| eligible(pv, j, group@, cur_limit, current@, routes, ci, min)
                        implies pv[b as int].1 <= #[trigger] pv[j].1 by {
                        assert(0 <= j < pv.len());
                    }
                    assert(best_candidate(pv, b as int, group@, cur_limit, current@, routes, ci, min));
                },
                None => {
                    assert forall|j: int| !eligible(pv, j, group@, cur_limit, current@, routes, ci, min) by {
                        if eligible(pv, j, group@, cur_limit, current@, routes, ci, min) {
                            assert(0 <= j < pv.len());
                        }
                    }
                },
            }
        }
        match best {
            Some((_, x)) => Some(x),
            None => None,
        }
    }

    pub fn context_fallback_model_for(&self, model: &str, minimum_context_limit: u32) -> (r: Option<String>)
        ensures
            self.fallback_spec(r, model@, minimum_context_limit, None, true),
    {
        self.context_fallback_model_for_with_profile(model, minimum_context_limit, None)
    }

    pub fn context_fallback_model_for_with_profile(
        &self,
        model: &str,
        minimum_context_limit: u32,
        profile: Option<&GlobalContextProfile>,
    ) -> (r: Option<String>)
        ensures
            self.fallback_spec(r, model@, minimum_context_limit, profile_view(profile), true),
    {
        self.context_fallback_model_for_with_profile_and_case(model, minimum_context_limit, profile, true)
    }

    /// What the fallback for `model` is allowed to be.
    pub open spec fn fallback_spec(
        &self,
        r: Option<String>,
        model: Seq<char>,
        min: u32,
        prof: Option<ProfileView>,
        ci: bool,
    ) -> bool {
        let routes = self.route_models_spec();
        match self.context_spec_for(model, prof, ci) {
            None => r is None,
            Some(cur) => {
                let group = trim_seq(cur.4);
                let pool = candidate_pool(contexts_view(self.model_contexts@), prof);
                let current = match canonical_route_spec(routes, model, ci) {
                    Some(x) => x,
                    None => model,
                };
                if group.len() == 0 {
                    r is None
                } else if has_eligible(pool, group, cur.1, trim_seq(current), routes, ci, Some(min)) {
                    picks_best(r, pool, group, cur.1, trim_seq(current), routes, ci, Some(min))
                } else if has_eligible(pool, group, cur.1, trim_seq(current), routes, ci, None) {
                    picks_best(r, pool, group, cur.1, trim_seq(current), routes, ci, None)
                } else {
                    r is None
                }
            },
        }
    }

    /// A larger window of the same context group for `model`: the smallest
    /// one of at least `minimum_context_limit` tokens if any, else the
    /// smallest larger one, named by its routed spelling, and never the
    /// spelling `model` itself routes to.
    pub fn context_fallback_model_for_with_profile_and_case(
        &self,
        model: &str,
        minimum_context_limit: u32,
        profile: Option<&GlobalContextProfile>,
        case_insensitive: bool,
    ) -> (r: Option<String>)
        ensures
            self.fallback_spec(r, model@, minimum_context_limit, profile_view(profile), case_insensitive),
    {
        let current = match self.context_config_for_model_with_profile_and_case(model, profile, case_insensitive) {
            Some(c) => c,
            None => return None,
        };
        let group = trimmed_chars(current.context_group.as_str());
        if group.len() == 0 {
            return None;
        }
        let current_resolved = match self.resolved_model_name_with(model, case_insensitive) {
            Some(x) => x,
            None => owned(model),
        };
        let cr = trimmed_chars(current_resolved.as_str());
        proof {
            crate::text::lemma_trim_idempotent(current_resolved@);
        }
        let mut pool: Vec<ModelContextConfig> = Vec::new();
        assert(contexts_view(pool@) =~= Seq::<ContextView>::empty());
        match profile {
            Some(p) => copy_contexts_into(&mut pool, &p.model_contexts),
            None => {},
        }
        copy_contexts_into(&mut pool, &self.model_contexts);
        assert(contexts_view(pool@) =~= candidate_pool(contexts_view(self.model_contexts@), profile_view(profile)));
        let ghost pv = profile_view(profile);
        let ghost routes = self.route_models_spec();
        let ghost cur = self.context_spec_for(model@, pv, case_insensitive)->0;
        let ghost spec_current = match canonical_route_spec(routes, model@, case_insensitive) {
            Some(x) => x,
            None => model@,
        };
        assert(cur == context_view_of(current));
        assert(group@ == trim_seq(cur.4));
        assert(cr@ == trim_seq(spec_current));
        let ghost cpool = candidate_pool(contexts_view(self.model_contexts@), pv);
        assert(cpool == contexts_view(pool@));
        let first = self.best_fallback(&pool, &group, current.context_limit, &cr, case_insensitive, Some(minimum_context_limit));
        if first.is_some() {
            return first;
        }
        let second = self.best_fallback(&pool, &group, current.context_limit, &cr, case_insensitive, None);
        second
    }
}

} // verus!
