//! Normalization and lookups on an upstream's configuration: protocol
//! lists, route models, per-key model lists, model resolution and the keys
//! usable for a model.
use vstd::prelude::*;
use crate::config::{
    key_models_view, ApiKeyModelConfig, DefaultModelContextConfig, KeyModelsView,
    ModelContextConfig, UpstreamConfig, UpstreamModelMapping, UpstreamProtocol,
    DEFAULT_MODEL_CONTEXT_OUTPUT_RESERVE,
};
use crate::model_identity::{
    codex_subagent_base_model, equivalent_with, first_eq, first_equiv, find_equivalent_stored,
    lemma_first_eq_bounds, lemma_first_equiv_bounds, lemma_first_eq_prefix, models_equivalent_with,
    subagent_suffix, suffix_base,
};
use crate::text::{
    chars_eq, chars_of, clone_strings, contains_text, lemma_views_push, owned, string_from_chars,
    trim_seq, trimmed, trimmed_chars, views,
};

verus! {

/// `normalized_string_list`: each value trimmed, blanks dropped, and only
/// the first occurrence of each trimmed value kept, in order.
pub open spec fn normalized_list(s: Seq<Seq<char>>) -> Seq<Seq<char>>
    decreases s.len(),
{
    if s.len() == 0 {
        Seq::empty()
    } else {
        let prev = normalized_list(s.drop_last());
        let t = trim_seq(s.last());
        if t.len() == 0 || prev.contains(t) {
            prev
        } else {
            prev.push(t)
        }
    }
}

/// First occurrences of each protocol, in order.
pub open spec fn dedup_protocols_spec(s: Seq<UpstreamProtocol>) -> Seq<UpstreamProtocol>
    decreases s.len(),
{
    if s.len() == 0 {
        Seq::empty()
    } else {
        let prev = dedup_protocols_spec(s.drop_last());
        if prev.contains(s.last()) {
            prev
        } else {
            prev.push(s.last())
        }
    }
}

/// The protocol a stored name denotes: `Responses`/`responses`, anything
/// else Chat Completions.
pub open spec fn protocol_named(value: Seq<char>) -> UpstreamProtocol {
    if value == "Responses"@ || value == "responses"@ {
        UpstreamProtocol::Responses
    } else {
        UpstreamProtocol::ChatCompletions
    }
}

/// Parses a stored protocol name: `Responses`/`responses`, anything else
/// is Chat Completions.
pub fn parse_upstream_protocol(value: &str) -> (r: UpstreamProtocol)
    ensures
        r == protocol_named(value@),
{
    let v = chars_of(value);
    let a = chars_of("Responses");
    let b = chars_of("responses");
    if chars_eq(&v, &a) || chars_eq(&v, &b) {
        UpstreamProtocol::Responses
    } else {
        UpstreamProtocol::ChatCompletions
    }
}

fn contains_protocol(v: &Vec<UpstreamProtocol>, p: UpstreamProtocol) -> (r: bool)
    ensures
        r == v@.contains(p),
{
    for i in 0..v.len()
        invariant
            forall|j: int| 0 <= j < i ==> v@[j] != p,
    {
        if v[i] == p {
            return true;
        }
    }
    false
}

/// Keeps the first occurrence of each protocol, in order.
pub fn dedup_protocols(values: &Vec<UpstreamProtocol>) -> (r: Vec<UpstreamProtocol>)
    ensures
        r@ == dedup_protocols_spec(values@),
{
    let mut out: Vec<UpstreamProtocol> = Vec::new();
    for i in 0..values.len()
        invariant
            out@ == dedup_protocols_spec(values@.take(i as int)),
    {
        assert(values@.take(i + 1).drop_last() == values@.take(i as int));
        let p = values[i];
        if !contains_protocol(&out, p) {
            out.push(p);
        }
    }
    assert(values@.take(values.len() as int) == values@);
    out
}

/// Trims each value, drops blanks, keeps the first occurrence of each.
pub fn normalized_string_list(values: &Vec<String>) -> (r: Vec<String>)
    ensures
        views(r@) == normalized_list(views(values@)),
{
    let ghost vv = views(values@);
    let mut out: Vec<String> = Vec::new();
    for i in 0..values.len()
        invariant
            vv == views(values@),
            views(out@) == normalized_list(vv.take(i as int)),
    {
        assert(vv.take(i + 1).drop_last() == vv.take(i as int));
        assert(vv.take(i + 1).last() == values@[i as int]@);
        let t = trimmed_chars(values[i].as_str());
        if t.len() > 0 && !contains_text(&out, &t) {
            let s = string_from_chars(&t);
            proof {
                lemma_views_push(out@, s);
            }
            out.push(s);
        }
    }
    assert(vv.take(values.len() as int) == vv);
    out
}

/// `values` followed by `more`.
pub(crate) fn concat_strings(values: &Vec<String>, more: &Vec<String>) -> (r: Vec<String>)
    ensures
        views(r@) == views(values@) + views(more@),
{
    let mut out = clone_strings(values);
    for i in 0..more.len()
        invariant
            views(out@) == views(values@) + views(more@).take(i as int),
    {
        let s = more[i].clone();
        proof {
            lemma_views_push(out@, s);
            assert(views(more@).take(i + 1) == views(more@).take(i as int).push(more@[i as int]@));
        }
        out.push(s);
    }
    assert(views(more@).take(more.len() as int) == views(more@));
    out
}

/// A mapping's model list matches the requested model `m` (already trimmed).
pub open spec fn models_match(models: Seq<Seq<char>>, m: Seq<char>, ci: bool) -> bool {
    if ci {
        exists|i: int|
            0 <= i < models.len() && (equivalent_with(#[trigger] models[i], m, true) || (suffix_base(
                m,
                subagent_suffix(),
            ) matches Some(b) && equivalent_with(models[i], b, true)))
    } else {
        exists|i: int| 0 <= i < models.len() && trim_seq(#[trigger] models[i]) == m
    }
}

/// The keys of the matching mappings (trimmed, current, first occurrence).
pub open spec fn keys_matching(
    kms: Seq<KeyModelsView>,
    m: Seq<char>,
    ci: bool,
    current: Seq<Seq<char>>,
) -> Seq<Seq<char>>
    decreases kms.len(),
{
    if kms.len() == 0 {
        Seq::empty()
    } else {
        let prev = keys_matching(kms.drop_last(), m, ci, current);
        let k = trim_seq(kms.last().0);
        if models_match(kms.last().1, m, ci) && k.len() > 0 && current.contains(k)
            && !prev.contains(k) {
            prev.push(k)
        } else {
            prev
        }
    }
}

/// A premium entry matches the requested model `m` (already trimmed).
pub open spec fn premium_match(p: Seq<char>, m: Seq<char>, ci: bool) -> bool {
    let p = trim_seq(p);
    if ci {
        equivalent_with(p, m, true) || (suffix_base(m, subagent_suffix()) matches Some(b)
            && equivalent_with(p, b, true))
    } else {
        p == m || suffix_base(m, subagent_suffix()) == Some(p)
    }
}

/// The spelling a request for `model` is routed under, given the route models.
pub open spec fn canonical_route_spec(routes: Seq<Seq<char>>, model: Seq<char>, ci: bool) -> Option<
    Seq<char>,
> {
    let m = trim_seq(model);
    if m.len() == 0 {
        None
    } else if routes.len() == 0 {
        if suffix_base(m, subagent_suffix()) is None {
            Some(m)
        } else {
            None
        }
    } else {
        match first_equiv(routes, m, ci) {
            Some(i) => Some(routes[i]),
            None => match suffix_base(m, subagent_suffix()) {
                Some(b) => match (if ci {
                    first_equiv(routes, b, true)
                } else {
                    first_eq(routes, b)
                }) {
                    Some(j) => Some(routes[j]),
                    None => None,
                },
                None => None,
            },
        }
    }
}

/// A normalized list holds each value once, trimmed and non-blank, and
/// holds exactly the trimmed non-blank input values.
pub proof fn law_normalized_list(s: Seq<Seq<char>>)
    ensures
        normalized_list(s).no_duplicates(),
        forall|i: int|
            0 <= i < normalized_list(s).len() ==> trim_seq(#[trigger] normalized_list(s)[i]) == normalized_list(s)[i]
                && normalized_list(s)[i].len() > 0,
        forall|e: Seq<char>|
            #[trigger] normalized_list(s).contains(e) <==> (e.len() > 0 && exists|i: int|
                0 <= i < s.len() && trim_seq(#[trigger] s[i]) == e),
    decreases s.len(),
{
    if s.len() > 0 {
        let d = s.drop_last();
        law_normalized_list(d);
        let prev = normalized_list(d);
        let t = trim_seq(s.last());
        crate::text::lemma_trim_idempotent(s.last());
        assert forall|e: Seq<char>| #[trigger] normalized_list(s).contains(e) <==> (e.len() > 0 && exists|i: int|
            0 <= i < s.len() && trim_seq(#[trigger] s[i]) == e) by {
            if normalized_list(s).contains(e) {
                if prev.contains(e) {
                    let i = choose|i: int| 0 <= i < d.len() && trim_seq(#[trigger] d[i]) == e;
                    assert(s[i] == d[i]);
                } else {
                    assert(trim_seq(s[s.len() - 1]) == e);
                }
            }
            if e.len() > 0 && exists|i: int| 0 <= i < s.len() && trim_seq(#[trigger] s[i]) == e {
                let i = choose|i: int| 0 <= i < s.len() && trim_seq(#[trigger] s[i]) == e;
                if i < s.len() - 1 {
                    assert(d[i] == s[i]);
                    assert(prev.contains(e));
                    if !(t.len() == 0 || prev.contains(t)) {
                        let k = choose|k: int| 0 <= k < prev.len() && prev[k] == e;
                        assert(prev.push(t)[k] == e);
                    }
                } else {
                    if !(t.len() == 0 || prev.contains(t)) {
                        assert(prev.push(t)[prev.len() as int] == e);
                    }
                }
            }
        }
        if !(t.len() == 0 || prev.contains(t)) {
            let n = prev.push(t);
            assert forall|x: int, y: int| 0 <= x < n.len() && 0 <= y < n.len() && x != y implies n[x] != n[y] by {
                if x < prev.len() && y < prev.len() {
                } else if x < prev.len() {
                    assert(prev.contains(prev[x]));
                } else {
                    assert(prev.contains(prev[y]));
                }
            }
            assert forall|i: int| 0 <= i < n.len() implies trim_seq(#[trigger] n[i]) == n[i] && n[i].len() > 0 by {
                if i < prev.len() {
                    assert(n[i] == prev[i]);
                }
            }
        }
    }
}

/// First occurrences of protocols: each once, and exactly those of the
/// input.
pub proof fn law_dedup_protocols(s: Seq<UpstreamProtocol>)
    ensures
        dedup_protocols_spec(s).no_duplicates(),
        forall|p: UpstreamProtocol| #[trigger] dedup_protocols_spec(s).contains(p) <==> s.contains(p),
    decreases s.len(),
{
    if s.len() > 0 {
        let d = s.drop_last();
        law_dedup_protocols(d);
        let prev = dedup_protocols_spec(d);
        assert forall|p: UpstreamProtocol| #[trigger] dedup_protocols_spec(s).contains(p) <==> s.contains(p) by {
            if s.contains(p) {
                let i = choose|i: int| 0 <= i < s.len() && s[i] == p;
                if i < s.len() - 1 {
                    assert(d[i] == p);
                    assert(d.contains(p));
                    assert(prev.contains(p));
                    if !prev.contains(s.last()) {
                        let k = choose|k: int| 0 <= k < prev.len() && prev[k] == p;
                        assert(prev.push(s.last())[k] == p);
                    }
                } else if !prev.contains(s.last()) {
                    assert(prev.push(s.last())[prev.len() as int] == p);
                }
            }
            if dedup_protocols_spec(s).contains(p) {
                if prev.contains(p) {
                    let i = choose|i: int| 0 <= i < d.len() && d[i] == p;
                    assert(s[i] == p);
                } else {
                    assert(s[s.len() - 1] == p);
                }
            }
        }
        if !prev.contains(s.last()) {
            let n = prev.push(s.last());
            assert forall|x: int, y: int| 0 <= x < n.len() && 0 <= y < n.len() && x != y implies n[x] != n[y] by {
                if x < prev.len() && y < prev.len() {
                } else if x < prev.len() {
                    assert(prev.contains(prev[x]));
                } else {
                    assert(prev.contains(prev[y]));
                }
            }
        }
    }
}

/// An upstream speaks at least one protocol, each once: the configured
/// ones in first-occurrence order, or the primary one when none is listed.
pub proof fn law_supported_protocols(u: UpstreamConfig)
    ensures
        u.supported_protocols_spec().len() > 0,
        u.supported_protocols_spec().no_duplicates(),
        u.protocols@.len() == 0 ==> u.supported_protocols_spec() == seq![u.protocol],
        u.protocols@.len() > 0 ==> forall|p: UpstreamProtocol|
            #[trigger] u.supported_protocols_spec().contains(p) <==> u.protocols@.contains(p),
{
    if u.protocols@.len() > 0 {
        law_dedup_protocols(u.protocols@);
        assert(u.protocols@.contains(u.protocols@[0]));
        assert(u.supported_protocols_spec().contains(u.protocols@[0]));
    }
}

/// The route models, and the available keys, hold each value once, trimmed
/// and non-blank; every premium route model is a route model.
pub proof fn law_route_models_and_keys(u: UpstreamConfig)
    ensures
        u.route_models_spec().no_duplicates(),
        forall|i: int|
            0 <= i < u.route_models_spec().len() ==> trim_seq(#[trigger] u.route_models_spec()[i])
                == u.route_models_spec()[i] && u.route_models_spec()[i].len() > 0,
        u.available_keys_spec().no_duplicates(),
        forall|i: int|
            0 <= i < u.available_keys_spec().len() ==> trim_seq(#[trigger] u.available_keys_spec()[i])
                == u.available_keys_spec()[i] && u.available_keys_spec()[i].len() > 0,
        forall|e: Seq<char>|
            #[trigger] normalized_list(views(u.premium_models@)).contains(e) ==> u.route_models_spec().contains(e),
{
    let sp = views(u.supported_models@) + views(u.premium_models@);
    let pm = views(u.premium_models@);
    law_normalized_list(sp);
    law_normalized_list(seq![u.api_key@] + views(u.api_keys@));
    law_normalized_list(pm);
    assert forall|e: Seq<char>| #[trigger] normalized_list(pm).contains(e) implies u.route_models_spec().contains(e) by {
        let i = choose|i: int| 0 <= i < pm.len() && trim_seq(#[trigger] pm[i]) == e;
        assert(sp[views(u.supported_models@).len() + i] == pm[i]);
    }
}

/// A request is routed under nothing when blank; with no route models,
/// under its trimmed spelling unless it is a subagent variant; otherwise
/// under one of the route models, which without case folding is the
/// trimmed request itself or its subagent base.
pub proof fn law_resolved_model_name(u: UpstreamConfig, model: Seq<char>, ci: bool)
    ensures
        trim_seq(model).len() == 0 ==> canonical_route_spec(u.route_models_spec(), model, ci) is None,
        u.route_models_spec().len() == 0 ==> canonical_route_spec(u.route_models_spec(), model, ci) == (if trim_seq(
            model,
        ).len() > 0 && suffix_base(trim_seq(model), subagent_suffix()) is None {
            Some(trim_seq(model))
        } else {
            None
        }),
        forall|s: Seq<char>|
            #[trigger] canonical_route_spec(u.route_models_spec(), model, ci) == Some(s) && u.route_models_spec().len()
                > 0 ==> u.route_models_spec().contains(s) && (!ci ==> s == trim_seq(model) || Some(s) == suffix_base(
                trim_seq(model),
                subagent_suffix(),
            )),
{
    let rm = u.route_models_spec();
    let m = trim_seq(model);
    law_route_models_and_keys(u);
    lemma_first_equiv_bounds(rm, m, ci);
    crate::text::lemma_trim_idempotent(model);
    if let Some(b) = suffix_base(m, subagent_suffix()) {
        lemma_first_equiv_bounds(rm, b, true);
        lemma_first_eq_bounds(rm, b);
    }
}

/// The matching keys are held once each; each is a current key, non-blank,
/// and the trimmed key of an entry whose models match.
pub proof fn lemma_keys_matching(kms: Seq<KeyModelsView>, m: Seq<char>, ci: bool, current: Seq<Seq<char>>)
    ensures
        keys_matching(kms, m, ci, current).no_duplicates(),
        forall|k: Seq<char>|
            #[trigger] keys_matching(kms, m, ci, current).contains(k) ==> current.contains(k) && k.len() > 0
                && exists|i: int| 0 <= i < kms.len() && trim_seq(#[trigger] kms[i].0) == k && models_match(kms[i].1, m, ci),
    decreases kms.len(),
{
    if kms.len() > 0 {
        let d = kms.drop_last();
        lemma_keys_matching(d, m, ci, current);
        let prev = keys_matching(d, m, ci, current);
        let k = trim_seq(kms.last().0);
        assert forall|x: Seq<char>| #[trigger] keys_matching(kms, m, ci, current).contains(x) implies current.contains(x)
            && x.len() > 0 && exists|i: int| 0 <= i < kms.len() && trim_seq(#[trigger] kms[i].0) == x && models_match(
            kms[i].1,
            m,
            ci,
        ) by {
            if prev.contains(x) {
                let i = choose|i: int| 0 <= i < d.len() && trim_seq(#[trigger] d[i].0) == x && models_match(d[i].1, m, ci);
                assert(kms[i] == d[i]);
            } else {
                assert(x == k);
                assert(kms[kms.len() - 1] == kms.last());
            }
        }
        if models_match(kms.last().1, m, ci) && k.len() > 0 && current.contains(k) && !prev.contains(k) {
            let n = prev.push(k);
            assert forall|a: int, b: int| 0 <= a < n.len() && 0 <= b < n.len() && a != b implies n[a] != n[b] by {
                if a < prev.len() && b < prev.len() {
                } else if a < prev.len() {
                    assert(prev.contains(prev[a]));
                } else {
                    assert(prev.contains(prev[b]));
                }
            }
        }
    }
}

/// Without per-key model lists every available key serves every model;
/// with them, a blank request gets no key, and otherwise each key is held
/// once, is available, and is the key of a list whose models match; there
/// is no falling back to all keys.
pub proof fn law_keys_for_model(u: UpstreamConfig, model: Seq<char>, ci: bool)
    ensures
        u.api_key_models@.len() == 0 ==> u.keys_for_model_spec(model, ci) == u.available_keys_spec(),
        u.api_key_models@.len() > 0 && trim_seq(model).len() == 0 ==> u.keys_for_model_spec(model, ci).len() == 0,
        u.keys_for_model_spec(model, ci).no_duplicates(),
        u.api_key_models@.len() > 0 ==> forall|k: Seq<char>|
            #[trigger] u.keys_for_model_spec(model, ci).contains(k) ==> u.available_keys_spec().contains(k)
                && exists|i: int|
                0 <= i < u.api_key_models@.len() && trim_seq(#[trigger] key_models_view(u.api_key_models@)[i].0) == k
                    && models_match(key_models_view(u.api_key_models@)[i].1, trim_seq(model), ci),
{
    law_route_models_and_keys(u);
    lemma_keys_matching(key_models_view(u.api_key_models@), trim_seq(model), ci, u.available_keys_spec());
    if u.api_key_models@.len() > 0 {
        assert(key_models_view(u.api_key_models@).len() == u.api_key_models@.len());
    }
}

impl UpstreamConfig {
    /// Supported and premium models, normalized.
    pub open spec fn route_models_spec(&self) -> Seq<Seq<char>> {
        normalized_list(views(self.supported_models@) + views(self.premium_models@))
    }

    /// The primary key followed by the extra keys, normalized.
    pub open spec fn available_keys_spec(&self) -> Seq<Seq<char>> {
        normalized_list(seq![self.api_key@] + views(self.api_keys@))
    }

    /// The configured protocols (the primary one when none), first occurrences.
    pub open spec fn supported_protocols_spec(&self) -> Seq<UpstreamProtocol> {
        if self.protocols@.len() == 0 {
            seq![self.protocol]
        } else {
            dedup_protocols_spec(self.protocols@)
        }
    }

    /// The keys a request for `model` may use.
    pub open spec fn keys_for_model_spec(&self, model: Seq<char>, ci: bool) -> Seq<Seq<char>> {
        let m = trim_seq(model);
        if self.api_key_models@.len() == 0 {
            self.available_keys_spec()
        } else if m.len() == 0 {
            Seq::empty()
        } else {
            keys_matching(key_models_view(self.api_key_models@), m, ci, self.available_keys_spec())
        }
    }

    /// Whether `model` (with the matching switch) is a premium request.
    pub open spec fn is_premium_spec(&self, model: Seq<char>, ci: bool) -> bool {
        let m = trim_seq(model);
        &&& self.premium_models@.len() > 0
        &&& m.len() > 0
        &&& exists|i: int|
            0 <= i < self.premium_models@.len() && premium_match(
                #[trigger] self.premium_models@[i]@,
                m,
                ci,
            )
    }

    pub fn supported_protocols(&self) -> (r: Vec<UpstreamProtocol>)
        ensures
            r@ == self.supported_protocols_spec(),
    {
        if self.protocols.len() == 0 {
            let v = vec![self.protocol];
            assert(dedup_protocols_spec(v@) =~= seq![self.protocol]) by {
                assert(v@ =~= seq![self.protocol]);
                assert(v@.drop_last() =~= Seq::<UpstreamProtocol>::empty());
                assert(dedup_protocols_spec(v@.drop_last()) =~= Seq::<UpstreamProtocol>::empty());
                assert(!Seq::<UpstreamProtocol>::empty().contains(self.protocol));
            }
            dedup_protocols(&v)
        } else {
            dedup_protocols(&self.protocols)
        }
    }

    pub fn supports_protocol(&self, protocol: UpstreamProtocol) -> (r: bool)
        ensures
            r == self.supported_protocols_spec().contains(protocol),
    {
        contains_protocol(&self.supported_protocols(), protocol)
    }

    /// Supported then premium models, trimmed, non-blank, first occurrences.
    pub fn route_models(&self) -> (r: Vec<String>)
        ensures
            views(r@) == self.route_models_spec(),
    {
        normalized_string_list(&concat_strings(&self.supported_models, &self.premium_models))
    }

    /// Premium models, trimmed, non-blank, first occurrences.
    pub fn premium_route_models(&self) -> (r: Vec<String>)
        ensures
            views(r@) == normalized_list(views(self.premium_models@)),
    {
        normalized_string_list(&self.premium_models)
    }

    /// The request-quota window in seconds (at least one hour).
    pub fn request_quota_window_seconds(&self) -> (r: u64)
        ensures
            r == (if self.request_quota_window_hours == 0 {
                1
            } else {
                self.request_quota_window_hours
            }) * 3600,
    {
        let hours: u64 = if self.request_quota_window_hours == 0 {
            1
        } else {
            self.request_quota_window_hours as u64
        };
        assert(hours * 3600 <= u64::MAX) by (nonlinear_arith)
            requires
                hours <= 0xffff_ffff,
        ;
        hours * 3600
    }

    /// The primary key followed by the extra keys, trimmed, first occurrences.
    pub fn available_keys(&self) -> (r: Vec<String>)
        ensures
            views(r@) == self.available_keys_spec(),
    {
        let mut all: Vec<String> = Vec::new();
        all.push(self.api_key.clone());
        let all = concat_strings(&all, &self.api_keys);
        assert(views(seq![self.api_key]) =~= seq![self.api_key@]);
        normalized_string_list(&all)
    }

    fn canonical_route_model(&self, model: &str, case_insensitive: bool) -> (r: Option<String>)
        ensures
            match canonical_route_spec(self.route_models_spec(), model@, case_insensitive) {
                Some(s) => r matches Some(x) && x@ == s,
                None => r is None,
            },
    {
        let mc = trimmed_chars(model);
        if mc.len() == 0 {
            return None;
        }
        let m = string_from_chars(&mc);
        let routes = self.route_models();
        if routes.len() == 0 {
            return match codex_subagent_base_model(m.as_str()) {
                None => Some(m),
                Some(_) => None,
            };
        }
        match find_equivalent_stored(routes.as_slice(), m.as_str(), case_insensitive) {
            Some(c) => {
                proof {
                    lemma_first_equiv_bounds(views(routes@), m@, case_insensitive);
                }
                return Some(owned(c));
            },
            None => {},
        }
        match codex_subagent_base_model(m.as_str()) {
            Some(base) => {
                if case_insensitive {
                    match find_equivalent_stored(routes.as_slice(), base.as_str(), true) {
                        Some(c) => {
                            proof {
                                lemma_first_equiv_bounds(views(routes@), base@, true);
                            }
                            Some(owned(c))
                        },
                        None => None,
                    }
                } else {
                    match index_of_exact(&routes, base.as_str()) {
                        Some(j) => {
                            proof {
                                lemma_first_eq_bounds(views(routes@), base@);
                            }
                            Some(routes[j].clone())
                        },
                        None => None,
                    }
                }
            },
            None => None,
        }
    }
}

impl UpstreamConfig {
    pub fn supports_model(&self, model: &str) -> (r: bool)
        ensures
            r == canonical_route_spec(self.route_models_spec(), model@, true) is Some,
    {
        self.supports_model_with(model, true)
    }

    pub fn supports_model_with(&self, model: &str, case_insensitive: bool) -> (r: bool)
        ensures
            r == canonical_route_spec(self.route_models_spec(), model@, case_insensitive) is Some,
    {
        self.canonical_route_model(model, case_insensitive).is_some()
    }

    /// The upstream's stored spelling for a request of `model`
    /// (case-insensitive canonical matching).
    pub fn resolved_model_name(&self, model: &str) -> (r: Option<String>)
        ensures
            match canonical_route_spec(self.route_models_spec(), model@, true) {
                Some(s) => r matches Some(x) && x@ == s,
                None => r is None,
            },
    {
        self.resolved_model_name_with(model, true)
    }

    /// The upstream's stored spelling for a request of `model`: the first
    /// route model matching it, else the first matching its subagent base;
    /// with no route models at all, the trimmed request itself unless it is a
    /// subagent variant.
    pub fn resolved_model_name_with(&self, model: &str, case_insensitive: bool) -> (r: Option<
        String,
    >)
        ensures
            match canonical_route_spec(self.route_models_spec(), model@, case_insensitive) {
                Some(s) => r matches Some(x) && x@ == s,
                None => r is None,
            },
    {
        self.canonical_route_model(model, case_insensitive)
    }

    pub fn is_premium_model_request(&self, model: &str) -> (r: bool)
        ensures
            r == self.is_premium_spec(model@, true),
    {
        self.is_premium_model_request_with(model, true)
    }

    /// Whether a premium entry names `model` or its subagent base.
    pub fn is_premium_model_request_with(&self, model: &str, case_insensitive: bool) -> (r: bool)
        ensures
            r == self.is_premium_spec(model@, case_insensitive),
    {
        if self.premium_models.len() == 0 {
            return false;
        }
        let mc = trimmed_chars(model);
        if mc.len() == 0 {
            return false;
        }
        let m = string_from_chars(&mc);
        let base = codex_subagent_base_model(m.as_str());
        for i in 0..self.premium_models.len()
            invariant
                m@ == trim_seq(model@),
                mc@ == m@,
                m@.len() > 0,
                match base {
                    Some(b) => suffix_base(m@, subagent_suffix()) == Some(b@),
                    None => suffix_base(m@, subagent_suffix()) is None,
                },
                forall|j: int|
                    0 <= j < i ==> !premium_match(
                        #[trigger] self.premium_models@[j]@,
                        m@,
                        case_insensitive,
                    ),
        {
            let p = trimmed(self.premium_models[i].as_str());
            proof {
                crate::text::lemma_trim_idempotent(self.premium_models@[i as int]@);
            }
            let hit = if case_insensitive {
                models_equivalent_with(p.as_str(), m.as_str(), true) || match &base {
                    Some(b) => models_equivalent_with(p.as_str(), b.as_str(), true),
                    None => false,
                }
            } else {
                chars_eq(&chars_of(p.as_str()), &mc) || match &base {
                    Some(b) => chars_eq(&chars_of(p.as_str()), &chars_of(b.as_str())),
                    None => false,
                }
            };
            if hit {
                assert(premium_match(self.premium_models@[i as int]@, m@, case_insensitive));
                return true;
            }
        }
        false
    }

    /// The usable keys: all of them without per-key model lists, else the
    /// current keys of the mappings that serve `model`.
    pub fn keys_for_model(&self, model: &str) -> (r: Vec<String>)
        ensures
            views(r@) == self.keys_for_model_spec(model@, true),
    {
        self.keys_for_model_with(model, true)
    }

    pub fn keys_for_model_with(&self, model: &str, case_insensitive: bool) -> (r: Vec<String>)
        ensures
            views(r@) == self.keys_for_model_spec(model@, case_insensitive),
    {
        let mc = trimmed_chars(model);
        if self.api_key_models.len() == 0 {
            return self.available_keys();
        }
        if mc.len() == 0 {
            let r: Vec<String> = Vec::new();
            assert(views(r@) =~= Seq::<Seq<char>>::empty());
            return r;
        }
        let m = string_from_chars(&mc);
        let base = codex_subagent_base_model(m.as_str());
        let current = self.available_keys();
        let ghost kms = key_models_view(self.api_key_models@);
        let mut keys: Vec<String> = Vec::new();
        assert(views(keys@) =~= Seq::<Seq<char>>::empty());
        for i in 0..self.api_key_models.len()
            invariant
                kms == key_models_view(self.api_key_models@),
                m@ == trim_seq(model@),
                views(current@) == self.available_keys_spec(),
                match base {
                    Some(b) => suffix_base(m@, subagent_suffix()) == Some(b@),
                    None => suffix_base(m@, subagent_suffix()) is None,
                },
                views(keys@) == keys_matching(
                    kms.take(i as int),
                    m@,
                    case_insensitive,
                    views(current@),
                ),
        {
            assert(kms.take(i + 1).drop_last() == kms.take(i as int));
            let mapping = &self.api_key_models[i];
            assert(kms.take(i + 1).last() == (mapping.api_key@, views(mapping.supported_models@)));
            let matches = mapping_serves(&mapping.supported_models, &m, &base, case_insensitive);
            if matches {
                let key = trimmed_chars(mapping.api_key.as_str());
                if key.len() > 0 && contains_text(&current, &key) && !contains_text(&keys, &key) {
                    let s = string_from_chars(&key);
                    proof {
                        lemma_views_push(keys@, s);
                    }
                    keys.push(s);
                }
            }
        }
        assert(kms.take(self.api_key_models.len() as int) == kms);
        keys
    }
}

/// Whether the model list `models` serves the trimmed request `m`.
fn mapping_serves(models: &Vec<String>, m: &String, base: &Option<String>, case_insensitive: bool) -> (r:
    bool)
    requires
        match base {
            Some(b) => suffix_base(m@, subagent_suffix()) == Some(b@),
            None => suffix_base(m@, subagent_suffix()) is None,
        },
    ensures
        r == models_match(views(models@), m@, case_insensitive),
{
    let ghost mv = views(models@);
    let mc = chars_of(m.as_str());
    for i in 0..models.len()
        invariant
            mv == views(models@),
            mc@ == m@,
            match base {
                Some(b) => suffix_base(m@, subagent_suffix()) == Some(b@),
                None => suffix_base(m@, subagent_suffix()) is None,
            },
            forall|j: int|
                0 <= j < i ==> !(if case_insensitive {
                    equivalent_with(#[trigger] mv[j], m@, true) || (suffix_base(
                        m@,
                        subagent_suffix(),
                    ) matches Some(b) && equivalent_with(mv[j], b, true))
                } else {
                    trim_seq(mv[j]) == m@
                }),
    {
        let candidate = models[i].as_str();
        assert(mv[i as int] == candidate@);
        let hit = if case_insensitive {
            models_equivalent_with(candidate, m.as_str(), true) || match base {
                Some(b) => models_equivalent_with(candidate, b.as_str(), true),
                None => false,
            }
        } else {
            chars_eq(&trimmed_chars(candidate), &mc)
        };
        if hit {
            return true;
        }
    }
    false
}

/// A context entry as plain values: (slug, limit, reserve, max output, group).
pub type ContextView = (Seq<char>, u32, u32, u32, Seq<char>);

pub open spec fn contexts_view(v: Seq<ModelContextConfig>) -> Seq<ContextView> {
    v.map_values(
        |c: ModelContextConfig|
            (c.slug@, c.context_limit, c.output_reserve, c.max_output_tokens, c.context_group@),
    )
}

/// The output reserve kept for a window of `limit` (at least 2) tokens: the
/// default when unset, capped at `limit - 1`.
pub open spec fn clamp_reserve(limit: u32, reserve: u32) -> u32 {
    let r = if reserve == 0 {
        DEFAULT_MODEL_CONTEXT_OUTPUT_RESERVE
    } else {
        reserve
    };
    let cap: u32 = if limit >= 2 {
        (limit - 1) as u32
    } else {
        1
    };
    if r < cap {
        r
    } else {
        cap
    }
}

pub open spec fn has_slug(s: Seq<ContextView>, slug: Seq<char>) -> bool {
    exists|k: int| 0 <= k < s.len() && (#[trigger] s[k]).0 == slug
}

/// Context entries with trimmed slugs (blank dropped, first occurrence of
/// each slug kept), limits of at least 2, reserves clamped, groups trimmed.
pub open spec fn normalized_contexts(s: Seq<ContextView>) -> Seq<ContextView>
    decreases s.len(),
{
    if s.len() == 0 {
        Seq::empty()
    } else {
        let prev = normalized_contexts(s.drop_last());
        let c = s.last();
        let slug = trim_seq(c.0);
        if slug.len() == 0 || has_slug(prev, slug) {
            prev
        } else {
            let limit: u32 = if c.1 < 2 {
                2
            } else {
                c.1
            };
            prev.push((slug, limit, clamp_reserve(limit, c.2), c.3, trim_seq(c.4)))
        }
    }
}

/// Stored context entries have trimmed, non-blank, distinct slugs, trimmed
/// groups, windows of at least 2 tokens and an output reserve of at least
/// one token below the window.
pub proof fn law_normalized_contexts(s: Seq<ContextView>)
    ensures
        forall|i: int|
            0 <= i < normalized_contexts(s).len() ==> {
                let e = #[trigger] normalized_contexts(s)[i];
                &&& trim_seq(e.0) == e.0 && e.0.len() > 0
                &&& trim_seq(e.4) == e.4
                &&& e.1 >= 2
                &&& 1 <= e.2 < e.1
            },
        forall|i: int, j: int|
            0 <= i < normalized_contexts(s).len() && 0 <= j < normalized_contexts(s).len() && i != j
                ==> (#[trigger] normalized_contexts(s)[i]).0 != (#[trigger] normalized_contexts(s)[j]).0,
    decreases s.len(),
{
    if s.len() > 0 {
        law_normalized_contexts(s.drop_last());
        let prev = normalized_contexts(s.drop_last());
        let c = s.last();
        let slug = trim_seq(c.0);
        crate::text::lemma_trim_idempotent(c.0);
        crate::text::lemma_trim_idempotent(c.4);
        if !(slug.len() == 0 || has_slug(prev, slug)) {
            let n = normalized_contexts(s);
            assert forall|i: int| 0 <= i < n.len() implies {
                let e = #[trigger] n[i];
                &&& trim_seq(e.0) == e.0 && e.0.len() > 0
                &&& trim_seq(e.4) == e.4
                &&& e.1 >= 2
                &&& 1 <= e.2 < e.1
            } by {
                if i < prev.len() {
                    assert(n[i] == prev[i]);
                }
            }
            assert forall|i: int, j: int| 0 <= i < n.len() && 0 <= j < n.len() && i != j implies (#[trigger] n[i]).0
                != (#[trigger] n[j]).0 by {
                if i < prev.len() && j < prev.len() {
                    assert(n[i] == prev[i] && n[j] == prev[j]);
                } else if i < prev.len() {
                    assert(n[i] == prev[i]);
                } else {
                    assert(n[j] == prev[j]);
                }
            }
        }
    }
}

/// A stored default context has a window of at least 2 tokens, an output
/// reserve of at least one token below it, and a trimmed group.
pub proof fn law_normalized_default(d: Option<DefaultContextView>)
    ensures
        normalized_default(d) matches Some(x) ==> x.0 >= 2 && 1 <= x.1 < x.0 && trim_seq(x.3) == x.3,
{
    if let Some(c) = d {
        crate::text::lemma_trim_idempotent(c.3);
    }
}

/// A default context as plain values: (limit, reserve, max output, group).
pub type DefaultContextView = (u32, u32, u32, Seq<char>);

pub open spec fn default_view(d: Option<DefaultModelContextConfig>) -> Option<DefaultContextView> {
    match d {
        Some(c) => Some((c.context_limit, c.output_reserve, c.max_output_tokens, c.context_group@)),
        None => None,
    }
}

/// The stored default context: dropped when its limit is zero, otherwise
/// clamped like an explicit entry.
pub open spec fn normalized_default(d: Option<DefaultContextView>) -> Option<DefaultContextView> {
    match d {
        None => None,
        Some(c) => if c.0 == 0 {
            None
        } else {
            let limit: u32 = if c.0 < 2 {
                2
            } else {
                c.0
            };
            Some((limit, clamp_reserve(limit, c.1), c.2, trim_seq(c.3)))
        },
    }
}

fn clamp_reserve_exec(limit: u32, reserve: u32) -> (r: u32)
    requires
        limit >= 2,
    ensures
        r == clamp_reserve(limit, reserve),
{
    let r = if reserve == 0 {
        DEFAULT_MODEL_CONTEXT_OUTPUT_RESERVE
    } else {
        reserve
    };
    let cap = if limit - 1 > 1 {
        limit - 1
    } else {
        1
    };
    if r < cap {
        r
    } else {
        cap
    }
}

fn has_slug_exec(v: &Vec<ModelContextConfig>, slug: &Vec<char>) -> (r: bool)
    ensures
        r == has_slug(contexts_view(v@), slug@),
{
    let ghost cv = contexts_view(v@);
    for i in 0..v.len()
        invariant
            cv == contexts_view(v@),
            forall|j: int| 0 <= j < i ==> (#[trigger] cv[j]).0 != slug@,
    {
        if chars_eq(&chars_of(v[i].slug.as_str()), slug) {
            assert(cv[i as int].0 == slug@);
            return true;
        }
    }
    false
}

/// Normalizes a list of context entries for storage.
pub fn normalized_model_contexts(values: &Vec<ModelContextConfig>) -> (r: Vec<ModelContextConfig>)
    ensures
        contexts_view(r@) == normalized_contexts(contexts_view(values@)),
{
    let ghost vv = contexts_view(values@);
    let mut out: Vec<ModelContextConfig> = Vec::new();
    assert(contexts_view(out@) =~= Seq::<ContextView>::empty());
    for i in 0..values.len()
        invariant
            vv == contexts_view(values@),
            contexts_view(out@) == normalized_contexts(vv.take(i as int)),
    {
        assert(vv.take(i + 1).drop_last() == vv.take(i as int));
        let c = &values[i];
        assert(vv.take(i + 1).last() == (
            c.slug@,
            c.context_limit,
            c.output_reserve,
            c.max_output_tokens,
            c.context_group@,
        ));
        let slug = trimmed_chars(c.slug.as_str());
        if slug.len() > 0 && !has_slug_exec(&out, &slug) {
            let limit = if c.context_limit < 2 {
                2
            } else {
                c.context_limit
            };
            let entry = ModelContextConfig {
                slug: string_from_chars(&slug),
                context_limit: limit,
                output_reserve: clamp_reserve_exec(limit, c.output_reserve),
                max_output_tokens: c.max_output_tokens,
                context_group: trimmed(c.context_group.as_str()),
            };
            let ghost before = contexts_view(out@);
            out.push(entry);
            assert(contexts_view(out@) =~= before.push(
                (
                    entry.slug@,
                    entry.context_limit,
                    entry.output_reserve,
                    entry.max_output_tokens,
                    entry.context_group@,
                ),
            ));
        }
    }
    assert(vv.take(values.len() as int) == vv);
    out
}

/// Normalizes the default context for storage.
pub fn normalized_default_model_context(value: &Option<DefaultModelContextConfig>) -> (r: Option<
    DefaultModelContextConfig,
>)
    ensures
        default_view(r) == normalized_default(default_view(*value)),
{
    match value {
        None => None,
        Some(c) => {
            if c.context_limit == 0 {
                return None;
            }
            let limit = if c.context_limit < 2 {
                2
            } else {
                c.context_limit
            };
            Some(
                DefaultModelContextConfig {
                    context_limit: limit,
                    output_reserve: clamp_reserve_exec(limit, c.output_reserve),
                    max_output_tokens: c.max_output_tokens,
                    context_group: trimmed(c.context_group.as_str()),
                },
            )
        },
    }
}

/// Index of the first entry whose key is `k`.
pub open spec fn first_key_pos(es: Seq<KeyModelsView>, k: Seq<char>) -> Option<int>
    decreases es.len(),
{
    if es.len() == 0 {
        None
    } else {
        match first_key_pos(es.drop_last(), k) {
            Some(i) => Some(i),
            None => if es.last().0 == k {
                Some(es.len() - 1)
            } else {
                None
            },
        }
    }
}

pub proof fn lemma_first_key_pos(es: Seq<KeyModelsView>, k: Seq<char>)
    ensures
        first_key_pos(es, k) matches Some(i) ==> 0 <= i < es.len() && es[i].0 == k,
        first_key_pos(es, k) is None ==> forall|j: int| 0 <= j < es.len() ==> (#[trigger] es[j]).0 != k,
    decreases es.len(),
{
    if es.len() > 0 {
        lemma_first_key_pos(es.drop_last(), k);
        assert forall|j: int| 0 <= j < es.len() - 1 implies (#[trigger] es[j]).0 == es.drop_last()[j].0 by {}
    }
}

/// Per-key model lists restricted to current keys: keys trimmed, entries of
/// the same key merged (first position kept), model lists normalized.
pub open spec fn merge_key_models(values: Seq<KeyModelsView>, current: Seq<Seq<char>>) -> Seq<
    KeyModelsView,
>
    decreases values.len(),
{
    if values.len() == 0 {
        Seq::empty()
    } else {
        let prev = merge_key_models(values.drop_last(), current);
        let v = values.last();
        let k = trim_seq(v.0);
        if k.len() == 0 || !current.contains(k) {
            prev
        } else {
            let models = normalized_list(v.1);
            match first_key_pos(prev, k) {
                Some(p) => prev.update(p, (k, normalized_list(prev[p].1 + models))),
                None => prev.push((k, models)),
            }
        }
    }
}

/// `es` followed by an empty entry for every current key it lacks.
pub open spec fn add_missing_keys(es: Seq<KeyModelsView>, current: Seq<Seq<char>>) -> Seq<
    KeyModelsView,
>
    decreases current.len(),
{
    if current.len() == 0 {
        es
    } else {
        let prev = add_missing_keys(es, current.drop_last());
        let k = current.last();
        if first_key_pos(es, k) is Some {
            prev
        } else {
            prev.push((k, Seq::empty()))
        }
    }
}

/// Every model of every entry, in order.
pub open spec fn flatten_models(es: Seq<KeyModelsView>) -> Seq<Seq<char>>
    decreases es.len(),
{
    if es.len() == 0 {
        Seq::empty()
    } else {
        flatten_models(es.drop_last()) + es.last().1
    }
}

fn key_position(es: &Vec<ApiKeyModelConfig>, k: &Vec<char>) -> (r: Option<usize>)
    ensures
        match first_key_pos(key_models_view(es@), k@) {
            Some(i) => r matches Some(x) && x as int == i,
            None => r is None,
        },
{
    let ghost ev = key_models_view(es@);
    for i in 0..es.len()
        invariant
            ev == key_models_view(es@),
            first_key_pos(ev.take(i as int), k@) is None,
    {
        assert(ev.take(i + 1).drop_last() == ev.take(i as int));
        assert(ev.take(i + 1).last().0 == es@[i as int].api_key@);
        if chars_eq(&chars_of(es[i].api_key.as_str()), k) {
            proof {
                lemma_first_key_pos_prefix(ev, k@, i + 1);
            }
            return Some(i);
        }
    }
    assert(ev.take(es.len() as int) == ev);
    None
}

pub proof fn lemma_first_key_pos_prefix(s: Seq<KeyModelsView>, k: Seq<char>, n: int)
    requires
        0 <= n <= s.len(),
        first_key_pos(s.take(n), k) is Some,
    ensures
        first_key_pos(s, k) == first_key_pos(s.take(n), k),
    decreases s.len() - n,
{
    if n < s.len() {
        assert(s.take(n + 1).drop_last() == s.take(n));
        lemma_first_key_pos_prefix(s, k, n + 1);
    } else {
        assert(s.take(n) == s);
    }
}

/// Merges per-key model lists against the current keys, then adds an empty
/// list for each current key without one.
pub fn normalized_api_key_models(values: &Vec<ApiKeyModelConfig>, current_keys: &Vec<String>) -> (r:
    Vec<ApiKeyModelConfig>)
    ensures
        key_models_view(r@) == add_missing_keys(
            merge_key_models(key_models_view(values@), views(current_keys@)),
            views(current_keys@),
        ),
{
    let ghost vv = key_models_view(values@);
    let ghost cur = views(current_keys@);
    let mut out: Vec<ApiKeyModelConfig> = Vec::new();
    assert(key_models_view(out@) =~= Seq::<KeyModelsView>::empty());
    for i in 0..values.len()
        invariant
            vv == key_models_view(values@),
            cur == views(current_keys@),
            key_models_view(out@) == merge_key_models(vv.take(i as int), cur),
    {
        assert(vv.take(i + 1).drop_last() == vv.take(i as int));
        let value = &values[i];
        assert(vv.take(i + 1).last() == (value.api_key@, views(value.supported_models@)));
        let key = trimmed_chars(value.api_key.as_str());
        if key.len() > 0 && contains_text(current_keys, &key) {
            let models = normalized_string_list(&value.supported_models);
            let ghost before = key_models_view(out@);
            match key_position(&out, &key) {
                Some(p) => {
                    proof {
                        lemma_first_key_pos(before, key@);
                    }
                    assert(before[p as int] == (
                        out@[p as int].api_key@,
                        views(out@[p as int].supported_models@),
                    ));
                    let merged = normalized_string_list(
                        &concat_strings(&out[p].supported_models, &models),
                    );
                    let entry = ApiKeyModelConfig {
                        api_key: string_from_chars(&key),
                        supported_models: merged,
                    };
                    out.set(p, entry);
                    assert(key_models_view(out@) =~= before.update(
                        p as int,
                        (entry.api_key@, views(entry.supported_models@)),
                    ));
                    assert(key_models_view(out@) == merge_key_models(vv.take(i + 1), cur));
                },
                None => {
                    let entry = ApiKeyModelConfig {
                        api_key: string_from_chars(&key),
                        supported_models: models,
                    };
                    out.push(entry);
                    assert(key_models_view(out@) =~= before.push(
                        (entry.api_key@, views(entry.supported_models@)),
                    ));
                    assert(key_models_view(out@) == merge_key_models(vv.take(i + 1), cur));
                },
            }
        }
    }
    assert(vv.take(values.len() as int) == vv);
    let ghost merged = key_models_view(out@);
    let mut merged_keys: Vec<String> = Vec::new();
    for i in 0..out.len()
        invariant
            merged == key_models_view(out@),
            views(merged_keys@) =~= merged.take(i as int).map_values(|e: KeyModelsView| e.0),
    {
        let ghost before = views(merged_keys@);
        let k = out[i].api_key.clone();
        proof {
            lemma_views_push(merged_keys@, k);
        }
        merged_keys.push(k);
        assert(merged.take(i + 1).map_values(|e: KeyModelsView| e.0) =~= merged.take(
            i as int,
        ).map_values(|e: KeyModelsView| e.0).push(merged[i as int].0));
    }
    assert(merged.take(out.len() as int) == merged);
    for j in 0..current_keys.len()
        invariant
            cur == views(current_keys@),
            views(merged_keys@) == merged.map_values(|e: KeyModelsView| e.0),
            key_models_view(out@) == add_missing_keys(merged, cur.take(j as int)),
    {
        assert(cur.take(j + 1).drop_last() == cur.take(j as int));
        assert(cur.take(j + 1).last() == current_keys@[j as int]@);
        let k = chars_of(current_keys[j].as_str());
        proof {
            lemma_first_key_pos(merged, k@);
            if views(merged_keys@).contains(k@) {
                let t = choose|t: int| 0 <= t < views(merged_keys@).len() && views(merged_keys@)[t] == k@;
                assert(merged[t].0 == k@);
            }
            if first_key_pos(merged, k@) is Some {
                let i = first_key_pos(merged, k@)->0;
                assert(views(merged_keys@)[i] == k@);
            }
        }
        if !contains_text(&merged_keys, &k) {
            let entry = ApiKeyModelConfig {
                api_key: current_keys[j].clone(),
                supported_models: Vec::new(),
            };
            assert(views(entry.supported_models@) =~= Seq::<Seq<char>>::empty());
            let ghost before = key_models_view(out@);
            out.push(entry);
            assert(key_models_view(out@) =~= before.push((entry.api_key@, Seq::empty())));
        } else {
            assert(first_key_pos(merged, k@) is Some);
        }
    }
    assert(cur.take(current_keys.len() as int) == cur);
    out
}

/// Every model of every per-key list, normalized.
pub fn derive_supported_models(key_models: &Vec<ApiKeyModelConfig>) -> (r: Vec<String>)
    ensures
        views(r@) == normalized_list(flatten_models(key_models_view(key_models@))),
{
    let ghost kv = key_models_view(key_models@);
    let mut all: Vec<String> = Vec::new();
    assert(views(all@) =~= Seq::<Seq<char>>::empty());
    for i in 0..key_models.len()
        invariant
            kv == key_models_view(key_models@),
            views(all@) == flatten_models(kv.take(i as int)),
    {
        assert(kv.take(i + 1).drop_last() == kv.take(i as int));
        assert(kv.take(i + 1).last().1 == views(key_models@[i as int].supported_models@));
        all = concat_strings(&all, &key_models[i].supported_models);
    }
    assert(kv.take(key_models.len() as int) == kv);
    normalized_string_list(&all)
}

/// A mapping with both names trimmed.
pub open spec fn trimmed_mappings(ms: Seq<(Seq<char>, Seq<char>)>) -> Seq<(Seq<char>, Seq<char>)> {
    ms.map_values(|m: (Seq<char>, Seq<char>)| (trim_seq(m.0), trim_seq(m.1)))
}

/// The stored continuation provider group: trimmed, absent when blank.
pub open spec fn normalized_group(g: Option<String>) -> Option<Seq<char>> {
    match g {
        Some(v) => if trim_seq(v@).len() == 0 {
            None
        } else {
            Some(trim_seq(v@))
        },
        None => None,
    }
}

pub open spec fn group_view(g: Option<String>) -> Option<Seq<char>> {
    match g {
        Some(v) => Some(v@),
        None => None,
    }
}

/// `new` is the stored form of `old` (see `normalize_for_storage`).
pub open spec fn stored_form(old: UpstreamConfig, new: UpstreamConfig) -> bool {
    &&& new.failure_count == 0
    &&& new.protocols@ == (if dedup_protocols_spec(old.protocols@).len() == 0 {
        seq![old.protocol]
    } else {
        dedup_protocols_spec(old.protocols@)
    })
    &&& new.protocol == new.protocols@[0]
    &&& new.remark@ == trim_seq(old.remark@)
    &&& group_view(new.continuation_provider_group) == normalized_group(old.continuation_provider_group)
    &&& new.api_key@ == trim_seq(old.api_key@)
    &&& views(new.api_keys@) == normalized_list(views(old.api_keys@))
    &&& old.api_key_models@.len() > 0 ==> key_models_view(new.api_key_models@) == add_missing_keys(
        merge_key_models(key_models_view(old.api_key_models@), new.available_keys_spec()),
        new.available_keys_spec(),
    ) && views(new.supported_models@) == normalized_list(
        flatten_models(key_models_view(new.api_key_models@)),
    )
    &&& old.api_key_models@.len() == 0 ==> new.api_key_models@.len() == 0 && views(
        new.supported_models@,
    ) == normalized_list(views(old.supported_models@))
    &&& views(new.premium_models@) == normalized_list(views(old.premium_models@))
    &&& crate::config::mappings_view(new.model_mappings@) == trimmed_mappings(
        crate::config::mappings_view(old.model_mappings@),
    )
    &&& contexts_view(new.model_contexts@) == normalized_contexts(contexts_view(old.model_contexts@))
    &&& default_view(new.default_model_context) == normalized_default(
        default_view(old.default_model_context),
    )
    &&& new.id == old.id
    &&& new.name == old.name
    &&& new.base_url == old.base_url
    &&& new.max_concurrency == old.max_concurrency
    &&& new.request_quota_window_hours == old.request_quota_window_hours
    &&& new.active == old.active
    &&& new.auto_managed == old.auto_managed
    &&& new.last_synced_at == old.last_synced_at
    &&& new.request_quota_requests == old.request_quota_requests
    &&& new.requests_per_minute == old.requests_per_minute
    &&& new.priority == old.priority
    &&& new.premium_only == old.premium_only
    &&& new.protect_premium_quota == old.protect_premium_quota
    &&& new.strip_nonstandard_chat_fields == old.strip_nonstandard_chat_fields
    &&& new.managed_source == old.managed_source
}

/// A stored configuration has no failures counted, at least one protocol,
/// each once, the first of them primary, a trimmed primary key, and extra
/// keys, supported models and premium models each held once, trimmed and
/// non-blank.
pub proof fn law_stored_form_shape(old: UpstreamConfig, new: UpstreamConfig)
    requires
        stored_form(old, new),
    ensures
        new.failure_count == 0,
        new.protocols@.len() > 0,
        new.protocols@.no_duplicates(),
        new.protocol == new.protocols@[0],
        trim_seq(new.api_key@) == new.api_key@,
        views(new.api_keys@).no_duplicates(),
        forall|i: int|
            0 <= i < new.api_keys@.len() ==> trim_seq(#[trigger] new.api_keys@[i]@) == new.api_keys@[i]@
                && new.api_keys@[i]@.len() > 0,
        views(new.supported_models@).no_duplicates(),
        forall|i: int|
            0 <= i < new.supported_models@.len() ==> trim_seq(#[trigger] new.supported_models@[i]@)
                == new.supported_models@[i]@ && new.supported_models@[i]@.len() > 0,
        views(new.premium_models@).no_duplicates(),
        forall|i: int|
            0 <= i < new.premium_models@.len() ==> trim_seq(#[trigger] new.premium_models@[i]@)
                == new.premium_models@[i]@ && new.premium_models@[i]@.len() > 0,
        old.api_key_models@.len() > 0 ==> {
            let kms = key_models_view(new.api_key_models@);
            &&& forall|i: int| 0 <= i < kms.len() ==> new.available_keys_spec().contains(#[trigger] kms[i].0)
            &&& forall|i: int, j: int| 0 <= i < kms.len() && 0 <= j < kms.len() && i != j ==> (#[trigger] kms[i]).0
                != (#[trigger] kms[j]).0
            &&& forall|k: Seq<char>|
                #[trigger] new.available_keys_spec().contains(k) ==> exists|i: int| 0 <= i < kms.len() && (#[trigger] kms[i]).0 == k
            &&& views(new.supported_models@) == normalized_list(flatten_models(kms))
        },
{
    if old.api_key_models@.len() > 0 {
        let keys = new.available_keys_spec();
        law_route_models_and_keys(new);
        let merged = merge_key_models(key_models_view(old.api_key_models@), keys);
        lemma_merge_stored(key_models_view(old.api_key_models@), keys);
        lemma_add_missing_stored(merged, keys, keys);
    }
    law_dedup_protocols(old.protocols@);
    crate::text::lemma_trim_idempotent(old.api_key@);
    law_normalized_list(views(old.api_keys@));
    law_normalized_list(views(old.premium_models@));
    law_normalized_list(views(old.supported_models@));
    law_normalized_list(flatten_models(key_models_view(new.api_key_models@)));
    assert forall|i: int| 0 <= i < new.api_keys@.len() implies trim_seq(#[trigger] new.api_keys@[i]@)
        == new.api_keys@[i]@ && new.api_keys@[i]@.len() > 0 by {
        assert(views(new.api_keys@)[i] == new.api_keys@[i]@);
    }
    assert forall|i: int| 0 <= i < new.supported_models@.len() implies trim_seq(#[trigger] new.supported_models@[i]@)
        == new.supported_models@[i]@ && new.supported_models@[i]@.len() > 0 by {
        assert(views(new.supported_models@)[i] == new.supported_models@[i]@);
    }
    assert forall|i: int| 0 <= i < new.premium_models@.len() implies trim_seq(#[trigger] new.premium_models@[i]@)
        == new.premium_models@[i]@ && new.premium_models@[i]@.len() > 0 by {
        assert(views(new.premium_models@)[i] == new.premium_models@[i]@);
    }
    if dedup_protocols_spec(old.protocols@).len() == 0 {
        assert(new.protocols@ == seq![old.protocol]);
    }
}

impl UpstreamConfig {
    /// Puts the configuration in its stored form: failure count reset;
    /// protocols deduplicated (the primary one when none) with the first as
    /// primary; remark, group, keys and models trimmed and deduplicated;
    /// per-key model lists (when configured) restricted to current keys and
    /// made the source of the supported models; mappings trimmed; context
    /// windows normalized.
    pub fn normalize_for_storage(&mut self)
        ensures
            stored_form(*old(self), *final(self)),
    {
        self.failure_count = 0;
        let protocols = dedup_protocols(&self.protocols);
        if protocols.len() == 0 {
            self.protocols = vec![self.protocol];
            assert(self.protocols@ =~= seq![self.protocol]);
        } else {
            self.protocols = protocols;
        }
        self.protocol = self.protocols[0];
        self.remark = trimmed(self.remark.as_str());
        let group = match &self.continuation_provider_group {
            Some(v) => {
                let t = trimmed_chars(v.as_str());
                if t.len() == 0 {
                    None
                } else {
                    Some(string_from_chars(&t))
                }
            },
            None => None,
        };
        self.continuation_provider_group = group;
        self.api_key = trimmed(self.api_key.as_str());
        self.api_keys = normalized_string_list(&self.api_keys);
        let current = self.available_keys();
        if self.api_key_models.len() > 0 {
            self.api_key_models = normalized_api_key_models(&self.api_key_models, &current);
            self.supported_models = derive_supported_models(&self.api_key_models);
        } else {
            self.supported_models = normalized_string_list(&self.supported_models);
        }
        self.premium_models = normalized_string_list(&self.premium_models);
        let mut mappings: Vec<UpstreamModelMapping> = Vec::new();
        let ghost mv = crate::config::mappings_view(self.model_mappings@);
        for i in 0..self.model_mappings.len()
            invariant
                mv == crate::config::mappings_view(self.model_mappings@),
                crate::config::mappings_view(mappings@) =~= trimmed_mappings(mv.take(i as int)),
        {
            let m = UpstreamModelMapping {
                upstream_model: trimmed(self.model_mappings[i].upstream_model.as_str()),
                downstream_model: trimmed(self.model_mappings[i].downstream_model.as_str()),
            };
            assert(mv[i as int] == (
                self.model_mappings@[i as int].upstream_model@,
                self.model_mappings@[i as int].downstream_model@,
            ));
            let ghost before = crate::config::mappings_view(mappings@);
            mappings.push(m);
            assert(crate::config::mappings_view(mappings@) =~= before.push(
                (m.upstream_model@, m.downstream_model@),
            ));
            assert(mv.take(i + 1) =~= mv.take(i as int).push(mv[i as int]));
        }
        assert(mv.take(mv.len() as int) == mv);
        self.model_mappings = mappings;
        self.model_contexts = normalized_model_contexts(&self.model_contexts);
        self.default_model_context = normalized_default_model_context(&self.default_model_context);
    }
}

/// Index of the first string of `v` equal to `t`.
pub fn index_of_exact(v: &Vec<String>, t: &str) -> (r: Option<usize>)
    ensures
        match first_eq(views(v@), t@) {
            Some(i) => r == Some(i as usize),
            None => r is None,
        },
{
    let ghost sv = views(v@);
    let tc = chars_of(t);
    for i in 0..v.len()
        invariant
            sv == views(v@),
            tc@ == t@,
            first_eq(sv.take(i as int), t@) is None,
    {
        assert(sv.take(i + 1).drop_last() == sv.take(i as int));
        assert(sv.take(i + 1).last() == v@[i as int]@);
        if chars_eq(&chars_of(v[i].as_str()), &tc) {
            proof {
                lemma_first_eq_prefix(sv, t@, i + 1);
            }
            return Some(i);
        }
    }
    assert(sv.take(v.len() as int) == sv);
    None
}


/// A list of distinct, trimmed, non-blank values.
pub open spec fn normal_list(s: Seq<Seq<char>>) -> bool {
    &&& s.no_duplicates()
    &&& forall|i: int| 0 <= i < s.len() ==> trim_seq(#[trigger] s[i]) == s[i] && s[i].len() > 0
}

/// Normalizing a list that is already normal changes nothing.
pub proof fn lemma_normalized_list_fixed(s: Seq<Seq<char>>)
    requires
        normal_list(s),
    ensures
        normalized_list(s) == s,
    decreases s.len(),
{
    if s.len() > 0 {
        let d = s.drop_last();
        assert forall|i: int| 0 <= i < d.len() implies trim_seq(#[trigger] d[i]) == d[i] && d[i].len() > 0 by {
            assert(d[i] == s[i]);
        }
        assert(d.no_duplicates()) by {
            assert forall|i: int, j: int| 0 <= i < d.len() && 0 <= j < d.len() && i != j implies d[i] != d[j] by {
                assert(d[i] == s[i] && d[j] == s[j]);
            }
        }
        lemma_normalized_list_fixed(d);
        assert(s[s.len() - 1] == s.last());
        if d.contains(s.last()) {
            let k = choose|k: int| 0 <= k < d.len() && d[k] == s.last();
            assert(s[k] == s[s.len() - 1]);
        }
        assert(d.push(s.last()) =~= s);
    }
}

/// The normalized form of any list is normal.
pub proof fn lemma_normalized_list_normal(s: Seq<Seq<char>>)
    ensures
        normal_list(normalized_list(s)),
{
    law_normalized_list(s);
}

/// Deduplicating protocols that hold each value once changes nothing.
pub proof fn lemma_dedup_protocols_fixed(s: Seq<UpstreamProtocol>)
    requires
        s.no_duplicates(),
    ensures
        dedup_protocols_spec(s) == s,
    decreases s.len(),
{
    if s.len() > 0 {
        let d = s.drop_last();
        assert(d.no_duplicates()) by {
            assert forall|i: int, j: int| 0 <= i < d.len() && 0 <= j < d.len() && i != j implies d[i] != d[j] by {
                assert(d[i] == s[i] && d[j] == s[j]);
            }
        }
        lemma_dedup_protocols_fixed(d);
        assert(s[s.len() - 1] == s.last());
        if d.contains(s.last()) {
            let k = choose|k: int| 0 <= k < d.len() && d[k] == s.last();
            assert(s[k] == s[s.len() - 1]);
        }
        assert(d.push(s.last()) =~= s);
    }
}

/// Context entries in their stored shape.
pub open spec fn contexts_stored(s: Seq<ContextView>) -> bool {
    &&& forall|i: int|
        0 <= i < s.len() ==> {
            let e = #[trigger] s[i];
            &&& trim_seq(e.0) == e.0 && e.0.len() > 0
            &&& trim_seq(e.4) == e.4
            &&& e.1 >= 2
            &&& 1 <= e.2 < e.1
        }
    &&& forall|i: int, j: int| 0 <= i < s.len() && 0 <= j < s.len() && i != j ==> (#[trigger] s[i]).0 != (#[trigger] s[j]).0
}

/// Normalizing context entries already in their stored shape changes nothing.
pub proof fn lemma_contexts_fixed(s: Seq<ContextView>)
    requires
        contexts_stored(s),
    ensures
        normalized_contexts(s) == s,
    decreases s.len(),
{
    if s.len() > 0 {
        let d = s.drop_last();
        assert forall|i: int| 0 <= i < d.len() implies d[i] == s[i] by {}
        assert(contexts_stored(d));
        lemma_contexts_fixed(d);
        let c = s.last();
        assert(s[s.len() - 1] == c);
        if has_slug(d, trim_seq(c.0)) {
            let k = choose|k: int| 0 <= k < d.len() && (#[trigger] d[k]).0 == trim_seq(c.0);
            assert(s[k].0 == s[s.len() - 1].0);
        }
        assert(clamp_reserve(c.1, c.2) == c.2);
        assert(d.push(c) =~= s);
    }
}


/// Per-key model lists in their stored shape: distinct keys, each among
/// `keys`, each list normal.
pub open spec fn key_models_stored(es: Seq<KeyModelsView>, keys: Seq<Seq<char>>) -> bool {
    &&& forall|i: int| 0 <= i < es.len() ==> keys.contains((#[trigger] es[i]).0) && normal_list(es[i].1)
    &&& forall|i: int, j: int| 0 <= i < es.len() && 0 <= j < es.len() && i != j ==> (#[trigger] es[i]).0 != (#[trigger] es[j]).0
}

proof fn lemma_merge_stored(v: Seq<KeyModelsView>, current: Seq<Seq<char>>)
    ensures
        key_models_stored(merge_key_models(v, current), current),
    decreases v.len(),
{
    if v.len() > 0 {
        lemma_merge_stored(v.drop_last(), current);
        let prev = merge_key_models(v.drop_last(), current);
        let k = trim_seq(v.last().0);
        if !(k.len() == 0 || !current.contains(k)) {
            let models = normalized_list(v.last().1);
            law_normalized_list(v.last().1);
            lemma_first_key_pos(prev, k);
            let n = merge_key_models(v, current);
            match first_key_pos(prev, k) {
                Some(p) => {
                    law_normalized_list(prev[p].1 + models);
                    assert forall|i: int| 0 <= i < n.len() implies current.contains((#[trigger] n[i]).0) && normal_list(n[i].1) by {
                        if i != p {
                            assert(n[i] == prev[i]);
                        }
                    }
                    assert forall|i: int, j: int| 0 <= i < n.len() && 0 <= j < n.len() && i != j implies (#[trigger] n[i]).0
                        != (#[trigger] n[j]).0 by {
                        assert(n[i].0 == prev[i].0 && n[j].0 == prev[j].0);
                    }
                },
                None => {
                    assert forall|i: int| 0 <= i < n.len() implies current.contains((#[trigger] n[i]).0) && normal_list(n[i].1) by {
                        if i < prev.len() {
                            assert(n[i] == prev[i]);
                        }
                    }
                    assert forall|i: int, j: int| 0 <= i < n.len() && 0 <= j < n.len() && i != j implies (#[trigger] n[i]).0
                        != (#[trigger] n[j]).0 by {
                        if i < prev.len() {
                            assert(n[i] == prev[i]);
                        }
                        if j < prev.len() {
                            assert(n[j] == prev[j]);
                        }
                    }
                },
            }
        }
    }
}

proof fn lemma_add_missing_stored(es: Seq<KeyModelsView>, current: Seq<Seq<char>>, keys: Seq<Seq<char>>)
    requires
        key_models_stored(es, keys),
        current.no_duplicates(),
        forall|k: Seq<char>| #[trigger] current.contains(k) ==> keys.contains(k),
    ensures
        key_models_stored(add_missing_keys(es, current), keys),
        forall|k: Seq<char>|
            #[trigger] current.contains(k) ==> exists|i: int|
                0 <= i < add_missing_keys(es, current).len() && (#[trigger] add_missing_keys(es, current)[i]).0 == k,
        add_missing_keys(es, current).len() >= es.len(),
        forall|i: int| 0 <= i < es.len() ==> #[trigger] add_missing_keys(es, current)[i] == es[i],
        forall|i: int|
            es.len() <= i < add_missing_keys(es, current).len() ==> current.contains(
                (#[trigger] add_missing_keys(es, current)[i]).0,
            ) && first_key_pos(es, add_missing_keys(es, current)[i].0) is None,
    decreases current.len(),
{
    if current.len() > 0 {
        let cd = current.drop_last();
        assert(cd.no_duplicates()) by {
            assert forall|i: int, j: int| 0 <= i < cd.len() && 0 <= j < cd.len() && i != j implies cd[i] != cd[j] by {
                assert(cd[i] == current[i] && cd[j] == current[j]);
            }
        }
        assert forall|k: Seq<char>| #[trigger] cd.contains(k) implies keys.contains(k) by {
            let x = choose|x: int| 0 <= x < cd.len() && cd[x] == k;
            assert(current[x] == k);
            assert(current.contains(k));
        }
        lemma_add_missing_stored(es, cd, keys);
        let prev = add_missing_keys(es, cd);
        let k = current.last();
        assert(current[current.len() - 1] == k);
        assert(current.contains(k));
        lemma_first_key_pos(es, k);
        let n = add_missing_keys(es, current);
        assert forall|q: Seq<char>| #[trigger] current.contains(q) implies exists|i: int|
            0 <= i < n.len() && (#[trigger] n[i]).0 == q by {
            let x = choose|x: int| 0 <= x < current.len() && current[x] == q;
            if x < current.len() - 1 {
                assert(cd[x] == q);
                assert(cd.contains(q));
                let i = choose|i: int| 0 <= i < prev.len() && (#[trigger] prev[i]).0 == q;
                assert(n[i] == prev[i]);
            } else if first_key_pos(es, k) is Some {
                let p = first_key_pos(es, k)->Some_0;
                assert(prev[p] == es[p]);
                assert(n[p] == prev[p]);
            } else {
                assert(n[prev.len() as int].0 == k);
            }
        }
        if first_key_pos(es, k) is None {
            assert(!cd.contains(k)) by {
                if cd.contains(k) {
                    let x = choose|x: int| 0 <= x < cd.len() && cd[x] == k;
                    assert(current[x] == current[current.len() - 1]);
                }
            }
            assert forall|i: int| 0 <= i < n.len() implies keys.contains((#[trigger] n[i]).0) && normal_list(n[i].1) by {
                if i < prev.len() {
                    assert(n[i] == prev[i]);
                } else {
                    assert(n[i].1 =~= Seq::<Seq<char>>::empty());
                }
            }
            assert forall|i: int, j: int| 0 <= i < n.len() && 0 <= j < n.len() && i != j implies (#[trigger] n[i]).0
                != (#[trigger] n[j]).0 by {
                if i < prev.len() && j < prev.len() {
                    assert(n[i] == prev[i] && n[j] == prev[j]);
                } else if i < prev.len() {
                    assert(n[i] == prev[i]);
                    if i < es.len() {
                        assert(prev[i] == es[i]);
                    }
                } else {
                    assert(n[j] == prev[j]);
                    if j < es.len() {
                        assert(prev[j] == es[j]);
                    }
                }
            }
            assert forall|i: int| es.len() <= i < n.len() implies current.contains((#[trigger] n[i]).0) && first_key_pos(
                es,
                n[i].0,
            ) is None by {
                if i < prev.len() {
                    assert(n[i] == prev[i]);
                    assert(cd.contains(prev[i].0));
                    let x = choose|x: int| 0 <= x < cd.len() && cd[x] == prev[i].0;
                    assert(current[x] == cd[x]);
                }
            }
        } else {
            assert forall|i: int| es.len() <= i < n.len() implies current.contains((#[trigger] n[i]).0) by {
                assert(cd.contains(prev[i].0));
                let x = choose|x: int| 0 <= x < cd.len() && cd[x] == prev[i].0;
                assert(current[x] == cd[x]);
            }
        }
    }
}

proof fn lemma_merge_fixed(es: Seq<KeyModelsView>, current: Seq<Seq<char>>)
    requires
        key_models_stored(es, current),
        forall|i: int| 0 <= i < current.len() ==> trim_seq(#[trigger] current[i]) == current[i] && current[i].len() > 0,
    ensures
        merge_key_models(es, current) == es,
    decreases es.len(),
{
    if es.len() > 0 {
        let d = es.drop_last();
        assert forall|i: int| 0 <= i < d.len() implies d[i] == es[i] by {}
        assert(key_models_stored(d, current));
        lemma_merge_fixed(d, current);
        let last = es.last();
        assert(es[es.len() - 1] == last);
        let x = choose|x: int| 0 <= x < current.len() && current[x] == last.0;
        assert(trim_seq(last.0) == last.0 && last.0.len() > 0);
        lemma_first_key_pos(d, last.0);
        if first_key_pos(d, last.0) is Some {
            let p = first_key_pos(d, last.0)->Some_0;
            assert(es[p].0 == es[es.len() - 1].0);
        }
        lemma_normalized_list_fixed(last.1);
        assert(d.push(last) =~= es);
    }
}

proof fn lemma_add_missing_fixed(es: Seq<KeyModelsView>, current: Seq<Seq<char>>)
    requires
        forall|k: Seq<char>| #[trigger] current.contains(k) ==> exists|i: int| 0 <= i < es.len() && (#[trigger] es[i]).0 == k,
    ensures
        add_missing_keys(es, current) == es,
    decreases current.len(),
{
    if current.len() > 0 {
        let cd = current.drop_last();
        assert forall|k: Seq<char>| #[trigger] cd.contains(k) implies exists|i: int| 0 <= i < es.len() && (#[trigger] es[i]).0 == k by {
            let x = choose|x: int| 0 <= x < cd.len() && cd[x] == k;
            assert(current[x] == k);
            assert(current.contains(k));
        }
        lemma_add_missing_fixed(es, cd);
        let k = current.last();
        assert(current[current.len() - 1] == k);
        assert(current.contains(k));
        lemma_first_key_pos(es, k);
    }
}

/// Putting a configuration in its stored form twice gives the same
/// configuration as doing it once.
pub proof fn law_normalize_idempotent(a: UpstreamConfig, b: UpstreamConfig, c: UpstreamConfig)
    requires
        stored_form(a, b),
        stored_form(b, c),
    ensures
        crate::upstream_patch::same_content(c, b),
{
    law_stored_form_shape(a, b);
    law_dedup_protocols(a.protocols@);
    lemma_dedup_protocols_fixed(b.protocols@);
    crate::text::lemma_trim_idempotent(a.remark@);
    crate::text::lemma_trim_idempotent(a.api_key@);
    lemma_normalized_list_normal(views(a.api_keys@));
    lemma_normalized_list_fixed(views(b.api_keys@));
    lemma_normalized_list_normal(views(a.premium_models@));
    lemma_normalized_list_fixed(views(b.premium_models@));
    if let Some(g) = a.continuation_provider_group {
        crate::text::lemma_trim_idempotent(g@);
    }
    let bm = crate::config::mappings_view(b.model_mappings@);
    let am = crate::config::mappings_view(a.model_mappings@);
    assert forall|i: int| 0 <= i < bm.len() implies #[trigger] trimmed_mappings(bm)[i] == bm[i] by {
        crate::text::lemma_trim_idempotent(am[i].0);
        crate::text::lemma_trim_idempotent(am[i].1);
    }
    assert(trimmed_mappings(bm) =~= bm);
    law_normalized_contexts(contexts_view(a.model_contexts@));
    lemma_contexts_fixed(contexts_view(b.model_contexts@));
    law_normalized_default(default_view(a.default_model_context));
    if let Some(d) = default_view(b.default_model_context) {
        crate::text::lemma_trim_idempotent(d.3);
    }
    assert(b.available_keys_spec() == c.available_keys_spec());
    let keys = b.available_keys_spec();
    law_route_models_and_keys(b);
    if a.api_key_models@.len() > 0 {
        if b.api_key_models@.len() > 0 {
            let merged = merge_key_models(key_models_view(a.api_key_models@), keys);
            lemma_merge_stored(key_models_view(a.api_key_models@), keys);
            lemma_add_missing_stored(merged, keys, keys);
            let bk = key_models_view(b.api_key_models@);
            assert(bk == add_missing_keys(merged, keys));
            assert(key_models_stored(bk, keys));
            lemma_merge_fixed(bk, keys);
            lemma_add_missing_fixed(bk, keys);
            assert(merge_key_models(bk, c.available_keys_spec()) == bk);
            assert(add_missing_keys(bk, c.available_keys_spec()) == bk);
            assert(key_models_view(c.api_key_models@) == bk);
        } else {
            assert(flatten_models(key_models_view(b.api_key_models@)) =~= Seq::<Seq<char>>::empty());
            assert(normalized_list(Seq::<Seq<char>>::empty()) =~= Seq::<Seq<char>>::empty());
        }
    } else {
        lemma_normalized_list_normal(views(a.supported_models@));
        lemma_normalized_list_fixed(views(b.supported_models@));
    }
    if b.api_key_models@.len() == 0 {
        assert(key_models_view(c.api_key_models@) =~= key_models_view(b.api_key_models@));
    }
}


/// Normalizing a prefix gives a prefix of the normalized list.
pub proof fn lemma_normalized_prefix(s: Seq<Seq<char>>, n: int)
    requires
        0 <= n <= s.len(),
    ensures
        normalized_list(s.take(n)).len() <= normalized_list(s).len(),
        forall|i: int|
            0 <= i < normalized_list(s.take(n)).len() ==> #[trigger] normalized_list(s.take(n))[i] == normalized_list(s)[i],
    decreases s.len(),
{
    if n == s.len() {
        assert(s.take(n) == s);
    } else {
        let d = s.drop_last();
        lemma_normalized_prefix(d, n);
        assert(d.take(n) == s.take(n));
    }
}

/// A non-blank primary key comes first among the available keys, trimmed.
pub proof fn law_primary_key_first(u: UpstreamConfig)
    ensures
        trim_seq(u.api_key@).len() > 0 ==> u.available_keys_spec().len() > 0 && u.available_keys_spec()[0] == trim_seq(
            u.api_key@,
        ),
{
    let s = seq![u.api_key@] + views(u.api_keys@);
    if trim_seq(u.api_key@).len() > 0 {
        lemma_normalized_prefix(s, 1);
        let t = s.take(1);
        assert(t.drop_last() =~= Seq::<Seq<char>>::empty());
        assert(normalized_list(t.drop_last()) =~= Seq::<Seq<char>>::empty());
        assert(t.last() == u.api_key@);
        assert(normalized_list(s.take(1)) =~= seq![trim_seq(u.api_key@)]);
        assert(normalized_list(s.take(1))[0] == normalized_list(s)[0]);
    }
}

} // verus!
