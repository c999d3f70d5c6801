//! Configuration checks on an upstream: concurrency, continuation group and
//! model mappings (non-empty, unique per upstream, no collision with the
//! upstream's own route models, not a global alias).
use vstd::prelude::*;
use crate::config::{mappings_view, UpstreamConfig, UpstreamModelMapping};
use crate::model_identity::{
    equivalent, models_equivalent, resolve_spec, ModelAliasRegistry,
};
use crate::text::{
    blank, canonical_chars, canonical_seq, chars_eq, chars_of, contains_text, decimal_seq,
    decimal_text, is_blank, owned, push_text, string_from_chars, trim_seq, trimmed_chars, utf8_len,
    views,
};

verus! {

pub type MappingView = (Seq<char>, Seq<char>);

/// The mappings as validated: both names trimmed, dropping entries whose
/// names are both blank.
pub open spec fn filtered_mappings(ms: Seq<MappingView>) -> Seq<MappingView>
    decreases ms.len(),
{
    if ms.len() == 0 {
        Seq::empty()
    } else {
        let prev = filtered_mappings(ms.drop_last());
        let up = trim_seq(ms.last().0);
        let down = trim_seq(ms.last().1);
        if up.len() == 0 && down.len() == 0 {
            prev
        } else {
            prev.push((up, down))
        }
    }
}

pub open spec fn msg_empty_upstream(i: int) -> Seq<char> {
    "model mapping at index "@ + decimal_seq(i as nat) + " has an empty upstream_model"@
}

pub open spec fn msg_empty_downstream(i: int, up: Seq<char>) -> Seq<char> {
    "model mapping at index "@ + decimal_seq(i as nat) + " for upstream model '"@ + up
        + "' has an empty downstream_model"@
}

pub open spec fn msg_upstream_twice(up: Seq<char>, j: int) -> Seq<char> {
    "upstream model '"@ + up + "' is mapped more than once (conflicts with index "@ + decimal_seq(
        j as nat,
    ) + " mapping)"@
}

pub open spec fn msg_downstream_twice(down: Seq<char>, j: int) -> Seq<char> {
    "downstream model '"@ + down + "' is used by more than one mapping (conflicts with index "@
        + decimal_seq(j as nat)
        + "); each downstream name must map to exactly one upstream model"@
}

pub open spec fn msg_collision(down: Seq<char>, i: int, r: Seq<char>) -> Seq<char> {
    "downstream model '"@ + down + "' (mapping index "@ + decimal_seq(i as nat)
        + ") collides with this upstream's own model '"@ + r
        + "'; pick a different downstream name or map '"@ + r + "' too"@
}

/// The first conflict of mapping `i` with mappings `0..n` (other than itself).
pub open spec fn pair_scan(fm: Seq<MappingView>, i: int, n: nat) -> Option<Seq<char>>
    decreases n,
{
    if n == 0 || n > fm.len() {
        None
    } else {
        match pair_scan(fm, i, (n - 1) as nat) {
            Some(e) => Some(e),
            None => {
                let j = n - 1;
                if j == i {
                    None
                } else if equivalent(fm[i].0, fm[j].0) {
                    Some(msg_upstream_twice(fm[i].0, j))
                } else if equivalent(fm[i].1, fm[j].1) {
                    Some(msg_downstream_twice(fm[i].1, j))
                } else {
                    None
                }
            },
        }
    }
}

/// The first problem of mapping `i` on its own or against the others.
pub open spec fn index_check(fm: Seq<MappingView>, i: int) -> Option<Seq<char>> {
    if fm[i].0.len() == 0 {
        Some(msg_empty_upstream(i))
    } else if fm[i].1.len() == 0 {
        Some(msg_empty_downstream(i, fm[i].0))
    } else {
        pair_scan(fm, i, fm.len())
    }
}

/// The first problem among mappings `0..n`.
pub open spec fn first_pass(fm: Seq<MappingView>, n: nat) -> Option<Seq<char>>
    decreases n,
{
    if n == 0 || n > fm.len() {
        None
    } else {
        match first_pass(fm, (n - 1) as nat) {
            Some(e) => Some(e),
            None => index_check(fm, n - 1),
        }
    }
}

/// The canonical keys of the mapped upstream models.
pub open spec fn occupied(fm: Seq<MappingView>) -> Seq<Seq<char>> {
    fm.map_values(|m: MappingView| canonical_seq(m.0))
}

/// Index of the first route model not occupied by a mapping whose canonical
/// form is `key`.
pub open spec fn first_collision(routes: Seq<Seq<char>>, occ: Seq<Seq<char>>, key: Seq<char>) -> Option<
    int,
>
    decreases routes.len(),
{
    if routes.len() == 0 {
        None
    } else {
        match first_collision(routes.drop_last(), occ, key) {
            Some(j) => Some(j),
            None => if !occ.contains(canonical_seq(routes.last())) && canonical_seq(routes.last())
                == key {
                Some(routes.len() - 1)
            } else {
                None
            },
        }
    }
}

/// The first downstream name (among `0..n`) colliding with a route model.
pub open spec fn second_pass(fm: Seq<MappingView>, routes: Seq<Seq<char>>, n: nat) -> Option<
    Seq<char>,
>
    decreases n,
{
    if n == 0 || n > fm.len() {
        None
    } else {
        match second_pass(fm, routes, (n - 1) as nat) {
            Some(e) => Some(e),
            None => match first_collision(routes, occupied(fm), canonical_seq(fm[n - 1].1)) {
                Some(j) => Some(msg_collision(fm[n - 1].1, n - 1, routes[j])),
                None => None,
            },
        }
    }
}

/// What validating the mappings of an upstream with `routes` reports.
pub open spec fn mapping_check(ms: Seq<MappingView>, routes: Seq<Seq<char>>) -> Option<Seq<char>> {
    let fm = filtered_mappings(ms);
    match first_pass(fm, fm.len()) {
        Some(e) => Some(e),
        None => second_pass(fm, routes, fm.len()),
    }
}

/// `char::is_control`: the general category `Cc`.
pub open spec fn is_control(c: char) -> bool {
    c <= '\u{1F}' || ('\u{7F}' <= c && c <= '\u{9F}')
}

/// A continuation provider group the configuration rejects: longer than 128
/// bytes, or holding a control character.
pub open spec fn bad_group(g: Seq<char>) -> bool {
    utf8_len(g) > 128 || exists|i: int| 0 <= i < g.len() && is_control(#[trigger] g[i])
}

/// What validating the whole configuration reports.
pub open spec fn configuration_check(cfg: UpstreamConfig) -> Option<Seq<char>> {
    if cfg.max_concurrency == 0 {
        Some("max_concurrency must be greater than zero"@)
    } else if cfg.continuation_provider_group matches Some(g) && bad_group(g@) {
        Some("continuation provider group must be 1-128 printable characters"@)
    } else {
        mapping_check(mappings_view(cfg.model_mappings@), cfg.route_models_spec())
    }
}

pub open spec fn msg_alias_downstream(down: Seq<char>, canonical: Seq<char>) -> Seq<char> {
    "model mapping downstream name '"@ + down + "' is an alias for '"@ + canonical
        + "' in a global rule; use '"@ + canonical + "' or remove the global rule"@
}

/// The first mapping whose (non-blank) downstream name is a global alias.
pub open spec fn alias_check(ms: Seq<MappingView>, es: Seq<(Seq<char>, Seq<char>)>, n: nat) -> Option<
    Seq<char>,
>
    decreases n,
{
    if n == 0 || n > ms.len() {
        None
    } else {
        match alias_check(ms, es, (n - 1) as nat) {
            Some(e) => Some(e),
            None => {
                let down = trim_seq(ms[n - 1].1);
                if down.len() == 0 {
                    None
                } else {
                    match resolve_spec(es, down) {
                        Some(c) => Some(msg_alias_downstream(down, c)),
                        None => None,
                    }
                }
            },
        }
    }
}

pub proof fn lemma_first_pass_persists(fm: Seq<MappingView>, n: nat, m: nat)
    requires
        n <= m <= fm.len(),
        first_pass(fm, n) is Some,
    ensures
        first_pass(fm, m) == first_pass(fm, n),
    decreases m - n,
{
    if m > n {
        lemma_first_pass_persists(fm, n, (m - 1) as nat);
    }
}

pub proof fn lemma_pair_scan_persists(fm: Seq<MappingView>, i: int, n: nat, m: nat)
    requires
        n <= m <= fm.len(),
        pair_scan(fm, i, n) is Some,
    ensures
        pair_scan(fm, i, m) == pair_scan(fm, i, n),
    decreases m - n,
{
    if m > n {
        lemma_pair_scan_persists(fm, i, n, (m - 1) as nat);
    }
}

pub proof fn lemma_second_pass_persists(fm: Seq<MappingView>, routes: Seq<Seq<char>>, n: nat, m: nat)
    requires
        n <= m <= fm.len(),
        second_pass(fm, routes, n) is Some,
    ensures
        second_pass(fm, routes, m) == second_pass(fm, routes, n),
    decreases m - n,
{
    if m > n {
        lemma_second_pass_persists(fm, routes, n, (m - 1) as nat);
    }
}

pub proof fn lemma_alias_check_persists(ms: Seq<MappingView>, es: Seq<(Seq<char>, Seq<char>)>, n: nat, m: nat)
    requires
        n <= m <= ms.len(),
        alias_check(ms, es, n) is Some,
    ensures
        alias_check(ms, es, m) == alias_check(ms, es, n),
    decreases m - n,
{
    if m > n {
        lemma_alias_check_persists(ms, es, n, (m - 1) as nat);
    }
}

pub proof fn lemma_first_collision_bounds(routes: Seq<Seq<char>>, occ: Seq<Seq<char>>, key: Seq<char>)
    ensures
        first_collision(routes, occ, key) matches Some(j) ==> 0 <= j < routes.len(),
    decreases routes.len(),
{
    if routes.len() > 0 {
        lemma_first_collision_bounds(routes.drop_last(), occ, key);
    }
}

pub proof fn lemma_first_collision_prefix(routes: Seq<Seq<char>>, occ: Seq<Seq<char>>, key: Seq<char>, n: int)
    requires
        0 <= n <= routes.len(),
        first_collision(routes.take(n), occ, key) is Some,
    ensures
        first_collision(routes, occ, key) == first_collision(routes.take(n), occ, key),
    decreases routes.len() - n,
{
    if n < routes.len() {
        assert(routes.take(n + 1).drop_last() == routes.take(n));
        lemma_first_collision_prefix(routes, occ, key, n + 1);
    } else {
        assert(routes.take(n) == routes);
    }
}

/// A filtered mapping as owned strings.
struct TrimmedMapping {
    upstream: String,
    downstream: String,
}

spec fn tm_view(v: Seq<TrimmedMapping>) -> Seq<MappingView> {
    v.map_values(|m: TrimmedMapping| (m.upstream@, m.downstream@))
}

fn filter_mappings(ms: &Vec<UpstreamModelMapping>) -> (r: Vec<TrimmedMapping>)
    ensures
        tm_view(r@) == filtered_mappings(mappings_view(ms@)),
{
    let ghost mv = mappings_view(ms@);
    let mut out: Vec<TrimmedMapping> = Vec::new();
    assert(tm_view(out@) =~= Seq::<MappingView>::empty());
    for i in 0..ms.len()
        invariant
            mv == mappings_view(ms@),
            tm_view(out@) == filtered_mappings(mv.take(i as int)),
    {
        assert(mv.take(i + 1).drop_last() == mv.take(i as int));
        assert(mv.take(i + 1).last() == (ms@[i as int].upstream_model@, ms@[i as int].downstream_model@));
        let up = trimmed_chars(ms[i].upstream_model.as_str());
        let down = trimmed_chars(ms[i].downstream_model.as_str());
        if up.len() > 0 || down.len() > 0 {
            let m = TrimmedMapping { upstream: string_from_chars(&up), downstream: string_from_chars(&down) };
            let ghost before = tm_view(out@);
            out.push(m);
            assert(tm_view(out@) =~= before.push((m.upstream@, m.downstream@)));
        }
    }
    assert(mv.take(ms.len() as int) == mv);
    out
}

fn msg_with_index(prefix: &str, i: usize, suffix: &str) -> (m: String)
    ensures
        m@ == prefix@ + decimal_seq(i as nat) + suffix@,
{
    let mut m = owned(prefix);
    push_text(&mut m, decimal_text(i).as_str());
    push_text(&mut m, suffix);
    m
}

fn check_index(fm: &Vec<TrimmedMapping>, i: usize) -> (r: Option<String>)
    requires
        i < fm.len(),
    ensures
        match index_check(tm_view(fm@), i as int) {
            Some(e) => r matches Some(m) && m@ == e,
            None => r is None,
        },
{
    let ghost fv = tm_view(fm@);
    assert(fv[i as int] == (fm@[i as int].upstream@, fm@[i as int].downstream@));
    let up = fm[i].upstream.as_str();
    let down = fm[i].downstream.as_str();
    if chars_of(up).len() == 0 {
        return Some(msg_with_index("model mapping at index ", i, " has an empty upstream_model"));
    }
    if chars_of(down).len() == 0 {
        let mut m = msg_with_index("model mapping at index ", i, " for upstream model '");
        push_text(&mut m, up);
        push_text(&mut m, "' has an empty downstream_model");
        return Some(m);
    }
    for j in 0..fm.len()
        invariant
            fv == tm_view(fm@),
            i < fm.len(),
            up@ == fv[i as int].0,
            down@ == fv[i as int].1,
            pair_scan(fv, i as int, j as nat) is None,
            up@.len() > 0,
            down@.len() > 0,
    {
        assert(fv[j as int] == (fm@[j as int].upstream@, fm@[j as int].downstream@));
        if j != i {
            if models_equivalent(up, fm[j].upstream.as_str()) {
                let mut m = owned("upstream model '");
                push_text(&mut m, up);
                push_text(&mut m, "' is mapped more than once (conflicts with index ");
                push_text(&mut m, decimal_text(j).as_str());
                push_text(&mut m, " mapping)");
                proof {
                    lemma_pair_scan_persists(fv, i as int, (j + 1) as nat, fv.len());
                }
                return Some(m);
            }
            if models_equivalent(down, fm[j].downstream.as_str()) {
                let mut m = owned("downstream model '");
                push_text(&mut m, down);
                push_text(&mut m, "' is used by more than one mapping (conflicts with index ");
                push_text(&mut m, decimal_text(j).as_str());
                push_text(
                    &mut m,
                    "); each downstream name must map to exactly one upstream model",
                );
                proof {
                    lemma_pair_scan_persists(fv, i as int, (j + 1) as nat, fv.len());
                }
                return Some(m);
            }
        }
    }
    None
}

fn first_collision_exec(routes: &Vec<String>, occ: &Vec<Vec<char>>, key: &Vec<char>) -> (r: Option<usize>)
    ensures
        match first_collision(views(routes@), occ@.map_values(|v: Vec<char>| v@), key@) {
            Some(j) => r matches Some(x) && x as int == j,
            None => r is None,
        },
{
    let ghost rv = views(routes@);
    let ghost ov = occ@.map_values(|v: Vec<char>| v@);
    for j in 0..routes.len()
        invariant
            rv == views(routes@),
            ov == occ@.map_values(|v: Vec<char>| v@),
            first_collision(rv.take(j as int), ov, key@) is None,
    {
        assert(rv.take(j + 1).drop_last() == rv.take(j as int));
        assert(rv.take(j + 1).last() == routes@[j as int]@);
        let rk = canonical_chars(routes[j].as_str());
        if !contains_chars(occ, &rk) && chars_eq(&rk, key) {
            proof {
                lemma_first_collision_prefix(rv, ov, key@, j + 1);
            }
            return Some(j);
        }
    }
    assert(rv.take(routes.len() as int) == rv);
    None
}

fn contains_chars(seen: &Vec<Vec<char>>, key: &Vec<char>) -> (r: bool)
    ensures
        r == seen@.map_values(|v: Vec<char>| v@).contains(key@),
{
    let ghost sv = seen@.map_values(|v: Vec<char>| v@);
    for i in 0..seen.len()
        invariant
            sv == seen@.map_values(|v: Vec<char>| v@),
            forall|j: int| 0 <= j < i ==> sv[j] != key@,
    {
        if chars_eq(&seen[i], key) {
            assert(sv[i as int] == key@);
            return true;
        }
    }
    false
}

fn is_control_char(c: char) -> (r: bool)
    ensures
        r == is_control(c),
{
    c <= '\u{1F}' || ('\u{7F}' <= c && c <= '\u{9F}')
}

fn group_is_bad(g: &String) -> (r: bool)
    ensures
        r == bad_group(g@),
{
    let v = chars_of(g.as_str());
    let mut total: usize = 0;
    for i in 0..v.len()
        invariant
            v@ == g@,
            total == utf8_len(v@.take(i as int)),
            total <= 128,
    {
        assert(v@.take(i + 1).drop_last() == v@.take(i as int));
        let w = crate::text::utf8_width_exec(v[i]);
        total = total + w;
        if total > 128 {
            proof {
                crate::text::lemma_utf8_len_prefix(v@, i + 1);
            }
            return true;
        }
    }
    assert(v@.take(v.len() as int) == v@);
    for i in 0..v.len()
        invariant
            v@ == g@,
            utf8_len(g@) <= 128,
            forall|k: int| 0 <= k < i ==> !is_control(#[trigger] v@[k]),
    {
        if is_control_char(v[i]) {
            return true;
        }
    }
    false
}

impl UpstreamConfig {
    /// Per-upstream mapping rules: non-empty names, unique upstream and
    /// downstream names (canonically), and no downstream name equal to an
    /// unmapped route model of the same upstream.
    pub fn validate_model_mappings(&self) -> (r: Result<(), String>)
        ensures
            match mapping_check(mappings_view(self.model_mappings@), self.route_models_spec()) {
                Some(e) => r matches Err(m) && m@ == e,
                None => r is Ok,
            },
    {
        let fm = filter_mappings(&self.model_mappings);
        let ghost fv = tm_view(fm@);
        for i in 0..fm.len()
            invariant
                fv == tm_view(fm@),
                fv == filtered_mappings(mappings_view(self.model_mappings@)),
                first_pass(fv, i as nat) is None,
        {
            assert(first_pass(fv, (i + 1) as nat) == index_check(fv, i as int));
            match check_index(&fm, i) {
                Some(m) => {
                    proof {
                        lemma_first_pass_persists(fv, (i + 1) as nat, fv.len());
                    }
                    return Err(m);
                },
                None => {},
            }
        }
        let mut occ: Vec<Vec<char>> = Vec::new();
        for i in 0..fm.len()
            invariant
                fv == tm_view(fm@),
                occ@.map_values(|v: Vec<char>| v@) =~= occupied(fv).take(i as int),
        {
            assert(fv[i as int].0 == fm@[i as int].upstream@);
            let ghost before = occ@.map_values(|v: Vec<char>| v@);
            let k = canonical_chars(fm[i].upstream.as_str());
            occ.push(k);
            assert(occ@.map_values(|v: Vec<char>| v@) =~= before.push(k@));
            assert(occupied(fv).take(i + 1) =~= occupied(fv).take(i as int).push(canonical_seq(fv[i as int].0)));
        }
        assert(occupied(fv).take(fm.len() as int) == occupied(fv));
        let routes = self.route_models();
        for i in 0..fm.len()
            invariant
                fv == tm_view(fm@),
                fv == filtered_mappings(mappings_view(self.model_mappings@)),
                first_pass(fv, fv.len()) is None,
                occ@.map_values(|v: Vec<char>| v@) == occupied(fv),
                views(routes@) == self.route_models_spec(),
                second_pass(fv, views(routes@), i as nat) is None,
        {
            assert(fv[i as int].1 == fm@[i as int].downstream@);
            let key = canonical_chars(fm[i].downstream.as_str());
            proof {
                lemma_first_collision_bounds(views(routes@), occupied(fv), key@);
            }
            match first_collision_exec(&routes, &occ, &key) {
                Some(j) => {
                    assert(views(routes@)[j as int] == routes@[j as int]@);
                    let collision = routes[j].as_str();
                    let mut m = owned("downstream model '");
                    push_text(&mut m, fm[i].downstream.as_str());
                    push_text(&mut m, "' (mapping index ");
                    push_text(&mut m, decimal_text(i).as_str());
                    push_text(&mut m, ") collides with this upstream's own model '");
                    push_text(&mut m, collision);
                    push_text(&mut m, "'; pick a different downstream name or map '");
                    push_text(&mut m, collision);
                    push_text(&mut m, "' too");
                    proof {
                        lemma_second_pass_persists(fv, views(routes@), (i + 1) as nat, fv.len());
                    }
                    return Err(m);
                },
                None => {},
            }
        }
        Ok(())
    }

    /// Checks concurrency, the continuation provider group and the mappings.
    pub fn validate_configuration(&self) -> (r: Result<(), String>)
        ensures
            match configuration_check(*self) {
                Some(e) => r matches Err(m) && m@ == e,
                None => r is Ok,
            },
    {
        if self.max_concurrency == 0 {
            return Err(owned("max_concurrency must be greater than zero"));
        }
        match &self.continuation_provider_group {
            Some(g) => {
                if group_is_bad(g) {
                    return Err(owned("continuation provider group must be 1-128 printable characters"));
                }
            },
            None => {},
        }
        self.validate_model_mappings()
    }

    /// Rule 5: a mapped downstream name must not be an alias of a global rule.
    pub fn validate_model_mappings_against_aliases(&self, alias_registry: &ModelAliasRegistry) -> (r:
        Result<(), String>)
        ensures
            match alias_check(
                mappings_view(self.model_mappings@),
                alias_registry.entries(),
                self.model_mappings@.len(),
            ) {
                Some(e) => r matches Err(m) && m@ == e,
                None => r is Ok,
            },
    {
        let ghost mv = mappings_view(self.model_mappings@);
        for i in 0..self.model_mappings.len()
            invariant
                mv == mappings_view(self.model_mappings@),
                alias_check(mv, alias_registry.entries(), i as nat) is None,
        {
            assert(mv[i as int].1 == self.model_mappings@[i as int].downstream_model@);
            let down_chars = trimmed_chars(self.model_mappings[i].downstream_model.as_str());
            if down_chars.len() > 0 {
                let down = string_from_chars(&down_chars);
                match alias_registry.resolve_alias(down.as_str()) {
                    Some(canonical) => {
                        let mut m = owned("model mapping downstream name '");
                        push_text(&mut m, down.as_str());
                        push_text(&mut m, "' is an alias for '");
                        push_text(&mut m, canonical);
                        push_text(&mut m, "' in a global rule; use '");
                        push_text(&mut m, canonical);
                        push_text(&mut m, "' or remove the global rule");
                        proof {
                            lemma_alias_check_persists(mv, alias_registry.entries(), (i + 1) as nat, mv.len());
                        }
                        return Err(m);
                    },
                    None => {},
                }
            }
        }
        Ok(())
    }
}

/// Mapping `i` conflicts with none of mappings `0..n` other than itself.
proof fn lemma_pair_scan(fm: Seq<MappingView>, i: int, n: nat)
    requires
        n <= fm.len(),
        0 <= i < fm.len(),
    ensures
        pair_scan(fm, i, n) is None <==> forall|j: int|
            0 <= j < n && j != i ==> !equivalent(fm[i].0, #[trigger] fm[j].0) && !equivalent(fm[i].1, fm[j].1),
    decreases n,
{
    if n > 0 {
        lemma_pair_scan(fm, i, (n - 1) as nat);
        if pair_scan(fm, i, n) is None {
            assert forall|j: int| 0 <= j < n && j != i implies !equivalent(fm[i].0, #[trigger] fm[j].0) && !equivalent(
                fm[i].1,
                fm[j].1,
            ) by {
                if j < n - 1 {
                    assert(pair_scan(fm, i, (n - 1) as nat) is None);
                }
            }
        } else if pair_scan(fm, i, (n - 1) as nat) is None {
            let j = n - 1;
            assert(j != i && (equivalent(fm[i].0, fm[j].0) || equivalent(fm[i].1, fm[j].1)));
        }
    }
}

proof fn lemma_first_pass(fm: Seq<MappingView>, n: nat)
    requires
        n <= fm.len(),
    ensures
        first_pass(fm, n) is None <==> forall|i: int| 0 <= i < n ==> #[trigger] index_check(fm, i) is None,
    decreases n,
{
    if n > 0 {
        lemma_first_pass(fm, (n - 1) as nat);
    }
}

proof fn lemma_first_collision(routes: Seq<Seq<char>>, occ: Seq<Seq<char>>, key: Seq<char>)
    ensures
        first_collision(routes, occ, key) is None <==> forall|j: int|
            0 <= j < routes.len() && canonical_seq(#[trigger] routes[j]) == key ==> occ.contains(canonical_seq(routes[j])),
    decreases routes.len(),
{
    if routes.len() > 0 {
        lemma_first_collision(routes.drop_last(), occ, key);
        let d = routes.drop_last();
        assert forall|j: int| 0 <= j < d.len() implies d[j] == routes[j] by {}
        if first_collision(routes, occ, key) is None {
            assert forall|j: int| 0 <= j < routes.len() && canonical_seq(#[trigger] routes[j]) == key implies occ.contains(
                canonical_seq(routes[j]),
            ) by {
                if j < d.len() {
                    assert(d[j] == routes[j]);
                } else {
                    assert(routes[j] == routes.last());
                }
            }
        } else if first_collision(d, occ, key) is None {
            assert(routes[routes.len() - 1] == routes.last());
        } else {
            let j = choose|j: int| 0 <= j < d.len() && canonical_seq(#[trigger] d[j]) == key && !occ.contains(canonical_seq(d[j]));
            assert(routes[j] == d[j]);
        }
    }
}

proof fn lemma_second_pass(fm: Seq<MappingView>, routes: Seq<Seq<char>>, n: nat)
    requires
        n <= fm.len(),
    ensures
        second_pass(fm, routes, n) is None <==> forall|i: int|
            0 <= i < n ==> #[trigger] first_collision(routes, occupied(fm), canonical_seq(fm[i].1)) is None,
    decreases n,
{
    if n > 0 {
        lemma_second_pass(fm, routes, (n - 1) as nat);
    }
}

/// The mappings validate exactly when, after trimming and dropping entries
/// with both names blank, every mapping names both models, no two mappings
/// name equivalent upstream models or equivalent downstream models, and no
/// downstream name is canonically one of the route models that no mapping
/// maps.
pub proof fn law_mapping_check(ms: Seq<MappingView>, routes: Seq<Seq<char>>)
    ensures
        ({
            let fm = filtered_mappings(ms);
            mapping_check(ms, routes) is None <==> {
                &&& forall|i: int| 0 <= i < fm.len() ==> (#[trigger] fm[i]).0.len() > 0 && fm[i].1.len() > 0
                &&& forall|i: int, j: int|
                    0 <= i < fm.len() && 0 <= j < fm.len() && i != j ==> !equivalent(#[trigger] fm[i].0, #[trigger] fm[j].0)
                        && !equivalent(fm[i].1, fm[j].1)
                &&& forall|i: int, k: int|
                    0 <= i < fm.len() && 0 <= k < routes.len() && canonical_seq(#[trigger] routes[k]) == canonical_seq(
                        #[trigger] fm[i].1,
                    ) ==> occupied(fm).contains(canonical_seq(routes[k]))
            }
        }),
{
    let fm = filtered_mappings(ms);
    lemma_first_pass(fm, fm.len());
    lemma_second_pass(fm, routes, fm.len());
    assert forall|i: int| 0 <= i < fm.len() implies (#[trigger] index_check(fm, i) is None) <==> (fm[i].0.len() > 0
        && fm[i].1.len() > 0 && forall|j: int|
        0 <= j < fm.len() && j != i ==> !equivalent(fm[i].0, #[trigger] fm[j].0) && !equivalent(fm[i].1, fm[j].1)) by {
        lemma_pair_scan(fm, i, fm.len());
    }
    assert forall|i: int| 0 <= i < fm.len() implies (#[trigger] first_collision(routes, occupied(fm), canonical_seq(fm[i].1))
        is None) <==> (forall|k: int|
        0 <= k < routes.len() && canonical_seq(#[trigger] routes[k]) == canonical_seq(fm[i].1) ==> occupied(fm).contains(
            canonical_seq(routes[k]),
        )) by {
        lemma_first_collision(routes, occupied(fm), canonical_seq(fm[i].1));
    }
    if mapping_check(ms, routes) is None {
        assert forall|i: int| 0 <= i < fm.len() implies (#[trigger] fm[i]).0.len() > 0 && fm[i].1.len() > 0 by {
            assert(index_check(fm, i) is None);
        }
        assert forall|i: int, j: int|
            0 <= i < fm.len() && 0 <= j < fm.len() && i != j implies !equivalent(#[trigger] fm[i].0, #[trigger] fm[j].0)
                && !equivalent(fm[i].1, fm[j].1) by {
            assert(index_check(fm, i) is None);
        }
        assert forall|i: int, k: int|
            0 <= i < fm.len() && 0 <= k < routes.len() && canonical_seq(#[trigger] routes[k]) == canonical_seq(
                #[trigger] fm[i].1,
            ) implies occupied(fm).contains(canonical_seq(routes[k])) by {
            assert(first_collision(routes, occupied(fm), canonical_seq(fm[i].1)) is None);
        }
    }
}

} // verus!
