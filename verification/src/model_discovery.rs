//! Model discovery against an upstream's `/v1/models`: the error kinds, the
//! cleanup of a discovered model list, and how the keys of one upstream are
//! fetched once per distinct key and reported once per key position.
use vstd::prelude::*;
use crate::order::{lemma_sorted_insert, strictly_sorted, text_less, text_less_exec};
use crate::text::{chars_of, decimal_seq, decimal_text, owned, push_text, str_eq, trim_seq, trimmed, views};

verus! {

/// At most this many keys of one upstream are queried at once.
pub const MODEL_DISCOVERY_MAX_CONCURRENCY: usize = 8;

/// Why a discovery request failed.
#[derive(Debug, Clone, Copy, PartialEq, Eq)]
pub enum ModelDiscoveryError {
    Timeout,
    Connection,
    Request,
    HttpStatus(u16),
    InvalidJson,
    MissingData,
    EmptyModels,
}

impl ModelDiscoveryError {
    pub open spec fn code_spec(self) -> Seq<char> {
        match self {
            ModelDiscoveryError::Timeout => "timeout"@,
            ModelDiscoveryError::Connection => "connection"@,
            ModelDiscoveryError::Request => "request"@,
            ModelDiscoveryError::HttpStatus(_) => "http_status"@,
            ModelDiscoveryError::InvalidJson => "invalid_json"@,
            ModelDiscoveryError::MissingData => "missing_data"@,
            ModelDiscoveryError::EmptyModels => "empty_models"@,
        }
    }

    pub open spec fn message_spec(self) -> Seq<char> {
        match self {
            ModelDiscoveryError::Timeout => "upstream model discovery timed out"@,
            ModelDiscoveryError::Connection => "upstream model discovery connection failed"@,
            ModelDiscoveryError::Request => "upstream model discovery request failed"@,
            ModelDiscoveryError::HttpStatus(s) => "upstream model discovery returned status "@
                + decimal_seq(s as nat),
            ModelDiscoveryError::InvalidJson => "upstream model discovery returned invalid JSON"@,
            ModelDiscoveryError::MissingData => "upstream model discovery response missing data"@,
            ModelDiscoveryError::EmptyModels => "upstream returned no models"@,
        }
    }

    /// The stable code of the error kind.
    pub fn code(&self) -> (r: &'static str)
        ensures
            r@ == self.code_spec(),
    {
        match self {
            ModelDiscoveryError::Timeout => "timeout",
            ModelDiscoveryError::Connection => "connection",
            ModelDiscoveryError::Request => "request",
            ModelDiscoveryError::HttpStatus(_) => "http_status",
            ModelDiscoveryError::InvalidJson => "invalid_json",
            ModelDiscoveryError::MissingData => "missing_data",
            ModelDiscoveryError::EmptyModels => "empty_models",
        }
    }

    /// The provider's HTTP status, for a status error.
    pub fn http_status(&self) -> (r: Option<u16>)
        ensures
            r == match self {
                ModelDiscoveryError::HttpStatus(s) => Some(*s),
                _ => None::<u16>,
            },
    {
        match self {
            ModelDiscoveryError::HttpStatus(status) => Some(*status),
            _ => None,
        }
    }

    /// The error as shown to operators.
    pub fn message(&self) -> (r: String)
        ensures
            r@ == self.message_spec(),
    {
        match self {
            ModelDiscoveryError::Timeout => owned("upstream model discovery timed out"),
            ModelDiscoveryError::Connection => owned("upstream model discovery connection failed"),
            ModelDiscoveryError::Request => owned("upstream model discovery request failed"),
            ModelDiscoveryError::HttpStatus(status) => {
                let mut m = owned("upstream model discovery returned status ");
                push_text(&mut m, decimal_text(*status as usize).as_str());
                m
            },
            ModelDiscoveryError::InvalidJson => owned("upstream model discovery returned invalid JSON"),
            ModelDiscoveryError::MissingData => owned("upstream model discovery response missing data"),
            ModelDiscoveryError::EmptyModels => owned("upstream returned no models"),
        }
    }
}

/// The discovery outcome of the key at `key_index`.
#[derive(Debug, Clone)]
pub struct KeyModelDiscoveryResult {
    pub key_index: usize,
    pub models: Vec<String>,
    pub latency_ms: u64,
    pub error: Option<String>,
    pub error_code: Option<String>,
    pub http_status: Option<u16>,
}

/// The non-blank trimmed model ids.
pub open spec fn discovered_ids(ids: Seq<Seq<char>>) -> Set<Seq<char>> {
    Set::new(|m: Seq<char>| m.len() > 0 && exists|i: int| 0 <= i < ids.len() && trim_seq(#[trigger] ids[i]) == m)
}

fn insert_text(v: Vec<String>, x: String) -> (r: Vec<String>)
    requires
        strictly_sorted(views(v@)),
    ensures
        strictly_sorted(views(r@)),
        forall|y: Seq<char>| views(r@).contains(y) <==> (views(v@).contains(y) || y == x@),
{
    let ghost xv = x@;
    let mut out = v;
    let ghost before = views(out@);
    let mut p: usize = 0;
    while p < out.len() && text_less_exec(out[p].as_str(), x.as_str())
        invariant
            p <= out@.len(),
            views(out@) == before,
            xv == x@,
            forall|k: int| 0 <= k < p ==> text_less(#[trigger] before[k], xv),
        decreases out@.len() - p,
    {
        p = p + 1;
    }
    if p < out.len() && str_eq(out[p].as_str(), x.as_str()) {
        assert(before[p as int] == xv);
        assert(before.contains(xv));
        assert(crate::model_access::lists_with(views(out@), before, xv));
    } else {
        proof {
            lemma_sorted_insert(before, xv, p as int);
        }
        proof {
            crate::text::lemma_views_push(out@, x);
        }
        out.insert(p, x);
        assert(views(out@) =~= before.insert(p as int, xv));
        proof {
            crate::model_access::lemma_lists_with_insert(before, xv, p as int);
        }
    }
    out
}

/// A discovered model list cleaned up: trimmed, blanks dropped, sorted and
/// each id once; an empty result is the `EmptyModels` error.
pub fn normalized_discovered_models(ids: &[String]) -> (r: Result<Vec<String>, ModelDiscoveryError>)
    ensures
        match r {
            Ok(v) => strictly_sorted(views(v@)) && v@.len() > 0 && forall|m: Seq<char>|
                views(v@).contains(m) <==> discovered_ids(views(ids@)).contains(m),
            Err(e) => e == ModelDiscoveryError::EmptyModels && discovered_ids(views(ids@)) == Set::<
                Seq<char>,
            >::empty(),
        },
{
    let ghost iv = views(ids@);
    let mut out: Vec<String> = Vec::new();
    for i in 0..ids.len()
        invariant
            iv == views(ids@),
            strictly_sorted(views(out@)),
            forall|m: Seq<char>| views(out@).contains(m) <==> discovered_ids(iv.take(i as int)).contains(m),
    {
        assert(iv[i as int] == ids@[i as int]@);
        let t = trimmed(ids[i].as_str());
        let ghost before = views(out@);
        if chars_of(t.as_str()).len() > 0 {
            out = insert_text(out, t);
        }
        assert forall|m: Seq<char>| views(out@).contains(m) <==> discovered_ids(iv.take(i + 1)).contains(m) by {
            let t1 = iv.take(i + 1);
            let t0 = iv.take(i as int);
            assert(t1[i as int] == iv[i as int]);
            if discovered_ids(t1).contains(m) {
                let j = choose|j: int| 0 <= j < t1.len() && trim_seq(#[trigger] t1[j]) == m;
                if j < i {
                    assert(t0[j] == t1[j]);
                    assert(discovered_ids(t0).contains(m));
                }
            }
            if discovered_ids(t0).contains(m) {
                let j = choose|j: int| 0 <= j < t0.len() && trim_seq(#[trigger] t0[j]) == m;
                assert(t1[j] == t0[j]);
            }
        }
    }
    assert(iv.take(iv.len() as int) == iv);
    if out.len() == 0 {
        assert(discovered_ids(iv) =~= Set::<Seq<char>>::empty()) by {
            assert forall|m: Seq<char>| !discovered_ids(iv).contains(m) by {
                if discovered_ids(iv).contains(m) {
                    assert(views(out@).contains(m));
                }
            }
        }
        return Err(ModelDiscoveryError::EmptyModels);
    }
    Ok(out)
}

/// The distinct trimmed keys, in order of first appearance, each with the
/// positions of `keys` that hold it.
pub open spec fn key_groups(keys: Seq<Seq<char>>) -> Seq<(Seq<char>, Seq<int>)>
    decreases keys.len(),
{
    if keys.len() == 0 {
        Seq::empty()
    } else {
        let acc = key_groups(keys.drop_last());
        let k = trim_seq(keys.last());
        let at = keys.len() - 1;
        match group_of(acc, k) {
            Some(g) => acc.update(g, (acc[g].0, acc[g].1.push(at))),
            None => acc.push((k, seq![at])),
        }
    }
}

/// Position of the group of key `k`.
pub open spec fn group_of(gs: Seq<(Seq<char>, Seq<int>)>, k: Seq<char>) -> Option<int>
    decreases gs.len(),
{
    if gs.len() == 0 {
        None
    } else {
        match group_of(gs.drop_last(), k) {
            Some(g) => Some(g),
            None => if gs.last().0 == k {
                Some(gs.len() - 1)
            } else {
                None
            },
        }
    }
}

pub proof fn lemma_group_of(gs: Seq<(Seq<char>, Seq<int>)>, k: Seq<char>)
    ensures
        group_of(gs, k) matches Some(g) ==> 0 <= g < gs.len() && gs[g].0 == k,
    decreases gs.len(),
{
    if gs.len() > 0 {
        lemma_group_of(gs.drop_last(), k);
    }
}

pub open spec fn groups_view(v: Seq<(String, Vec<usize>)>) -> Seq<(Seq<char>, Seq<int>)> {
    v.map_values(|e: (String, Vec<usize>)| (e.0@, e.1@.map_values(|i: usize| i as int)))
}

/// Groups the keys of an upstream by their trimmed value, so that each
/// distinct key is queried once.
pub fn group_discovery_keys(keys: &[String]) -> (r: Vec<(String, Vec<usize>)>)
    ensures
        groups_view(r@) == key_groups(views(keys@)),
{
    let ghost kv = views(keys@);
    let mut groups: Vec<(String, Vec<usize>)> = Vec::new();
    for i in 0..keys.len()
        invariant
            kv == views(keys@),
            groups_view(groups@) == key_groups(kv.take(i as int)),
    {
        assert(kv.take(i + 1).drop_last() == kv.take(i as int));
        assert(kv.take(i + 1).last() == keys@[i as int]@);
        let key = trimmed(keys[i].as_str());
        let ghost gv = groups_view(groups@);
        let mut found: Option<usize> = None;
        for g in 0..groups.len()
            invariant
                gv == groups_view(groups@),
                found matches Some(f) ==> group_of(gv.take(g as int), key@) == Some(f as int),
                found is None ==> group_of(gv.take(g as int), key@) is None,
        {
            assert(gv.take(g + 1).drop_last() == gv.take(g as int));
            assert(gv.take(g + 1).last() == gv[g as int]);
            if found.is_none() && str_eq(groups[g].0.as_str(), key.as_str()) {
                found = Some(g);
            }
        }
        assert(gv.take(gv.len() as int) == gv);
        proof {
            lemma_group_of(gv, key@);
        }
        match found {
            Some(g) => {
                let (k, mut positions) = groups.remove(g);
                let ghost before = positions@;
                positions.push(i);
                assert(positions@.map_values(|x: usize| x as int) =~= before.map_values(|x: usize| x as int).push(i as int));
                groups.insert(g, (k, positions));
                assert(groups_view(groups@) =~= gv.update(g as int, (gv[g as int].0, gv[g as int].1.push(i as int))));
            },
            None => {
                let mut positions: Vec<usize> = Vec::new();
                positions.push(i);
                assert(positions@.map_values(|x: usize| x as int) =~= seq![i as int]);
                groups.push((key, positions));
                assert(groups_view(groups@) =~= gv.push((trim_seq(kv[i as int]), seq![i as int])));
            },
        }
    }
    assert(kv.take(kv.len() as int) == kv);
    groups
}

/// How many distinct keys are queried at once.
pub fn discovery_concurrency(distinct_keys: usize) -> (r: usize)
    ensures
        r == if distinct_keys < 1 {
            1
        } else if distinct_keys > MODEL_DISCOVERY_MAX_CONCURRENCY {
            MODEL_DISCOVERY_MAX_CONCURRENCY
        } else {
            distinct_keys
        },
{
    if distinct_keys < 1 {
        1
    } else if distinct_keys > MODEL_DISCOVERY_MAX_CONCURRENCY {
        MODEL_DISCOVERY_MAX_CONCURRENCY
    } else {
        distinct_keys
    }
}

/// The outcome for a distinct key that is blank: a request error, without
/// querying the upstream.
pub fn blank_key_outcome(key: &str) -> (r: Option<ModelDiscoveryError>)
    ensures
        key@.len() == 0 ==> r == Some(ModelDiscoveryError::Request),
        key@.len() > 0 ==> r is None,
{
    if chars_of(key).len() == 0 {
        Some(ModelDiscoveryError::Request)
    } else {
        None
    }
}

pub proof fn lemma_every_key_grouped(keys: Seq<Seq<char>>, i: int)
    requires
        0 <= i < keys.len(),
    ensures
        group_of(key_groups(keys), trim_seq(keys[i])) is Some,
    decreases keys.len(),
{
    let acc = key_groups(keys.drop_last());
    let k = trim_seq(keys.last());
    lemma_group_of(acc, k);
    if i < keys.len() - 1 {
        lemma_every_key_grouped(keys.drop_last(), i);
        assert(keys.drop_last()[i] == keys[i]);
        lemma_group_of_grows(acc, trim_seq(keys[i]), k, keys.len() - 1);
    } else {
        lemma_group_of_grows(acc, k, k, keys.len() - 1);
    }
}

/// Adding a position to a group, or a new group, keeps every key found.
pub proof fn lemma_group_of_grows(acc: Seq<(Seq<char>, Seq<int>)>, t: Seq<char>, k: Seq<char>, at: int)
    requires
        group_of(acc, t) is Some || t == k,
    ensures
        group_of(
            match group_of(acc, k) {
                Some(g) => acc.update(g, (acc[g].0, acc[g].1.push(at))),
                None => acc.push((k, seq![at])),
            },
            t,
        ) is Some,
{
    lemma_group_of(acc, k);
    lemma_group_of(acc, t);
    match group_of(acc, k) {
        Some(g) => {
            let u = acc.update(g, (acc[g].0, acc[g].1.push(at)));
            let h = if group_of(acc, t) is Some {
                group_of(acc, t)->0
            } else {
                g
            };
            lemma_group_of_found(u, t, h);
        },
        None => {
            let u = acc.push((k, seq![at]));
            if group_of(acc, t) is Some {
                lemma_group_of_found(u, t, group_of(acc, t)->0);
            } else {
                lemma_group_of_found(u, t, acc.len() as int);
            }
        },
    }
}

pub proof fn lemma_group_of_found(gs: Seq<(Seq<char>, Seq<int>)>, k: Seq<char>, h: int)
    requires
        0 <= h < gs.len(),
        gs[h].0 == k,
    ensures
        group_of(gs, k) is Some,
    decreases gs.len(),
{
    if h < gs.len() - 1 {
        lemma_group_of_found(gs.drop_last(), k, h);
    }
}

/// The per-key results of a discovery, in key order: each key position
/// gets the outcome (models, latency, error) of its distinct key, whose
/// group order is that of `group_discovery_keys`.
pub fn discovery_results(
    keys: &[String],
    outcomes: &[(Vec<String>, u64, Option<ModelDiscoveryError>)],
) -> (r: Vec<KeyModelDiscoveryResult>)
    requires
        outcomes@.len() == key_groups(views(keys@)).len(),
    ensures
        r@.len() == keys@.len(),
        forall|i: int|
            0 <= i < r@.len() ==> {
                let g = group_of(key_groups(views(keys@)), trim_seq(views(keys@)[i]))->0;
                let o = outcomes@[g];
                &&& (#[trigger] r@[i]).key_index == i
                &&& views(r@[i].models@) == views(o.0@)
                &&& r@[i].latency_ms == o.1
                &&& match o.2 {
                    Some(e) => (r@[i].error matches Some(m) && m@ == e.message_spec()) && (
                    r@[i].error_code matches Some(c) && c@ == e.code_spec()) && r@[i].http_status
                        == (match e {
                        ModelDiscoveryError::HttpStatus(s) => Some(s),
                        _ => None::<u16>,
                    }),
                    None => r@[i].error is None && r@[i].error_code is None && r@[i].http_status is None,
                }
            },
{
    let groups = group_discovery_keys(keys);
    let ghost kv = views(keys@);
    let ghost gs = key_groups(kv);
    let mut results: Vec<KeyModelDiscoveryResult> = Vec::new();
    for i in 0..keys.len()
        invariant
            kv == views(keys@),
            gs == key_groups(kv),
            groups_view(groups@) == gs,
            outcomes@.len() == gs.len(),
            results@.len() == i,
            forall|j: int|
                0 <= j < i ==> {
                    let g = group_of(gs, trim_seq(kv[j]))->0;
                    let o = outcomes@[g];
                    &&& (#[trigger] results@[j]).key_index == j
                    &&& views(results@[j].models@) == views(o.0@)
                    &&& results@[j].latency_ms == o.1
                    &&& match o.2 {
                        Some(e) => (results@[j].error matches Some(m) && m@ == e.message_spec()) && (
                        results@[j].error_code matches Some(c) && c@ == e.code_spec())
                            && results@[j].http_status == (match e {
                            ModelDiscoveryError::HttpStatus(s) => Some(s),
                            _ => None::<u16>,
                        }),
                        None => results@[j].error is None && results@[j].error_code is None
                            && results@[j].http_status is None,
                    }
                },
    {
        assert(kv[i as int] == keys@[i as int]@);
        let key = trimmed(keys[i].as_str());
        proof {
            lemma_every_key_grouped(kv, i as int);
            lemma_group_of(gs, key@);
        }
        let mut found: Option<usize> = None;
        for g in 0..groups.len()
            invariant
                groups_view(groups@) == gs,
                found matches Some(f) ==> group_of(gs.take(g as int), key@) == Some(f as int),
                found is None ==> group_of(gs.take(g as int), key@) is None,
        {
            assert(gs.take(g + 1).drop_last() == gs.take(g as int));
            assert(gs.take(g + 1).last() == gs[g as int]);
            if found.is_none() && str_eq(groups[g].0.as_str(), key.as_str()) {
                found = Some(g);
            }
        }
        assert(gs.take(gs.len() as int) == gs);
        let g = match found {
            Some(g) => g,
            None => {
                assert(false);
                0
            },
        };
        let outcome = &outcomes[g];
        let models = crate::text::clone_strings(&outcome.0);
        let result = match &outcome.2 {
            Some(e) => KeyModelDiscoveryResult {
                key_index: i,
                models,
                latency_ms: outcome.1,
                error: Some(e.message()),
                error_code: Some(owned(e.code())),
                http_status: e.http_status(),
            },
            None => KeyModelDiscoveryResult {
                key_index: i,
                models,
                latency_ms: outcome.1,
                error: None,
                error_code: None,
                http_status: None,
            },
        };
        results.push(result);
    }
    results
}

/// `s` without the slashes at its end.
pub open spec fn without_trailing_slashes(s: Seq<char>) -> Seq<char>
    decreases s.len(),
{
    if s.len() > 0 && s.last() == '/' {
        without_trailing_slashes(s.drop_last())
    } else {
        s
    }
}

/// The model listing endpoint of an upstream: its base URL, trimmed and
/// without trailing slashes, followed by `/v1/models`.
pub fn model_discovery_url(base_url: &str) -> (r: String)
    ensures
        r@ == without_trailing_slashes(crate::text::trim_seq(base_url@)) + "/v1/models"@,
{
    let v = crate::text::trimmed_chars(base_url);
    let mut n: usize = v.len();
    assert(v@.take(n as int) =~= v@);
    while n > 0 && v[n - 1] == '/'
        invariant
            n <= v@.len(),
            without_trailing_slashes(v@.take(n as int)) == without_trailing_slashes(v@),
        decreases n,
    {
        assert(v@.take(n as int).drop_last() =~= v@.take(n - 1));
        n = n - 1;
    }
    proof {
        if n > 0 {
            assert(v@.take(n as int).last() == v@[n - 1]);
        }
        assert(without_trailing_slashes(v@.take(n as int)) == v@.take(n as int));
        assert(v@.take(n as int) =~= v@.subrange(0, n as int));
    }
    let mut r = crate::text::string_from_chars(&crate::text::slice_chars(&v, 0, n));
    crate::text::push_text(&mut r, "/v1/models");
    r
}

} // verus!
