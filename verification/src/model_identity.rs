//! Canonical model identity: which model spellings name the same model.
//!
//! Spellings are stored verbatim (an upstream may be case-sensitive on the
//! wire); every comparison and dedup goes through the canonical form
//! (trimmed, ASCII-lowercased). With case-insensitive matching switched off,
//! every helper degrades to an exact comparison of trimmed spellings.
use vstd::prelude::*;
use crate::text::{
    clone_strings, decimal_seq, decimal_text, owned, push_text,
    blank, canonical_chars, canonical_seq, chars_eq, chars_of, is_blank, lower_chars, slice_chars,
    string_from_chars, trim_chars, trim_seq, trimmed_chars, trimmed_eq, views,
};

verus! {

/// The gateway-owned marker that a codex subagent appends to a model name.
pub open spec fn subagent_suffix() -> Seq<char> {
    "-fast-preview"@
}

/// The base of `model` (trimmed) when it ends with `suffix` and something
/// remains in front of it.
pub open spec fn suffix_base(model: Seq<char>, suffix: Seq<char>) -> Option<Seq<char>> {
    let m = trim_seq(model);
    if m.len() > suffix.len() && m.subrange(m.len() - suffix.len(), m.len() as int) == suffix {
        Some(m.subrange(0, m.len() - suffix.len()))
    } else {
        None
    }
}

/// Canonical equality: both non-blank and equal once canonicalized.
pub open spec fn equivalent(a: Seq<char>, b: Seq<char>) -> bool {
    !is_blank(a) && !is_blank(b) && canonical_seq(a) == canonical_seq(b)
}

/// Equality under the matching switch: canonical when `case_insensitive`,
/// otherwise equality of the trimmed, non-blank spellings.
pub open spec fn equivalent_with(a: Seq<char>, b: Seq<char>, case_insensitive: bool) -> bool {
    if case_insensitive {
        equivalent(a, b)
    } else {
        trim_seq(a) == trim_seq(b) && !is_blank(a)
    }
}

/// Index of the first element of `stored` equivalent to `model` under the
/// matching switch.
pub open spec fn first_equiv(stored: Seq<Seq<char>>, model: Seq<char>, case_insensitive: bool) -> Option<
    int,
>
    decreases stored.len(),
{
    if stored.len() == 0 {
        None
    } else {
        match first_equiv(stored.drop_last(), model, case_insensitive) {
            Some(i) => Some(i),
            None => if equivalent_with(stored.last(), model, case_insensitive) {
                Some(stored.len() - 1)
            } else {
                None
            },
        }
    }
}

/// Index of the first element of `s` equal to `target`.
pub open spec fn first_eq(s: Seq<Seq<char>>, target: Seq<char>) -> Option<int>
    decreases s.len(),
{
    if s.len() == 0 {
        None
    } else {
        match first_eq(s.drop_last(), target) {
            Some(i) => Some(i),
            None => if s.last() == target {
                Some(s.len() - 1)
            } else {
                None
            },
        }
    }
}

pub proof fn lemma_first_equiv_bounds(stored: Seq<Seq<char>>, model: Seq<char>, ci: bool)
    ensures
        first_equiv(stored, model, ci) matches Some(i) ==> 0 <= i < stored.len() && equivalent_with(
            stored[i],
            model,
            ci,
        ),
    decreases stored.len(),
{
    if stored.len() > 0 {
        lemma_first_equiv_bounds(stored.drop_last(), model, ci);
    }
}

pub proof fn lemma_first_eq_bounds(s: Seq<Seq<char>>, target: Seq<char>)
    ensures
        first_eq(s, target) matches Some(i) ==> 0 <= i < s.len() && s[i] == target,
    decreases s.len(),
{
    if s.len() > 0 {
        lemma_first_eq_bounds(s.drop_last(), target);
    }
}

/// Canonical form used as the comparison and dedup key: trimmed, then
/// ASCII-lowercased.
pub fn canonical_model_id(model: &str) -> (r: String)
    ensures
        r@ == canonical_seq(model@),
{
    string_from_chars(&canonical_chars(model))
}

/// The key under which a model name is grouped: its canonical form when
/// matching case-insensitively, else the name itself.
pub open spec fn identity_key(name: Seq<char>, case_insensitive: bool) -> Seq<char> {
    if case_insensitive {
        canonical_seq(name)
    } else {
        name
    }
}

pub fn model_identity_key_with(name: &str, case_insensitive: bool) -> (r: String)
    ensures
        r@ == identity_key(name@, case_insensitive),
{
    if case_insensitive {
        canonical_model_id(name)
    } else {
        owned(name)
    }
}

/// Canonical equality: `true` iff both models fold to the same trimmed
/// lowercase key. A blank input never compares equal, not even to itself.
pub fn models_equivalent(a: &str, b: &str) -> (r: bool)
    ensures
        r == equivalent(a@, b@),
{
    let ta = trimmed_chars(a);
    let tb = trimmed_chars(b);
    if ta.len() == 0 || tb.len() == 0 {
        return false;
    }
    chars_eq(&lower_chars(&ta), &lower_chars(&tb))
}

/// Canonical equality honoring the matching switch; with the switch off
/// this is the exact comparison of trimmed spellings.
pub fn models_equivalent_with(a: &str, b: &str, case_insensitive: bool) -> (r: bool)
    ensures
        r == equivalent_with(a@, b@, case_insensitive),
{
    if case_insensitive {
        models_equivalent(a, b)
    } else {
        trimmed_eq(a, b) && !blank(a)
    }
}

/// The characters of `model` (trimmed) in front of `suffix`, when it ends
/// with `suffix` and something remains in front.
pub fn suffix_base_chars(model: &str, suffix: &str) -> (r: Option<Vec<char>>)
    ensures
        match r {
            Some(v) => suffix_base(model@, suffix@) == Some(v@),
            None => suffix_base(model@, suffix@) is None,
        },
{
    let m = trimmed_chars(model);
    let s = chars_of(suffix);
    if m.len() > s.len() {
        let k = m.len() - s.len();
        let tail = slice_chars(&m, k, m.len());
        if chars_eq(&tail, &s) {
            return Some(slice_chars(&m, 0, k));
        }
    }
    None
}

/// The base model of a codex subagent variant (`<base>-fast-preview`),
/// trimmed but otherwise spelled as given; `None` when `model` is not such a
/// variant.
pub fn codex_subagent_base_model(model: &str) -> (r: Option<String>)
    ensures
        match r {
            Some(s) => suffix_base(model@, subagent_suffix()) == Some(s@),
            None => suffix_base(model@, subagent_suffix()) is None,
        },
{
    match suffix_base_chars(model, "-fast-preview") {
        Some(v) => Some(string_from_chars(&v)),
        None => None,
    }
}

/// Strip a codex subagent variant suffix (compared exactly: it is a
/// gateway-owned marker), then fold the remaining base to canonical form.
pub fn canonical_subagent_base_model_id(model: &str, subagent_suffix: &str) -> (r: Option<String>)
    ensures
        match r {
            Some(s) => suffix_base(model@, subagent_suffix@) matches Some(b) && s@
                == canonical_seq(b),
            None => suffix_base(model@, subagent_suffix@) is None,
        },
{
    match suffix_base_chars(model, subagent_suffix) {
        Some(v) => {
            let t = trim_chars(&v);
            Some(string_from_chars(&lower_chars(&t)))
        },
        None => None,
    }
}

/// The stored spelling (first match) inside `stored` equivalent to `model`
/// under the matching switch, returned unchanged.
pub fn find_equivalent_stored<'a>(stored: &'a [String], model: &str, case_insensitive: bool) -> (r:
    Option<&'a str>)
    ensures
        match first_equiv(views(stored@), model@, case_insensitive) {
            Some(i) => r matches Some(s) && s@ == stored@[i]@,
            None => r is None,
        },
{
    let ghost sv = views(stored@);
    for i in 0..stored.len()
        invariant
            sv == views(stored@),
            first_equiv(sv.take(i as int), model@, case_insensitive) is None,
    {
        assert(sv.take(i + 1).drop_last() == sv.take(i as int));
        assert(sv.take(i + 1).last() == stored@[i as int]@);
        if models_equivalent_with(stored[i].as_str(), model, case_insensitive) {
            proof {
                lemma_first_equiv_prefix(sv, model@, case_insensitive, i + 1);
            }
            return Some(stored[i].as_str());
        }
    }
    assert(sv.take(stored@.len() as int) == sv);
    None
}

/// Whether a stored spelling matches a requested model: under case
/// folding, both non-blank with equal canonical forms; otherwise a non-blank
/// request equal to the trimmed spelling.
pub open spec fn stored_matches(c: Seq<char>, model: Seq<char>, ci: bool) -> bool {
    if ci {
        !is_blank(c) && canonical_seq(c) == canonical_seq(model) && !is_blank(model)
    } else {
        !is_blank(model) && trim_seq(c) == trim_seq(model)
    }
}

/// The stored match is the first stored spelling that matches, and there is
/// none exactly when no stored spelling matches.
pub proof fn law_first_stored_match(stored: Seq<Seq<char>>, model: Seq<char>, ci: bool)
    ensures
        first_equiv(stored, model, ci) matches Some(i) ==> 0 <= i < stored.len() && stored_matches(stored[i], model, ci)
            && forall|j: int| 0 <= j < i ==> !stored_matches(#[trigger] stored[j], model, ci),
        first_equiv(stored, model, ci) is None <==> forall|j: int|
            0 <= j < stored.len() ==> !stored_matches(#[trigger] stored[j], model, ci),
    decreases stored.len(),
{
    if stored.len() > 0 {
        let d = stored.drop_last();
        law_first_stored_match(d, model, ci);
        assert forall|j: int| 0 <= j < d.len() implies d[j] == stored[j] by {}
        assert(stored[stored.len() - 1] == stored.last());
        assert(forall|c: Seq<char>| #[trigger] equivalent_with(c, model, ci) == stored_matches(c, model, ci)) by {
            assert forall|c: Seq<char>| #[trigger] equivalent_with(c, model, ci) == stored_matches(c, model, ci) by {
                if trim_seq(c) == trim_seq(model) && !is_blank(c) {
                    assert(!is_blank(model));
                }
            }
        }
        if first_equiv(stored, model, ci) is None {
            assert forall|j: int| 0 <= j < stored.len() implies !stored_matches(#[trigger] stored[j], model, ci) by {
                if j < d.len() {
                    assert(d[j] == stored[j]);
                }
            }
        }
    }
}

/// The first match within a prefix is the first match overall.
pub proof fn lemma_first_equiv_prefix(s: Seq<Seq<char>>, model: Seq<char>, ci: bool, n: int)
    requires
        0 <= n <= s.len(),
        first_equiv(s.take(n), model, ci) is Some,
    ensures
        first_equiv(s, model, ci) == first_equiv(s.take(n), model, ci),
    decreases s.len() - n,
{
    if n < s.len() {
        assert(s.take(n + 1).drop_last() == s.take(n));
        lemma_first_equiv_prefix(s, model, ci, n + 1);
    } else {
        assert(s.take(n) == s);
    }
}

/// The first match within a prefix is the first match overall.
pub proof fn lemma_first_eq_prefix(s: Seq<Seq<char>>, target: Seq<char>, n: int)
    requires
        0 <= n <= s.len(),
        first_eq(s.take(n), target) is Some,
    ensures
        first_eq(s, target) == first_eq(s.take(n), target),
    decreases s.len() - n,
{
    if n < s.len() {
        assert(s.take(n + 1).drop_last() == s.take(n));
        lemma_first_eq_prefix(s, target, n + 1);
    } else {
        assert(s.take(n) == s);
    }
}

} // verus!

verus! {

/// An alias-map entry: the canonical (lowercase) spelling of an alias and
/// the display name of the canonical model it resolves to.
pub type AliasEntry = (Seq<char>, Seq<char>);

pub open spec fn has_key(es: Seq<AliasEntry>, k: Seq<char>) -> bool {
    exists|i: int| 0 <= i < es.len() && (#[trigger] es[i]).0 == k
}

/// `i` is the first entry of `es` whose key is `k`.
pub open spec fn key_index(es: Seq<AliasEntry>, k: Seq<char>, i: int) -> bool {
    &&& 0 <= i < es.len()
    &&& es[i].0 == k
    &&& forall|j: int| 0 <= j < i ==> (#[trigger] es[j]).0 != k
}

/// The value stored under `k` (the first entry with that key).
pub open spec fn value_for(es: Seq<AliasEntry>, k: Seq<char>) -> Seq<char> {
    es[choose|i: int| key_index(es, k, i)].1
}

pub proof fn lemma_key_index_unique(es: Seq<AliasEntry>, k: Seq<char>, i: int, j: int)
    requires
        key_index(es, k, i),
        key_index(es, k, j),
    ensures
        i == j,
{
    if i < j {
        assert(es[i].0 != k);
    } else if j < i {
        assert(es[j].0 != k);
    }
}

pub proof fn lemma_value_for(es: Seq<AliasEntry>, k: Seq<char>, i: int)
    requires
        key_index(es, k, i),
    ensures
        value_for(es, k) == es[i].1,
        has_key(es, k),
{
    let c = choose|c: int| key_index(es, k, c);
    lemma_key_index_unique(es, k, i, c);
}

/// A rule as plain values: its canonical display name and its aliases.
pub type RuleView = (Seq<char>, Seq<Seq<char>>);

/// `i` is the first blank alias.
pub open spec fn first_blank_alias(aliases: Seq<Seq<char>>, i: int) -> bool {
    &&& 0 <= i < aliases.len()
    &&& is_blank(aliases[i])
    &&& forall|j: int| 0 <= j < i ==> !is_blank(#[trigger] aliases[j])
}

/// What validating a rule in isolation reports.
pub open spec fn rule_check(canonical: Seq<char>, aliases: Seq<Seq<char>>) -> Result<(), Seq<char>> {
    if is_blank(canonical) {
        Err("canonical model name cannot be empty or whitespace-only"@)
    } else if exists|i: int| 0 <= i < aliases.len() && is_blank(#[trigger] aliases[i]) {
        let i = choose|i: int| first_blank_alias(aliases, i);
        Err("alias at index "@ + decimal_seq(i as nat) + " is empty or whitespace-only"@)
    } else {
        Ok(())
    }
}

/// Registering the first `n` aliases of a rule with display name `canonical`
/// into `es`, given the canonical keys of the rules seen so far.
pub open spec fn register_aliases(
    es: Seq<AliasEntry>,
    canonicals: Set<Seq<char>>,
    canonical: Seq<char>,
    aliases: Seq<Seq<char>>,
    n: nat,
) -> Result<Seq<AliasEntry>, Seq<char>>
    decreases n,
{
    if n == 0 || n > aliases.len() {
        Ok(es)
    } else {
        match register_aliases(es, canonicals, canonical, aliases, (n - 1) as nat) {
            Err(m) => Err(m),
            Ok(cur) => {
                let alias = aliases[n - 1];
                let key = canonical_seq(alias);
                if canonicals.contains(key) {
                    Err(
                        "alias '"@ + alias
                            + "' conflicts with a canonical name from another rule"@,
                    )
                } else if has_key(cur, key) {
                    if canonical_seq(value_for(cur, key)) != canonical_seq(canonical) {
                        Err(
                            "alias '"@ + alias + "' appears in multiple rules: '"@ + value_for(
                                cur,
                                key,
                            ) + "' and '"@ + canonical + "'"@,
                        )
                    } else {
                        Ok(cur)
                    }
                } else {
                    Ok(cur.push((key, canonical)))
                }
            },
        }
    }
}

/// Registering the first `n` rules: the alias entries and the canonical
/// keys seen, or the message of the first violation.
pub open spec fn register_rules(rules: Seq<RuleView>, n: nat) -> Result<
    (Seq<AliasEntry>, Set<Seq<char>>),
    Seq<char>,
>
    decreases n,
{
    if n == 0 || n > rules.len() {
        Ok((Seq::empty(), Set::empty()))
    } else {
        match register_rules(rules, (n - 1) as nat) {
            Err(m) => Err(m),
            Ok((es, cs)) => {
                let canonical = rules[n - 1].0;
                let aliases = rules[n - 1].1;
                match rule_check(canonical, aliases) {
                    Err(m) => Err(m),
                    Ok(_) => {
                        let ck = canonical_seq(canonical);
                        if has_key(es, ck) {
                            Err(
                                "canonical name '"@ + canonical
                                    + "' is already used as an alias in another rule"@,
                            )
                        } else {
                            let cs2 = cs.insert(ck);
                            match register_aliases(es, cs2, canonical, aliases, aliases.len()) {
                                Err(m) => Err(m),
                                Ok(es2) => Ok((es2, cs2)),
                            }
                        }
                    },
                }
            },
        }
    }
}

pub proof fn lemma_aliases_err_persists(
    es: Seq<AliasEntry>,
    cs: Set<Seq<char>>,
    canonical: Seq<char>,
    aliases: Seq<Seq<char>>,
    n: nat,
    m: nat,
)
    requires
        n <= m <= aliases.len(),
        register_aliases(es, cs, canonical, aliases, n) is Err,
    ensures
        register_aliases(es, cs, canonical, aliases, m) == register_aliases(
            es,
            cs,
            canonical,
            aliases,
            n,
        ),
    decreases m - n,
{
    if m > n {
        lemma_aliases_err_persists(es, cs, canonical, aliases, n, (m - 1) as nat);
    }
}

pub proof fn lemma_rules_err_persists(rules: Seq<RuleView>, n: nat, m: nat)
    requires
        n <= m <= rules.len(),
        register_rules(rules, n) is Err,
    ensures
        register_rules(rules, m) == register_rules(rules, n),
    decreases m - n,
{
    if m > n {
        lemma_rules_err_persists(rules, n, (m - 1) as nat);
    }
}

/// Extending the entries keeps the first entry of every key already there.
proof fn lemma_key_index_extend(es: Seq<AliasEntry>, es2: Seq<AliasEntry>, k: Seq<char>, i: int)
    requires
        key_index(es, k, i),
        es.len() <= es2.len(),
        es2.take(es.len() as int) == es,
    ensures
        key_index(es2, k, i),
        value_for(es2, k) == value_for(es, k),
{
    assert forall|j: int| 0 <= j < i implies (#[trigger] es2[j]).0 != k by {
        assert(es2[j] == es2.take(es.len() as int)[j]);
    }
    assert(es2[i] == es2.take(es.len() as int)[i]);
    lemma_value_for(es, k, i);
    lemma_value_for(es2, k, i);
}

/// Registering a rule's aliases only appends entries, and leaves each of its
/// first `n` aliases resolving to a name with the rule's canonical key.
proof fn lemma_register_aliases_resolve(
    es: Seq<AliasEntry>,
    cs: Set<Seq<char>>,
    canonical: Seq<char>,
    aliases: Seq<Seq<char>>,
    n: nat,
    es2: Seq<AliasEntry>,
)
    requires
        n <= aliases.len(),
        register_aliases(es, cs, canonical, aliases, n) == Ok::<Seq<AliasEntry>, Seq<char>>(es2),
    ensures
        es.len() <= es2.len(),
        es2.take(es.len() as int) == es,
        forall|j: int|
            0 <= j < n ==> has_key(es2, canonical_seq(#[trigger] aliases[j])) && canonical_seq(
                value_for(es2, canonical_seq(aliases[j])),
            ) == canonical_seq(canonical),
    decreases n,
{
    if n == 0 {
        assert(es2.take(es.len() as int) =~= es);
    } else {
        let cur = register_aliases(es, cs, canonical, aliases, (n - 1) as nat)->Ok_0;
        lemma_register_aliases_resolve(es, cs, canonical, aliases, (n - 1) as nat, cur);
        let key = canonical_seq(aliases[n - 1]);
        if !has_key(cur, key) {
            assert(es2 == cur.push((key, canonical)));
            assert(es2.take(es.len() as int) =~= cur.take(es.len() as int));
            assert(es2.take(cur.len() as int) =~= cur);
            assert forall|j: int| 0 <= j < n implies has_key(es2, canonical_seq(#[trigger] aliases[j]))
                && canonical_seq(value_for(es2, canonical_seq(aliases[j]))) == canonical_seq(canonical) by {
                let kj = canonical_seq(aliases[j]);
                if j < n - 1 {
                    let i = choose|i: int| key_index(cur, kj, i);
                    assert(key_index(cur, kj, i)) by {
                        let w = choose|w: int| 0 <= w < cur.len() && (#[trigger] cur[w]).0 == kj;
                        lemma_first_key_index(cur, kj, w);
                    }
                    lemma_key_index_extend(cur, es2, kj, i);
                } else {
                    assert(key_index(es2, key, cur.len() as int));
                    lemma_value_for(es2, key, cur.len() as int);
                }
            }
        } else {
            assert(es2 == cur);
            let i = choose|i: int| key_index(cur, key, i);
            assert(key_index(cur, key, i)) by {
                let w = choose|w: int| 0 <= w < cur.len() && (#[trigger] cur[w]).0 == key;
                lemma_first_key_index(cur, key, w);
            }
        }
    }
}

/// Some entry with key `k` exists from index `w` on: a first one exists.
pub proof fn lemma_first_key_index(es: Seq<AliasEntry>, k: Seq<char>, w: int)
    requires
        0 <= w < es.len(),
        es[w].0 == k,
    ensures
        exists|i: int| key_index(es, k, i),
    decreases w,
{
    if exists|j: int| 0 <= j < w && (#[trigger] es[j]).0 == k {
        let j = choose|j: int| 0 <= j < w && (#[trigger] es[j]).0 == k;
        lemma_first_key_index(es, k, j);
    } else {
        assert(key_index(es, k, w));
    }
}

/// After the first `n` rules registered without error, each of their
/// canonicals and aliases is non-blank and each alias resolves to a name
/// with its own rule's canonical key.
proof fn lemma_register_rules_resolve(rules: Seq<RuleView>, n: nat)
    requires
        n <= rules.len(),
        register_rules(rules, n) is Ok,
    ensures
        forall|k: int| 0 <= k < n ==> !is_blank(#[trigger] rules[k].0),
        ({
            let es = register_rules(rules, n)->Ok_0.0;
            forall|k: int, j: int|
                0 <= k < n && 0 <= j < rules[k].1.len() ==> !is_blank(
                    #[trigger] rules[k].1[j],
                ) && has_key(es, canonical_seq(rules[k].1[j])) && canonical_seq(
                    value_for(es, canonical_seq(rules[k].1[j])),
                ) == canonical_seq(rules[k].0)
        }),
    decreases n,
{
    if n > 0 {
        lemma_register_rules_resolve(rules, (n - 1) as nat);
        let (es, cs) = register_rules(rules, (n - 1) as nat)->Ok_0;
        let canonical = rules[n - 1].0;
        let aliases = rules[n - 1].1;
        let cs2 = cs.insert(canonical_seq(canonical));
        let es2 = register_aliases(es, cs2, canonical, aliases, aliases.len())->Ok_0;
        lemma_register_aliases_resolve(es, cs2, canonical, aliases, aliases.len(), es2);
        assert(register_rules(rules, n)->Ok_0.0 == es2);
        assert(rule_check(canonical, aliases) is Ok);
        assert forall|k: int| 0 <= k < n implies !is_blank(#[trigger] rules[k].0) by {
            if k == n - 1 {
                assert(!is_blank(canonical));
            }
        }
        assert forall|k: int, j: int|
            0 <= k < n && 0 <= j < rules[k].1.len() implies !is_blank(
                #[trigger] rules[k].1[j],
            ) && has_key(es2, canonical_seq(rules[k].1[j])) && canonical_seq(
                value_for(es2, canonical_seq(rules[k].1[j])),
            ) == canonical_seq(rules[k].0) by {
            if k < n - 1 {
                let kj = canonical_seq(rules[k].1[j]);
                let i = choose|i: int| key_index(es, kj, i);
                assert(key_index(es, kj, i)) by {
                    let w = choose|w: int| 0 <= w < es.len() && (#[trigger] es[w]).0 == kj;
                    lemma_first_key_index(es, kj, w);
                }
                lemma_key_index_extend(es, es2, kj, i);
            } else {
                if is_blank(aliases[j]) {
                    assert(exists|x: int| 0 <= x < aliases.len() && is_blank(#[trigger] aliases[x]));
                }
            }
        }
    }
}

/// No alias key is the canonical key of a name an alias resolves to.
pub open spec fn aliases_apart(es: Seq<AliasEntry>) -> bool {
    forall|i: int| 0 <= i < es.len() ==> !has_key(es, canonical_seq(#[trigger] es[i].1))
}

/// Every entry's name has its canonical key among `cs`, and no entry's key
/// is among `cs`.
pub open spec fn keys_outside(es: Seq<AliasEntry>, cs: Set<Seq<char>>) -> bool {
    forall|i: int| 0 <= i < es.len() ==> cs.contains(canonical_seq((#[trigger] es[i]).1)) && !cs.contains(es[i].0)
}

proof fn lemma_register_aliases_outside(
    es: Seq<AliasEntry>,
    cs: Set<Seq<char>>,
    canonical: Seq<char>,
    aliases: Seq<Seq<char>>,
    n: nat,
    es2: Seq<AliasEntry>,
)
    requires
        n <= aliases.len(),
        keys_outside(es, cs),
        cs.contains(canonical_seq(canonical)),
        register_aliases(es, cs, canonical, aliases, n) == Ok::<Seq<AliasEntry>, Seq<char>>(es2),
    ensures
        keys_outside(es2, cs),
    decreases n,
{
    if n > 0 {
        let cur = register_aliases(es, cs, canonical, aliases, (n - 1) as nat)->Ok_0;
        lemma_register_aliases_outside(es, cs, canonical, aliases, (n - 1) as nat, cur);
        let key = canonical_seq(aliases[n - 1]);
        if !has_key(cur, key) {
            assert forall|i: int| 0 <= i < es2.len() implies cs.contains(canonical_seq((#[trigger] es2[i]).1))
                && !cs.contains(es2[i].0) by {
                if i < cur.len() {
                    assert(es2[i] == cur[i]);
                }
            }
        }
    }
}

proof fn lemma_register_rules_outside(rules: Seq<RuleView>, n: nat)
    requires
        n <= rules.len(),
        register_rules(rules, n) is Ok,
    ensures
        keys_outside(register_rules(rules, n)->Ok_0.0, register_rules(rules, n)->Ok_0.1),
    decreases n,
{
    if n > 0 {
        lemma_register_rules_outside(rules, (n - 1) as nat);
        let (es, cs) = register_rules(rules, (n - 1) as nat)->Ok_0;
        let canonical = rules[n - 1].0;
        let aliases = rules[n - 1].1;
        let ck = canonical_seq(canonical);
        let cs2 = cs.insert(ck);
        assert forall|i: int| 0 <= i < es.len() implies cs2.contains(canonical_seq((#[trigger] es[i]).1)) && !cs2.contains(
            es[i].0,
        ) by {
            if es[i].0 == ck {
                assert(has_key(es, ck));
            }
        }
        let es2 = register_aliases(es, cs2, canonical, aliases, aliases.len())->Ok_0;
        lemma_register_aliases_outside(es, cs2, canonical, aliases, aliases.len(), es2);
    }
}

/// In a registry built from rules, no alias resolves to a name whose
/// canonical key is itself an alias: resolving twice changes nothing.
pub proof fn law_registered_aliases_apart(rules: Seq<RuleView>)
    requires
        register_rules(rules, rules.len()) is Ok,
    ensures
        aliases_apart(register_rules(rules, rules.len())->Ok_0.0),
{
    lemma_register_rules_outside(rules, rules.len());
    let (es, cs) = register_rules(rules, rules.len())->Ok_0;
    assert forall|i: int| 0 <= i < es.len() implies !has_key(es, canonical_seq(#[trigger] es[i].1)) by {
        if has_key(es, canonical_seq(es[i].1)) {
            let j = choose|j: int| 0 <= j < es.len() && (#[trigger] es[j]).0 == canonical_seq(es[i].1);
            assert(cs.contains(canonical_seq(es[i].1)));
            assert(!cs.contains(es[j].0));
        }
    }
}

/// Every rule of a registry built from `rules` has a non-blank canonical and
/// non-blank aliases, and each alias resolves to a name with the canonical
/// key of its own rule.
pub proof fn law_aliases_resolve_to_their_rule(rules: Seq<RuleView>)
    requires
        register_rules(rules, rules.len()) is Ok,
    ensures
        forall|k: int| 0 <= k < rules.len() ==> !is_blank(#[trigger] rules[k].0),
        forall|k: int, j: int|
            0 <= k < rules.len() && 0 <= j < rules[k].1.len() ==> !is_blank(
                #[trigger] rules[k].1[j],
            ) && (resolve_spec(register_rules(rules, rules.len())->Ok_0.0, rules[k].1[j]) matches Some(c)
                && canonical_seq(c) == canonical_seq(rules[k].0)),
{
    lemma_register_rules_resolve(rules, rules.len());
}

/// B2: an explicit alias rule: the canonical display name and the other
/// spellings that resolve to it.
#[derive(Clone, Debug, PartialEq, Eq)]
pub struct ModelAliasRule {
    /// The canonical name displayed downstream and used in internal keys.
    pub canonical: String,
    /// Other spellings that resolve to `canonical`, matched canonically.
    pub aliases: Vec<String>,
}

impl ModelAliasRule {
    pub open spec fn view_rule(self) -> RuleView {
        (self.canonical@, views(self.aliases@))
    }

    /// Validate this rule in isolation (non-blank canonical and aliases).
    pub fn validate_self(&self) -> (r: Result<(), String>)
        ensures
            match (r, rule_check(self.canonical@, views(self.aliases@))) {
                (Ok(_), Ok(_)) => true,
                (Err(m), Err(sm)) => m@ == sm,
                _ => false,
            },
    {
        if blank(self.canonical.as_str()) {
            return Err(owned("canonical model name cannot be empty or whitespace-only"));
        }
        let ghost al = views(self.aliases@);
        for i in 0..self.aliases.len()
            invariant
                al == views(self.aliases@),
                !is_blank(self.canonical@),
                forall|j: int| 0 <= j < i ==> !is_blank(#[trigger] al[j]),
        {
            assert(al[i as int] == self.aliases@[i as int]@);
            if blank(self.aliases[i].as_str()) {
                proof {
                    assert(first_blank_alias(al, i as int));
                    let k = choose|k: int| first_blank_alias(al, k);
                    if k < i {
                        assert(!is_blank(al[k]));
                    } else if k > i {
                        assert(!is_blank(al[i as int]));
                    }
                }
                let mut m = owned("alias at index ");
                push_text(&mut m, decimal_text(i).as_str());
                push_text(&mut m, " is empty or whitespace-only");
                return Err(m);
            }
        }
        Ok(())
    }
}

pub open spec fn rules_view(rules: Seq<ModelAliasRule>) -> Seq<RuleView> {
    rules.map_values(|r: ModelAliasRule| r.view_rule())
}

pub open spec fn entries_view(v: Seq<(String, String)>) -> Seq<AliasEntry> {
    v.map_values(|p: (String, String)| (p.0@, p.1@))
}

/// B2: registry of explicit alias rules.
#[derive(Clone, Debug)]
pub struct ModelAliasRegistry {
    rules: Vec<ModelAliasRule>,
    /// canonical alias spelling -> canonical display name, in insertion order.
    alias_to_canonical: Vec<(String, String)>,
}

/// Index of the first entry whose key is `key`.
fn find_entry(entries: &Vec<(String, String)>, key: &Vec<char>) -> (r: Option<usize>)
    ensures
        match r {
            Some(i) => key_index(entries_view(entries@), key@, i as int),
            None => !has_key(entries_view(entries@), key@),
        },
{
    let ghost es = entries_view(entries@);
    for i in 0..entries.len()
        invariant
            es == entries_view(entries@),
            forall|j: int| 0 <= j < i ==> (#[trigger] es[j]).0 != key@,
    {
        if chars_eq(&chars_of(entries[i].0.as_str()), key) {
            return Some(i);
        }
    }
    None
}

fn contains_chars(seen: &Vec<Vec<char>>, key: &Vec<char>) -> (r: bool)
    ensures
        r == seen@.map_values(|v: Vec<char>| v@).contains(key@),
{
    let ghost sv = seen@.map_values(|v: Vec<char>| v@);
    for i in 0..seen.len()
        invariant
            sv == seen@.map_values(|v: Vec<char>| v@),
            forall|j: int| 0 <= j < i ==> sv[j] != key@,
    {
        if chars_eq(&seen[i], key) {
            assert(sv[i as int] == key@);
            return true;
        }
    }
    false
}

impl Default for ModelAliasRegistry {
    fn default() -> (r: Self)
        ensures
            r.entries().len() == 0,
            r.rule_views().len() == 0,
    {
        ModelAliasRegistry { rules: Vec::new(), alias_to_canonical: Vec::new() }
    }
}

impl ModelAliasRegistry {
    /// The alias entries, in registration order.
    pub closed spec fn entries(self) -> Seq<AliasEntry> {
        entries_view(self.alias_to_canonical@)
    }

    /// The rules the registry was built from.
    pub closed spec fn rule_views(self) -> Seq<RuleView> {
        rules_view(self.rules@)
    }

    /// A copy with the same rules and aliases.
    pub fn duplicate(&self) -> (r: Self)
        ensures
            r.entries() == self.entries(),
            r.rule_views() == self.rule_views(),
    {
        let mut rules: Vec<ModelAliasRule> = Vec::new();
        for i in 0..self.rules.len()
            invariant
                rules@.len() == i,
                forall|j: int| 0 <= j < i ==> (#[trigger] rules@[j]).view_rule() == self.rules@[j].view_rule(),
        {
            rules.push(
                ModelAliasRule {
                    canonical: self.rules[i].canonical.clone(),
                    aliases: clone_strings(&self.rules[i].aliases),
                },
            );
        }
        assert(rules_view(rules@) =~= rules_view(self.rules@));
        let mut pairs: Vec<(String, String)> = Vec::new();
        for i in 0..self.alias_to_canonical.len()
            invariant
                pairs@.len() == i,
                forall|j: int| 0 <= j < i ==> (#[trigger] pairs@[j]) == self.alias_to_canonical@[j],
        {
            pairs.push((self.alias_to_canonical[i].0.clone(), self.alias_to_canonical[i].1.clone()));
        }
        assert(entries_view(pairs@) =~= entries_view(self.alias_to_canonical@));
        ModelAliasRegistry { rules, alias_to_canonical: pairs }
    }

    /// The empty registry: no rules, no aliases.
    pub fn new_empty() -> (r: Self)
        ensures
            r.entries().len() == 0,
            r.rule_views().len() == 0,
    {
        ModelAliasRegistry { rules: Vec::new(), alias_to_canonical: Vec::new() }
    }

    /// Build a registry from rules, in order. Fails with the message of the
    /// first violation: a blank canonical or alias, a canonical already used
    /// as an alias, an alias equal to a canonical, or an alias shared by rules
    /// with different canonicals.
    #[verifier::loop_isolation(false)]
    pub fn from_rules(rules: Vec<ModelAliasRule>) -> (r: Result<Self, String>)
        ensures
            match (r, register_rules(rules_view(rules@), rules@.len())) {
                (Ok(reg), Ok((es, _))) => reg.entries() == es && reg.rule_views() == rules_view(
                    rules@,
                ),
                (Err(m), Err(sm)) => m@ == sm,
                _ => false,
            },
    {
        let ghost rv = rules_view(rules@);
        let mut entries: Vec<(String, String)> = Vec::new();
        let mut seen: Vec<Vec<char>> = Vec::new();
        let ghost mut cs: Set<Seq<char>> = Set::empty();
        assert(entries_view(entries@) =~= Seq::<AliasEntry>::empty());
        for i in 0..rules.len()
            invariant
                rv == rules_view(rules@),
                rv.len() == rules@.len(),
                register_rules(rv, i as nat) == Ok::<_, Seq<char>>((entries_view(entries@), cs)),
                forall|x: Seq<char>|
                    cs.contains(x) <==> seen@.map_values(|v: Vec<char>| v@).contains(x),
        {
            let ghost es0 = entries_view(entries@);
            let ghost cs0 = cs;
            let rule = &rules[i];
            assert(rv[i as int] == rule.view_rule());
            match rule.validate_self() {
                Err(m) => {
                    proof {
                        lemma_rules_err_persists(rv, (i + 1) as nat, rv.len());
                    }
                    return Err(m);
                },
                Ok(_) => {},
            }
            let ck = canonical_chars(rule.canonical.as_str());
            match find_entry(&entries, &ck) {
                Some(_) => {
                    let mut m = owned("canonical name '");
                    push_text(&mut m, rule.canonical.as_str());
                    push_text(&mut m, "' is already used as an alias in another rule");
                    proof {
                        lemma_rules_err_persists(rv, (i + 1) as nat, rv.len());
                    }
                    return Err(m);
                },
                None => {},
            }
            let ghost sv0 = seen@.map_values(|v: Vec<char>| v@);
            seen.push(ck);
            proof {
                cs = cs.insert(ck@);
                let sv = seen@.map_values(|v: Vec<char>| v@);
                assert(sv =~= sv0.push(ck@));
                assert forall|x: Seq<char>| cs.contains(x) <==> sv.contains(x) by {
                    if sv.contains(x) {
                        let k = choose|k: int| 0 <= k < sv.len() && sv[k] == x;
                        if k < sv.len() - 1 {
                            assert(sv0[k] == x);
                        }
                    }
                    if sv0.contains(x) {
                        let k = choose|k: int| 0 <= k < sv0.len() && sv0[k] == x;
                        assert(sv[k] == x);
                    }
                    if x == ck@ {
                        assert(sv[sv.len() - 1] == x);
                    }
                }
            }
            let ghost cs2 = cs;
            let ghost al = views(rule.aliases@);
            for j in 0..rule.aliases.len()
                invariant
                    al == views(rule.aliases@),
                    register_aliases(es0, cs2, rule.canonical@, al, j as nat) == Ok::<
                        _,
                        Seq<char>,
                    >(entries_view(entries@)),
                    cs2 == cs,
                    forall|x: Seq<char>|
                        cs.contains(x) <==> seen@.map_values(|v: Vec<char>| v@).contains(x),
            {
                let alias = &rule.aliases[j];
                assert(al[j as int] == alias@);
                let key = canonical_chars(alias.as_str());
                if contains_chars(&seen, &key) {
                    let mut m = owned("alias '");
                    push_text(&mut m, alias.as_str());
                    push_text(&mut m, "' conflicts with a canonical name from another rule");
                    proof {
                        lemma_aliases_err_persists(es0, cs2, rule.canonical@, al, (j + 1) as nat, al.len());
                        lemma_rules_err_persists(rv, (i + 1) as nat, rv.len());
                    }
                    return Err(m);
                }
                match find_entry(&entries, &key) {
                    Some(k) => {
                        proof {
                            lemma_value_for(entries_view(entries@), key@, k as int);
                        }
                        let existing = canonical_chars(entries[k].1.as_str());
                        let own = canonical_chars(rule.canonical.as_str());
                        if !chars_eq(&existing, &own) {
                            let mut m = owned("alias '");
                            push_text(&mut m, alias.as_str());
                            push_text(&mut m, "' appears in multiple rules: '");
                            push_text(&mut m, entries[k].1.as_str());
                            push_text(&mut m, "' and '");
                            push_text(&mut m, rule.canonical.as_str());
                            push_text(&mut m, "'");
                            proof {
                                lemma_aliases_err_persists(
                                    es0,
                                    cs2,
                                    rule.canonical@,
                                    al,
                                    (j + 1) as nat,
                                    al.len(),
                                );
                                lemma_rules_err_persists(rv, (i + 1) as nat, rv.len());
                            }
                            return Err(m);
                        }
                    },
                    None => {
                        let key_text = string_from_chars(&key);
                        let ghost before = entries_view(entries@);
                        entries.push((key_text, rule.canonical.clone()));
                        assert(entries_view(entries@) =~= before.push((key@, rule.canonical@)));
                    },
                }
            }
        }
        assert(rules@.len() == rv.len());
        let reg = ModelAliasRegistry { rules, alias_to_canonical: entries };
        Ok(reg)
    }
}

/// What an alias lookup of `model` yields over entries `es`.
pub open spec fn resolve_spec(es: Seq<AliasEntry>, model: Seq<char>) -> Option<Seq<char>> {
    let key = canonical_seq(model);
    if key.len() == 0 || !has_key(es, key) {
        None
    } else {
        Some(value_for(es, key))
    }
}

/// Whether `model` names the canonical `canonical`, directly or through an alias.
pub open spec fn matches_canonical_spec(es: Seq<AliasEntry>, model: Seq<char>, canonical: Seq<
    char,
>) -> bool {
    let mk = canonical_seq(model);
    let ck = canonical_seq(canonical);
    if mk.len() == 0 || ck.len() == 0 {
        false
    } else if mk == ck {
        true
    } else if has_key(es, mk) {
        canonical_seq(value_for(es, mk)) == ck
    } else {
        false
    }
}

/// The alias keys of `es` (in order) whose canonical resolves to `ck`.
pub open spec fn keys_resolving_to(es: Seq<AliasEntry>, ck: Seq<char>) -> Seq<Seq<char>>
    decreases es.len(),
{
    if es.len() == 0 {
        Seq::empty()
    } else {
        keys_resolving_to(es.drop_last(), ck) + if canonical_seq(es.last().1) == ck {
            seq![es.last().0]
        } else {
            Seq::empty()
        }
    }
}

/// Every spelling that resolves to `canonical`, in canonical form: the
/// canonical key first, then the alias keys in registration order.
pub open spec fn spellings_spec(es: Seq<AliasEntry>, canonical: Seq<char>) -> Seq<Seq<char>> {
    let ck = canonical_seq(canonical);
    if ck.len() == 0 {
        Seq::empty()
    } else {
        seq![ck] + keys_resolving_to(es, ck)
    }
}

impl ModelAliasRegistry {
    /// Resolve a model name to the display name of the rule whose alias it
    /// matches (canonically); `None` when it matches no alias.
    pub fn resolve_alias(&self, model: &str) -> (r: Option<&str>)
        ensures
            match r {
                Some(s) => resolve_spec(self.entries(), model@) == Some(s@),
                None => resolve_spec(self.entries(), model@) is None,
            },
    {
        let key = canonical_chars(model);
        if key.len() == 0 {
            return None;
        }
        match find_entry(&self.alias_to_canonical, &key) {
            Some(i) => {
                proof {
                    lemma_value_for(self.entries(), key@, i as int);
                }
                Some(self.alias_to_canonical[i].1.as_str())
            },
            None => None,
        }
    }

    /// Whether `model` is `canonical` or one of its aliases (canonically).
    pub fn matches_canonical(&self, model: &str, canonical: &str) -> (r: bool)
        ensures
            r == matches_canonical_spec(self.entries(), model@, canonical@),
    {
        let model_key = canonical_chars(model);
        let canonical_key = canonical_chars(canonical);
        if model_key.len() == 0 || canonical_key.len() == 0 {
            return false;
        }
        if chars_eq(&model_key, &canonical_key) {
            return true;
        }
        match find_entry(&self.alias_to_canonical, &model_key) {
            Some(i) => {
                proof {
                    lemma_value_for(self.entries(), model_key@, i as int);
                }
                chars_eq(&canonical_chars(self.alias_to_canonical[i].1.as_str()), &canonical_key)
            },
            None => false,
        }
    }

    /// All spellings (canonical and aliases) resolving to `canonical`, in
    /// canonical lowercase form.
    pub fn all_spellings_for_canonical(&self, canonical: &str) -> (r: Vec<String>)
        ensures
            views(r@) == spellings_spec(self.entries(), canonical@),
    {
        let canonical_key = canonical_chars(canonical);
        if canonical_key.len() == 0 {
            let r: Vec<String> = Vec::new();
            assert(views(r@) =~= Seq::<Seq<char>>::empty());
            return r;
        }
        let mut spellings: Vec<String> = Vec::new();
        spellings.push(string_from_chars(&canonical_key));
        let ghost es = self.entries();
        for i in 0..self.alias_to_canonical.len()
            invariant
                es == self.entries(),
                es.len() == self.alias_to_canonical@.len(),
                views(spellings@) =~= seq![canonical_key@] + keys_resolving_to(
                    es.take(i as int),
                    canonical_key@,
                ),
        {
            assert(es.take(i + 1).drop_last() == es.take(i as int));
            assert(es.take(i + 1).last() == es[i as int]);
            assert(es[i as int] == (
                self.alias_to_canonical@[i as int].0@,
                self.alias_to_canonical@[i as int].1@,
            ));
            let ghost before = views(spellings@);
            let resolved = canonical_chars(self.alias_to_canonical[i].1.as_str());
            if chars_eq(&resolved, &canonical_key) {
                spellings.push(self.alias_to_canonical[i].0.clone());
                assert(views(spellings@) =~= before + seq![es[i as int].0]);
            } else {
                assert(views(spellings@) =~= before + Seq::<Seq<char>>::empty());
            }
        }
        assert(es.take(es.len() as int) == es);
        spellings
    }

    /// The rules the registry was built from.
    pub fn rules(&self) -> (r: &[ModelAliasRule])
        ensures
            rules_view(r@) == self.rule_views(),
    {
        self.rules.as_slice()
    }
}

} // verus!
