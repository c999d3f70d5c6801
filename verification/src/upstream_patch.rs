//! Partial updates of an upstream from an admin request: keys replaced or
//! merged, per-key model lists, protocols, context windows, limits and
//! flags, then the stored form and its checks.
use vstd::prelude::*;
use crate::config::{
    key_models_view, ApiKeyModelConfig, DefaultModelContextConfig, KeyModelsView, ModelContextConfig,
    UpstreamConfig, DEFAULT_MODEL_CONTEXT_OUTPUT_RESERVE,
};
use crate::freekey_sync::{merge_api_key_models, merge_api_keys, merged_key_models, merged_keys};
use crate::normalize::{
    concat_strings, contexts_view, default_view, flatten_models, normalized_list, ContextView,
    DefaultContextView,
};
use crate::patch::{
    bool_of, field_of, flexible_u64, get_field, parse_u64_flexible, strings_in, text_of, texts_in,
    unsigned_of, PatchValue,
};
use crate::text::{blank, chars_eq, chars_of, clone_strings, contains_text, owned, str_eq, trim_seq, trimmed, trimmed_chars, views};

verus! {

/// The fields of an object; nothing for other values.
pub open spec fn object_fields(v: PatchValue) -> Seq<(String, PatchValue)> {
    match v {
        PatchValue::Object(fs) => fs@,
        _ => Seq::empty(),
    }
}

/// The items of the array in field `key`, if it holds an array.
pub open spec fn array_field(updates: Seq<(String, PatchValue)>, key: Seq<char>) -> Option<Seq<PatchValue>> {
    match field_of(updates, key) {
        Some(PatchValue::Array(items)) => Some(items@),
        _ => None,
    }
}

/// A per-key entry read from an object with a string `api_key` and an array
/// `supported_models` (its strings).
pub open spec fn key_models_entry(v: PatchValue) -> Option<KeyModelsView> {
    let fs = object_fields(v);
    match (text_of(field_of(fs, "api_key"@)), field_of(fs, "supported_models"@)) {
        (Some(k), Some(PatchValue::Array(ms))) => Some((k, texts_in(ms@))),
        _ => None,
    }
}

/// The per-key entries read from `items`, in order.
pub open spec fn incoming_key_models(items: Seq<PatchValue>) -> Seq<KeyModelsView>
    decreases items.len(),
{
    if items.len() == 0 {
        Seq::empty()
    } else {
        let rest = incoming_key_models(items.drop_last());
        match key_models_entry(items.last()) {
            Some(e) => rest.push(e),
            None => rest,
        }
    }
}

/// The keys a replacement allows: the explicit key, and every non-blank
/// trimmed key of the new key list.
pub open spec fn replacement_set(explicit: Option<Seq<char>>, keys: Seq<Seq<char>>) -> Set<Seq<char>> {
    Set::new(
        |k: Seq<char>|
            explicit == Some(k) || (k.len() > 0 && exists|i: int| 0 <= i < keys.len() && trim_seq(#[trigger] keys[i]) == k),
    )
}

/// The per-key entries read from `items` with their keys trimmed, keeping
/// those whose key is allowed.
pub open spec fn replacement_key_models(items: Seq<PatchValue>, allowed: Set<Seq<char>>) -> Seq<KeyModelsView>
    decreases items.len(),
{
    if items.len() == 0 {
        Seq::empty()
    } else {
        let rest = replacement_key_models(items.drop_last(), allowed);
        match key_models_entry(items.last()) {
            Some(e) => if allowed.contains(trim_seq(e.0)) {
                rest.push((trim_seq(e.0), e.1))
            } else {
                rest
            },
            None => rest,
        }
    }
}

fn key_models_entry_exec(v: &PatchValue) -> (r: Option<ApiKeyModelConfig>)
    ensures
        match key_models_entry(*v) {
            Some(e) => r matches Some(c) && c.api_key@ == e.0 && views(c.supported_models@) == e.1,
            None => r is None,
        },
{
    match v {
        PatchValue::Object(fs) => {
            match get_field(fs, "api_key") {
                Some(PatchValue::Text(k)) => match get_field(fs, "supported_models") {
                    Some(PatchValue::Array(ms)) => Some(
                        ApiKeyModelConfig { api_key: k.clone(), supported_models: strings_in(ms) },
                    ),
                    _ => None,
                },
                _ => None,
            }
        },
        _ => None,
    }
}

/// The per-key entries read from `items`.
pub fn parse_key_models(items: &Vec<PatchValue>) -> (r: Vec<ApiKeyModelConfig>)
    ensures
        key_models_view(r@) == incoming_key_models(items@),
{
    let mut r: Vec<ApiKeyModelConfig> = Vec::new();
    for i in 0..items.len()
        invariant
            key_models_view(r@) == incoming_key_models(items@.take(i as int)),
    {
        assert(items@.take(i + 1).drop_last() == items@.take(i as int));
        match key_models_entry_exec(&items[i]) {
            Some(c) => {
                let ghost before = key_models_view(r@);
                r.push(c);
                assert(key_models_view(r@) == before.push((c.api_key@, views(c.supported_models@))));
            },
            None => {},
        }
    }
    assert(items@.take(items@.len() as int) == items@);
    r
}

fn allowed_key(explicit: &Option<String>, keys: &Vec<String>, k: &str) -> (r: bool)
    ensures
        r == replacement_set(
            match explicit {
                Some(e) => Some(e@),
                None => None,
            },
            views(keys@),
        ).contains(k@),
{
    let ghost ex = match explicit {
        Some(e) => Some(e@),
        None => None::<Seq<char>>,
    };
    if let Some(e) = explicit {
        if str_eq(e.as_str(), k) {
            return true;
        }
    }
    let kc = chars_of(k);
    if kc.len() == 0 {
        return false;
    }
    let ghost kv = views(keys@);
    for j in 0..keys.len()
        invariant
            kv == views(keys@),
            kc@ == k@,
            k@.len() > 0,
            forall|x: int| 0 <= x < j ==> trim_seq(#[trigger] kv[x]) != k@,
    {
        assert(kv[j as int] == keys@[j as int]@);
        if chars_eq(&trimmed_chars(keys[j].as_str()), &kc) {
            return true;
        }
    }
    false
}

/// The per-key entries read from `items` with trimmed keys, keeping those
/// the replacement allows.
pub fn parse_replacement_key_models(items: &Vec<PatchValue>, explicit: &Option<String>, keys: &Vec<String>) -> (r: Vec<
    ApiKeyModelConfig,
>)
    ensures
        key_models_view(r@) == replacement_key_models(
            items@,
            replacement_set(
                match explicit {
                    Some(e) => Some(e@),
                    None => None,
                },
                views(keys@),
            ),
        ),
{
    let ghost allowed = replacement_set(
        match explicit {
            Some(e) => Some(e@),
            None => None,
        },
        views(keys@),
    );
    let mut r: Vec<ApiKeyModelConfig> = Vec::new();
    for i in 0..items.len()
        invariant
            allowed == replacement_set(
                match explicit {
                    Some(e) => Some(e@),
                    None => None,
                },
                views(keys@),
            ),
            key_models_view(r@) == replacement_key_models(items@.take(i as int), allowed),
    {
        assert(items@.take(i + 1).drop_last() == items@.take(i as int));
        match key_models_entry_exec(&items[i]) {
            Some(c) => {
                let k = trimmed(c.api_key.as_str());
                if allowed_key(explicit, keys, k.as_str()) {
                    let ghost before = key_models_view(r@);
                    let entry = ApiKeyModelConfig { api_key: k, supported_models: c.supported_models };
                    r.push(entry);
                    assert(key_models_view(r@) == before.push((entry.api_key@, views(entry.supported_models@))));
                }
            },
            None => {},
        }
    }
    assert(items@.take(items@.len() as int) == items@);
    r
}

/// A count of an object field read flexibly, or `default`.
pub open spec fn count_or(fs: Seq<(String, PatchValue)>, key: Seq<char>, default: u64) -> u64 {
    match flexible_u64(field_of(fs, key)) {
        Some(n) => n,
        None => default,
    }
}

/// A string of an object field, or the empty string.
pub open spec fn text_or_empty(fs: Seq<(String, PatchValue)>, key: Seq<char>) -> Seq<char> {
    match text_of(field_of(fs, key)) {
        Some(t) => t,
        None => Seq::empty(),
    }
}

/// A context window read from an object with a string `slug` and a
/// `context_limit`; the reserve defaults to the standard one, the output cap
/// to zero, the group to empty. Counts are cut to 32 bits.
pub open spec fn context_entry(v: PatchValue) -> Option<ContextView> {
    let fs = object_fields(v);
    match (text_of(field_of(fs, "slug"@)), flexible_u64(field_of(fs, "context_limit"@))) {
        (Some(slug), Some(limit)) => Some(
            (
                slug,
                limit as u32,
                count_or(fs, "output_reserve"@, DEFAULT_MODEL_CONTEXT_OUTPUT_RESERVE as u64) as u32,
                count_or(fs, "max_output_tokens"@, 0) as u32,
                text_or_empty(fs, "context_group"@),
            ),
        ),
        _ => None,
    }
}

/// The context windows read from `items`, in order.
pub open spec fn contexts_in(items: Seq<PatchValue>) -> Seq<ContextView>
    decreases items.len(),
{
    if items.len() == 0 {
        Seq::empty()
    } else {
        let rest = contexts_in(items.drop_last());
        match context_entry(items.last()) {
            Some(c) => rest.push(c),
            None => rest,
        }
    }
}

/// The default context window read from a value (missing limit: zero).
pub open spec fn default_context_from(v: PatchValue) -> DefaultContextView {
    let fs = object_fields(v);
    (
        count_or(fs, "context_limit"@, 0) as u32,
        count_or(fs, "output_reserve"@, DEFAULT_MODEL_CONTEXT_OUTPUT_RESERVE as u64) as u32,
        count_or(fs, "max_output_tokens"@, 0) as u32,
        text_or_empty(fs, "context_group"@),
    )
}

fn count_or_exec(fs: &Vec<(String, PatchValue)>, key: &str, default: u64) -> (r: u64)
    ensures
        r == count_or(fs@, key@, default),
{
    match get_field(fs, key) {
        Some(v) => match parse_u64_flexible(v) {
            Some(n) => n,
            None => default,
        },
        None => default,
    }
}

fn text_or_empty_exec(fs: &Vec<(String, PatchValue)>, key: &str) -> (r: String)
    ensures
        r@ == text_or_empty(fs@, key@),
{
    match get_field(fs, key) {
        Some(PatchValue::Text(t)) => t.clone(),
        _ => String::new(),
    }
}

fn empty_fields() -> (r: Vec<(String, PatchValue)>)
    ensures
        r@ == Seq::<(String, PatchValue)>::empty(),
{
    Vec::new()
}

fn context_entry_exec(v: &PatchValue) -> (r: Option<ModelContextConfig>)
    ensures
        match context_entry(*v) {
            Some(c) => r matches Some(x) && contexts_view(seq![x]) == seq![c],
            None => r is None,
        },
{
    match v {
        PatchValue::Object(fs) => {
            let slug = match get_field(fs, "slug") {
                Some(PatchValue::Text(t)) => t.clone(),
                _ => {
                    return None;
                },
            };
            let limit = match get_field(fs, "context_limit") {
                Some(x) => match parse_u64_flexible(x) {
                    Some(n) => n,
                    None => {
                        return None;
                    },
                },
                None => {
                    return None;
                },
            };
            let reserve = count_or_exec(fs, "output_reserve", DEFAULT_MODEL_CONTEXT_OUTPUT_RESERVE as u64);
            let cap = count_or_exec(fs, "max_output_tokens", 0);
            let group = text_or_empty_exec(fs, "context_group");
            let x = ModelContextConfig {
                slug: slug,
                context_limit: limit as u32,
                output_reserve: reserve as u32,
                max_output_tokens: cap as u32,
                context_group: group,
            };
            assert(contexts_view(seq![x]) =~= seq![(x.slug@, x.context_limit, x.output_reserve, x.max_output_tokens, x.context_group@)]);
            Some(x)
        },
        _ => None,
    }
}

/// The context windows read from `items`.
pub fn parse_model_contexts(items: &Vec<PatchValue>) -> (r: Vec<ModelContextConfig>)
    ensures
        contexts_view(r@) == contexts_in(items@),
{
    let mut r: Vec<ModelContextConfig> = Vec::new();
    for i in 0..items.len()
        invariant
            contexts_view(r@) == contexts_in(items@.take(i as int)),
    {
        assert(items@.take(i + 1).drop_last() == items@.take(i as int));
        match context_entry_exec(&items[i]) {
            Some(c) => {
                let ghost before = r@;
                r.push(c);
                assert(contexts_view(r@) =~= contexts_view(before) + contexts_view(seq![c]));
            },
            None => {},
        }
    }
    assert(items@.take(items@.len() as int) == items@);
    r
}

/// The default context window read from a value.
pub fn parse_default_context(v: &PatchValue) -> (r: DefaultModelContextConfig)
    ensures
        default_view(Some(r)) == Some(default_context_from(*v)),
{
    let none = empty_fields();
    let fs = match v {
        PatchValue::Object(fs) => fs,
        _ => &none,
    };
    let limit = count_or_exec(fs, "context_limit", 0);
    let reserve = count_or_exec(fs, "output_reserve", DEFAULT_MODEL_CONTEXT_OUTPUT_RESERVE as u64);
    let cap = count_or_exec(fs, "max_output_tokens", 0);
    DefaultModelContextConfig {
        context_limit: limit as u32,
        output_reserve: reserve as u32,
        max_output_tokens: cap as u32,
        context_group: text_or_empty_exec(fs, "context_group"),
    }
}

/// Whether the update replaces the keys (`_replace_api_keys` is `true`)
/// rather than merging new ones in.
pub open spec fn replaces_keys(updates: Seq<(String, PatchValue)>) -> bool {
    bool_of(field_of(updates, "_replace_api_keys"@)) == Some(true)
}

/// The explicit key of a replacement: `api_key` trimmed, when not blank.
pub open spec fn explicit_key(updates: Seq<(String, PatchValue)>) -> Option<Seq<char>> {
    match text_of(field_of(updates, "api_key"@)) {
        Some(k) => if trim_seq(k).len() > 0 {
            Some(trim_seq(k))
        } else {
            None
        },
        None => None,
    }
}

/// The strings of the `api_keys` array; none when it is not an array.
pub open spec fn listed_keys(updates: Seq<(String, PatchValue)>) -> Seq<Seq<char>> {
    match array_field(updates, "api_keys"@) {
        Some(items) => texts_in(items),
        None => Seq::empty(),
    }
}

/// The extra keys after a merge: a non-empty `api_key` merged in (the
/// primary key put first if the merge lacks it), then the `api_keys`
/// strings merged in.
pub open spec fn merged_extra_keys(
    current: Seq<Seq<char>>,
    primary: Seq<char>,
    updates: Seq<(String, PatchValue)>,
) -> Seq<Seq<char>> {
    let with_single = match text_of(field_of(updates, "api_key"@)) {
        Some(k) => if k.len() > 0 {
            let m = merged_keys(current, seq![k]);
            if primary.len() > 0 && !m.contains(primary) {
                seq![primary] + m
            } else {
                m
            }
        } else {
            current
        },
        None => current,
    };
    match array_field(updates, "api_keys"@) {
        Some(items) => merged_keys(with_single, texts_in(items)),
        None => with_single,
    }
}

/// The extra keys after the update.
pub open spec fn keys_after(old: UpstreamConfig, updates: Seq<(String, PatchValue)>) -> Seq<Seq<char>> {
    if replaces_keys(updates) {
        match array_field(updates, "api_keys"@) {
            Some(items) => texts_in(items),
            None => views(old.api_keys@),
        }
    } else {
        merged_extra_keys(views(old.api_keys@), old.api_key@, updates)
    }
}

/// The primary key after the update: a replacement that lists keys takes
/// its explicit key, else the first listed key, else none.
pub open spec fn primary_key_after(old: UpstreamConfig, updates: Seq<(String, PatchValue)>) -> Seq<char> {
    if replaces_keys(updates) && array_field(updates, "api_keys"@) is Some {
        match explicit_key(updates) {
            Some(k) => k,
            None => if listed_keys(updates).len() > 0 {
                listed_keys(updates)[0]
            } else {
                Seq::empty()
            },
        }
    } else {
        old.api_key@
    }
}

/// The per-key entries after the update: replaced by the allowed entries,
/// or merged with the new ones.
pub open spec fn key_models_after(old: UpstreamConfig, updates: Seq<(String, PatchValue)>) -> Seq<KeyModelsView> {
    match array_field(updates, "api_key_models"@) {
        Some(items) => if replaces_keys(updates) {
            replacement_key_models(items, replacement_set(explicit_key(updates), listed_keys(updates)))
        } else {
            merged_key_models(key_models_view(old.api_key_models@), incoming_key_models(items))
        },
        None => key_models_view(old.api_key_models@),
    }
}

/// The supported models after the update: derived from the per-key entries
/// when those were given (or, on a replacement, exist); else the
/// `supported_models` strings when given; else as they were.
pub open spec fn supported_after(old: UpstreamConfig, updates: Seq<(String, PatchValue)>) -> Seq<Seq<char>> {
    let models = key_models_after(old, updates);
    let derived = normalized_list(flatten_models(models));
    let listed = match array_field(updates, "supported_models"@) {
        Some(items) => texts_in(items),
        None => views(old.supported_models@),
    };
    if replaces_keys(updates) {
        if array_field(updates, "api_key_models"@) is Some || models.len() > 0 {
            derived
        } else {
            listed
        }
    } else if array_field(updates, "api_key_models"@) is Some {
        derived
    } else if field_of(updates, "api_key_models"@) is None {
        listed
    } else {
        views(old.supported_models@)
    }
}

/// The key fields of `new` are those of `old` after the update.
pub open spec fn keys_written(old: UpstreamConfig, new: UpstreamConfig, updates: Seq<(String, PatchValue)>) -> bool {
    &&& views(new.api_keys@) == keys_after(old, updates)
    &&& new.api_key@ == primary_key_after(old, updates)
    &&& key_models_view(new.api_key_models@) == key_models_after(old, updates)
    &&& views(new.supported_models@) == supported_after(old, updates)
}

fn prepend(first: &String, rest: &Vec<String>) -> (r: Vec<String>)
    ensures
        views(r@) == seq![first@] + views(rest@),
{
    let mut head: Vec<String> = Vec::new();
    head.push(first.clone());
    assert(views(head@) == seq![first@]);
    concat_strings(&head, rest)
}

fn merge_extra_keys(upstream: &UpstreamConfig, updates: &Vec<(String, PatchValue)>) -> (r: Vec<String>)
    ensures
        views(r@) == merged_extra_keys(views(upstream.api_keys@), upstream.api_key@, updates@),
{
    let ghost current = views(upstream.api_keys@);
    let ghost primary = upstream.api_key@;
    let mut keys = clone_strings(&upstream.api_keys);
    if let Some(PatchValue::Text(k)) = get_field(updates, "api_key") {
        if chars_of(k.as_str()).len() > 0 {
            let mut single: Vec<String> = Vec::new();
            single.push(k.clone());
            assert(views(single@) == seq![k@]);
            let merged = merge_api_keys(keys.as_slice(), single.as_slice());
            assert(views(merged@) == merged_keys(current, seq![k@]));
            if chars_of(upstream.api_key.as_str()).len() > 0 && !contains_text(&merged, &chars_of(upstream.api_key.as_str())) {
                assert(primary.len() > 0 && !views(merged@).contains(primary));
                keys = prepend(&upstream.api_key, &merged);
            } else {
                assert(!(primary.len() > 0 && !views(merged@).contains(primary)));
                keys = merged;
            }
        }
    }
    let ghost with_single = views(keys@);
    assert(with_single == match text_of(field_of(updates@, "api_key"@)) {
        Some(k) => if k.len() > 0 {
            let m = merged_keys(current, seq![k]);
            if primary.len() > 0 && !m.contains(primary) {
                seq![primary] + m
            } else {
                m
            }
        } else {
            current
        },
        None => current,
    });
    if let Some(PatchValue::Array(items)) = get_field(updates, "api_keys") {
        let incoming = strings_in(items);
        keys = merge_api_keys(keys.as_slice(), incoming.as_slice());
    }
    keys
}

/// Writes the key fields of an update (see `keys_written`); nothing else
/// changes.
fn apply_key_updates(upstream: &mut UpstreamConfig, updates: &Vec<(String, PatchValue)>)
    ensures
        keys_written(*old(upstream), *final(upstream), updates@),
        *final(upstream) == (UpstreamConfig {
            api_keys: final(upstream).api_keys,
            api_key: final(upstream).api_key,
            api_key_models: final(upstream).api_key_models,
            supported_models: final(upstream).supported_models,
            ..*old(upstream)
        }),
{
    let replace = match get_field(updates, "_replace_api_keys") {
        Some(PatchValue::Bool(b)) => *b,
        _ => false,
    };
    let models_given = match get_field(updates, "api_key_models") {
        Some(PatchValue::Array(_)) => true,
        _ => false,
    };
    if replace {
        let explicit: Option<String> = match get_field(updates, "api_key") {
            Some(PatchValue::Text(k)) => if blank(k.as_str()) {
                None
            } else {
                Some(trimmed(k.as_str()))
            },
            _ => None,
        };
        let listed: Vec<String> = match get_field(updates, "api_keys") {
            Some(PatchValue::Array(items)) => strings_in(items),
            _ => Vec::new(),
        };
        assert(views(listed@) == listed_keys(updates@));
        assert(match explicit {
            Some(e) => Some(e@),
            None => None,
        } == explicit_key(updates@));
        if let Some(PatchValue::Array(_)) = get_field(updates, "api_keys") {
            upstream.api_keys = clone_strings(&listed);
            upstream.api_key = match &explicit {
                Some(k) => k.clone(),
                None => if listed.len() > 0 {
                    listed[0].clone()
                } else {
                    String::new()
                },
            };
        }
        if let Some(PatchValue::Array(items)) = get_field(updates, "api_key_models") {
            upstream.api_key_models = parse_replacement_key_models(items, &explicit, &listed);
        }
        if models_given || upstream.api_key_models.len() > 0 {
            upstream.supported_models = crate::normalize::derive_supported_models(&upstream.api_key_models);
        } else if let Some(PatchValue::Array(items)) = get_field(updates, "supported_models") {
            upstream.supported_models = strings_in(items);
        }
    } else {
        upstream.api_keys = merge_extra_keys(upstream, updates);
        match get_field(updates, "api_key_models") {
            Some(PatchValue::Array(items)) => {
                let incoming = parse_key_models(items);
                upstream.api_key_models = merge_api_key_models(upstream.api_key_models.as_slice(), incoming.as_slice());
                upstream.supported_models = crate::normalize::derive_supported_models(&upstream.api_key_models);
            },
            None => {
                if let Some(PatchValue::Array(items)) = get_field(updates, "supported_models") {
                    upstream.supported_models = strings_in(items);
                }
            },
            Some(_) => {},
        }
    }
}

/// A count after an update: a number sets it (cut to 32 bits), anything
/// else leaves it.
pub open spec fn count_after(updates: Seq<(String, PatchValue)>, key: Seq<char>, current: u32) -> u32 {
    match unsigned_of(field_of(updates, key)) {
        Some(n) => n as u32,
        None => current,
    }
}

/// A flag after an update.
pub open spec fn flag_after(updates: Seq<(String, PatchValue)>, key: Seq<char>, current: bool) -> bool {
    match bool_of(field_of(updates, key)) {
        Some(b) => b,
        None => current,
    }
}

/// A string after an update.
pub open spec fn text_after(updates: Seq<(String, PatchValue)>, key: Seq<char>, current: Seq<char>) -> Seq<char> {
    match text_of(field_of(updates, key)) {
        Some(t) => t,
        None => current,
    }
}

/// The fields of `new` other than the keys are those of `old` after the
/// update: name, base URL, protocols (a list, else a single protocol),
/// context windows, default window (null clears it), quota, rate,
/// concurrency, priority, premium models and flags.
pub open spec fn fields_written(old: UpstreamConfig, new: UpstreamConfig, updates: Seq<(String, PatchValue)>) -> bool {
    &&& descriptive_fields_written(old, new, updates)
    &&& limit_fields_written(old, new, updates)
}

/// Name, base URL, protocols and context windows after the update.
pub open spec fn descriptive_fields_written(
    old: UpstreamConfig,
    new: UpstreamConfig,
    updates: Seq<(String, PatchValue)>,
) -> bool {
    &&& new.name@ == text_after(updates, "name"@, old.name@)
    &&& new.base_url@ == text_after(updates, "base_url"@, old.base_url@)
    &&& match array_field(updates, "protocols"@) {
        Some(items) => new.protocols@ == crate::patch::protocols_named(items) && new.protocol == old.protocol,
        None => new.protocols == old.protocols && new.protocol == match text_of(field_of(updates, "protocol"@)) {
            Some(p) => crate::normalize::protocol_named(p),
            None => old.protocol,
        },
    }
    &&& match array_field(updates, "model_contexts"@) {
        Some(items) => contexts_view(new.model_contexts@) == contexts_in(items),
        None => new.model_contexts == old.model_contexts,
    }
    &&& match field_of(updates, "default_model_context"@) {
        None => new.default_model_context == old.default_model_context,
        Some(PatchValue::Null) => new.default_model_context is None,
        Some(v) => default_view(new.default_model_context) == Some(default_context_from(v)),
    }
}

/// Quota, rate, concurrency, priority, premium models and flags after the
/// update.
pub open spec fn limit_fields_written(
    old: UpstreamConfig,
    new: UpstreamConfig,
    updates: Seq<(String, PatchValue)>,
) -> bool {
    &&& new.request_quota_window_hours == count_after(updates, "request_quota_window_hours"@, old.request_quota_window_hours)
    &&& new.request_quota_requests == count_after(
        updates,
        "request_quota_5h"@,
        count_after(updates, "request_quota_requests"@, old.request_quota_requests),
    )
    &&& new.requests_per_minute == count_after(updates, "requests_per_minute"@, old.requests_per_minute)
    &&& new.max_concurrency == count_after(updates, "max_concurrency"@, old.max_concurrency)
    &&& new.priority == count_after(updates, "priority"@, old.priority)
    &&& views(new.premium_models@) == match array_field(updates, "premium_models"@) {
        Some(items) => texts_in(items),
        None => views(old.premium_models@),
    }
    &&& new.premium_only == flag_after(updates, "premium_only"@, old.premium_only)
    &&& new.protect_premium_quota == flag_after(updates, "protect_premium_quota"@, old.protect_premium_quota)
    &&& new.active == flag_after(updates, "active"@, old.active)
    &&& new.strip_nonstandard_chat_fields == flag_after(
        updates,
        "strip_nonstandard_chat_fields"@,
        old.strip_nonstandard_chat_fields,
    )
}

fn count_update(updates: &Vec<(String, PatchValue)>, key: &str, current: u32) -> (r: u32)
    ensures
        r == count_after(updates@, key@, current),
{
    match get_field(updates, key) {
        Some(PatchValue::Unsigned(n)) => *n as u32,
        _ => current,
    }
}

fn flag_update(updates: &Vec<(String, PatchValue)>, key: &str, current: bool) -> (r: bool)
    ensures
        r == flag_after(updates@, key@, current),
{
    match get_field(updates, key) {
        Some(PatchValue::Bool(b)) => *b,
        _ => current,
    }
}

fn apply_descriptive_updates(upstream: &mut UpstreamConfig, updates: &Vec<(String, PatchValue)>)
    ensures
        descriptive_fields_written(*old(upstream), *final(upstream), updates@),
        *final(upstream) == (UpstreamConfig {
            name: final(upstream).name,
            base_url: final(upstream).base_url,
            protocols: final(upstream).protocols,
            protocol: final(upstream).protocol,
            model_contexts: final(upstream).model_contexts,
            default_model_context: final(upstream).default_model_context,
            ..*old(upstream)
        }),
{
    if let Some(PatchValue::Text(name)) = get_field(updates, "name") {
        upstream.name = name.clone();
    }
    if let Some(PatchValue::Text(url)) = get_field(updates, "base_url") {
        upstream.base_url = url.clone();
    }
    match get_field(updates, "protocols") {
        Some(PatchValue::Array(items)) => {
            upstream.protocols = crate::patch::parse_upstream_protocols(items);
        },
        _ => {
            if let Some(PatchValue::Text(p)) = get_field(updates, "protocol") {
                upstream.protocol = crate::normalize::parse_upstream_protocol(p.as_str());
            }
        },
    }
    if let Some(PatchValue::Array(items)) = get_field(updates, "model_contexts") {
        upstream.model_contexts = parse_model_contexts(items);
    }
    match get_field(updates, "default_model_context") {
        None => {},
        Some(PatchValue::Null) => {
            upstream.default_model_context = None;
        },
        Some(v) => {
            upstream.default_model_context = Some(parse_default_context(v));
        },
    }
}

fn apply_limit_updates(upstream: &mut UpstreamConfig, updates: &Vec<(String, PatchValue)>)
    ensures
        limit_fields_written(*old(upstream), *final(upstream), updates@),
        *final(upstream) == (UpstreamConfig {
            request_quota_window_hours: final(upstream).request_quota_window_hours,
            request_quota_requests: final(upstream).request_quota_requests,
            requests_per_minute: final(upstream).requests_per_minute,
            max_concurrency: final(upstream).max_concurrency,
            priority: final(upstream).priority,
            premium_models: final(upstream).premium_models,
            premium_only: final(upstream).premium_only,
            protect_premium_quota: final(upstream).protect_premium_quota,
            active: final(upstream).active,
            strip_nonstandard_chat_fields: final(upstream).strip_nonstandard_chat_fields,
            ..*old(upstream)
        }),
{
    upstream.request_quota_window_hours = count_update(
        updates,
        "request_quota_window_hours",
        upstream.request_quota_window_hours,
    );
    upstream.request_quota_requests = count_update(updates, "request_quota_requests", upstream.request_quota_requests);
    upstream.request_quota_requests = count_update(updates, "request_quota_5h", upstream.request_quota_requests);
    upstream.requests_per_minute = count_update(updates, "requests_per_minute", upstream.requests_per_minute);
    upstream.max_concurrency = count_update(updates, "max_concurrency", upstream.max_concurrency);
    upstream.priority = count_update(updates, "priority", upstream.priority);
    if let Some(PatchValue::Array(items)) = get_field(updates, "premium_models") {
        upstream.premium_models = strings_in(items);
    }
    upstream.premium_only = flag_update(updates, "premium_only", upstream.premium_only);
    upstream.protect_premium_quota = flag_update(updates, "protect_premium_quota", upstream.protect_premium_quota);
    upstream.active = flag_update(updates, "active", upstream.active);
    upstream.strip_nonstandard_chat_fields = flag_update(
        updates,
        "strip_nonstandard_chat_fields",
        upstream.strip_nonstandard_chat_fields,
    );
}

/// `staged` is `old` with an update written: the keys, then the other
/// fields; what no update touches stays.
pub open spec fn written(old: UpstreamConfig, staged: UpstreamConfig, updates: Seq<(String, PatchValue)>) -> bool {
    &&& keys_written(old, staged, updates)
    &&& fields_written(old, staged, updates)
    &&& staged.id == old.id
    &&& staged.remark == old.remark
    &&& staged.continuation_provider_group == old.continuation_provider_group
    &&& staged.model_mappings == old.model_mappings
    &&& staged.failure_count == old.failure_count
    &&& staged.auto_managed == old.auto_managed
    &&& staged.last_synced_at == old.last_synced_at
}

/// Applies an admin update to an upstream: the keys are replaced (when
/// `_replace_api_keys` is `true`) or merged, the per-key model lists and
/// supported models follow, the other fields are written (see `written`),
/// the configuration is put in its stored form, and then checked: its
/// first problem is the error.
pub fn apply_upstream_updates(upstream: &mut UpstreamConfig, updates: &Vec<(String, PatchValue)>) -> (r: Result<
    (),
    String,
>)
    ensures
        exists|staged: UpstreamConfig|
            written(*old(upstream), staged, updates@) && crate::normalize::stored_form(staged, *final(upstream)),
        match crate::validate::configuration_check(*final(upstream)) {
            Some(e) => r matches Err(m) && m@ == e,
            None => r is Ok,
        },
{
    let ghost start = *upstream;
    apply_key_updates(upstream, updates);
    apply_descriptive_updates(upstream, updates);
    apply_limit_updates(upstream, updates);
    let ghost staged = *upstream;
    assert(written(start, staged, updates@));
    upstream.normalize_for_storage();
    upstream.validate_configuration()
}

/// Why an upstream update failed.
#[derive(Debug, Clone, PartialEq, Eq)]
pub enum UpstreamMutationError {
    NotFound(String),
    InvalidInput(String),
    Persist(String),
}

/// The position of the first upstream with id `id`.
pub open spec fn upstream_position(upstreams: Seq<UpstreamConfig>, id: Seq<char>) -> Option<int>
    decreases upstreams.len(),
{
    if upstreams.len() == 0 {
        None
    } else {
        match upstream_position(upstreams.drop_last(), id) {
            Some(i) => Some(i),
            None => if upstreams.last().id@ == id {
                Some(upstreams.len() - 1)
            } else {
                None
            },
        }
    }
}

proof fn lemma_upstream_position_prefix(s: Seq<UpstreamConfig>, id: Seq<char>, n: int)
    requires
        0 < n <= s.len(),
        upstream_position(s.take(n), id) == Some(n - 1),
    ensures
        upstream_position(s, id) == Some(n - 1),
    decreases s.len(),
{
    if s.len() > n {
        assert(s.drop_last().take(n) == s.take(n));
        lemma_upstream_position_prefix(s.drop_last(), id, n);
    } else {
        assert(s.take(n) == s);
    }
}

pub(crate) fn find_upstream(upstreams: &Vec<UpstreamConfig>, id: &str) -> (r: Option<usize>)
    ensures
        match r {
            Some(i) => i < upstreams@.len() && upstream_position(upstreams@, id@) == Some(i as int),
            None => upstream_position(upstreams@, id@) is None,
        },
{
    let mut i: usize = 0;
    while i < upstreams.len()
        invariant
            i <= upstreams@.len(),
            upstream_position(upstreams@.take(i as int), id@) is None,
        decreases upstreams@.len() - i,
    {
        assert(upstreams@.take(i + 1).drop_last() == upstreams@.take(i as int));
        if str_eq(upstreams[i].id.as_str(), id) {
            proof {
                lemma_upstream_position_prefix(upstreams@, id@, i + 1);
            }
            return Some(i);
        }
        i = i + 1;
    }
    assert(upstreams@.take(upstreams@.len() as int) == upstreams@);
    None
}

/// Whether two upstreams hold the same configuration: the same numbers,
/// flags and texts, and lists with the same contents.
pub open spec fn same_content(a: UpstreamConfig, b: UpstreamConfig) -> bool {
    &&& a.id@ == b.id@ && a.name@ == b.name@ && a.base_url@ == b.base_url@ && a.api_key@ == b.api_key@
    &&& views(a.api_keys@) == views(b.api_keys@)
    &&& key_models_view(a.api_key_models@) == key_models_view(b.api_key_models@)
    &&& views(a.supported_models@) == views(b.supported_models@)
    &&& views(a.premium_models@) == views(b.premium_models@)
    &&& a.protocol == b.protocol && a.protocols@ == b.protocols@
    &&& crate::config::mappings_view(a.model_mappings@) == crate::config::mappings_view(b.model_mappings@)
    &&& contexts_view(a.model_contexts@) == contexts_view(b.model_contexts@)
    &&& default_view(a.default_model_context) == default_view(b.default_model_context)
    &&& a.remark@ == b.remark@
    &&& crate::config::opt_view(a.continuation_provider_group) == crate::config::opt_view(b.continuation_provider_group)
    &&& a.failure_count == b.failure_count && a.max_concurrency == b.max_concurrency
    &&& a.request_quota_window_hours == b.request_quota_window_hours && a.active == b.active
    &&& a.auto_managed == b.auto_managed && a.last_synced_at == b.last_synced_at
    &&& a.request_quota_requests == b.request_quota_requests && a.requests_per_minute == b.requests_per_minute
    &&& a.priority == b.priority && a.premium_only == b.premium_only
    &&& a.protect_premium_quota == b.protect_premium_quota
    &&& a.strip_nonstandard_chat_fields == b.strip_nonstandard_chat_fields
    &&& crate::config::opt_view(a.managed_source) == crate::config::opt_view(b.managed_source)
}

fn copy_opt_text(v: &Option<String>) -> (r: Option<String>)
    ensures
        crate::config::opt_view(r) == crate::config::opt_view(*v),
{
    match v {
        Some(s) => Some(s.clone()),
        None => None,
    }
}

fn copy_mappings(v: &Vec<crate::config::UpstreamModelMapping>) -> (r: Vec<crate::config::UpstreamModelMapping>)
    ensures
        crate::config::mappings_view(r@) == crate::config::mappings_view(v@),
{
    let mut r: Vec<crate::config::UpstreamModelMapping> = Vec::new();
    let mut i: usize = 0;
    while i < v.len()
        invariant
            i <= v@.len(),
            crate::config::mappings_view(r@) == crate::config::mappings_view(v@).take(i as int),
        decreases v@.len() - i,
    {
        let m = crate::config::UpstreamModelMapping {
            upstream_model: v[i].upstream_model.clone(),
            downstream_model: v[i].downstream_model.clone(),
        };
        let ghost before = r@;
        r.push(m);
        assert(crate::config::mappings_view(r@) =~= crate::config::mappings_view(before).push(
            (v@[i as int].upstream_model@, v@[i as int].downstream_model@),
        ));
        assert(crate::config::mappings_view(v@)[i as int] == (v@[i as int].upstream_model@, v@[i as int].downstream_model@));
        assert(crate::config::mappings_view(v@).take(i + 1) =~= crate::config::mappings_view(v@).take(i as int).push(
            crate::config::mappings_view(v@)[i as int],
        ));
        i += 1;
    }
    assert(crate::config::mappings_view(v@).take(v@.len() as int) =~= crate::config::mappings_view(v@));
    r
}

fn copy_protocols(v: &Vec<crate::config::UpstreamProtocol>) -> (r: Vec<crate::config::UpstreamProtocol>)
    ensures
        r@ == v@,
{
    let mut r: Vec<crate::config::UpstreamProtocol> = Vec::new();
    let mut i: usize = 0;
    while i < v.len()
        invariant
            i <= v@.len(),
            r@ == v@.take(i as int),
        decreases v@.len() - i,
    {
        r.push(v[i]);
        assert(r@ =~= v@.take(i + 1));
        i += 1;
    }
    assert(v@.take(v@.len() as int) =~= v@);
    r
}

/// A separate upstream with the same configuration.
fn copy_upstream(u: &UpstreamConfig) -> (r: UpstreamConfig)
    ensures
        same_content(r, *u),
{
    let mut contexts: Vec<ModelContextConfig> = Vec::new();
    crate::context_profile::copy_contexts_into(&mut contexts, &u.model_contexts);
    assert(contexts_view(contexts@) =~= contexts_view(u.model_contexts@));
    let default_model_context = match &u.default_model_context {
        Some(d) => Some(
            DefaultModelContextConfig {
                context_limit: d.context_limit,
                output_reserve: d.output_reserve,
                max_output_tokens: d.max_output_tokens,
                context_group: d.context_group.clone(),
            },
        ),
        None => None,
    };
    UpstreamConfig {
        id: u.id.clone(),
        name: u.name.clone(),
        base_url: u.base_url.clone(),
        api_key: u.api_key.clone(),
        api_keys: clone_strings(&u.api_keys),
        api_key_models: crate::freekey_sync::copy_key_models(u.api_key_models.as_slice()),
        supported_models: clone_strings(&u.supported_models),
        premium_models: clone_strings(&u.premium_models),
        protocol: u.protocol,
        protocols: copy_protocols(&u.protocols),
        model_mappings: copy_mappings(&u.model_mappings),
        model_contexts: contexts,
        default_model_context,
        remark: u.remark.clone(),
        continuation_provider_group: copy_opt_text(&u.continuation_provider_group),
        failure_count: u.failure_count,
        max_concurrency: u.max_concurrency,
        request_quota_window_hours: u.request_quota_window_hours,
        active: u.active,
        auto_managed: u.auto_managed,
        last_synced_at: u.last_synced_at,
        request_quota_requests: u.request_quota_requests,
        requests_per_minute: u.requests_per_minute,
        priority: u.priority,
        premium_only: u.premium_only,
        protect_premium_quota: u.protect_premium_quota,
        strip_nonstandard_chat_fields: u.strip_nonstandard_chat_fields,
        managed_source: copy_opt_text(&u.managed_source),
    }
}

/// Applies an admin update to the upstream with id `id` among `upstreams`
/// (see `apply_upstream_updates`), on a copy first: `NotFound` when there
/// is none, `InvalidInput` when the updated configuration is invalid, and
/// in both cases the list is left as it was. Otherwise only that upstream
/// changes, to the updated configuration.
pub fn update_upstream_by_id(
    upstreams: &mut Vec<UpstreamConfig>,
    id: &str,
    updates: &Vec<(String, PatchValue)>,
) -> (r: Result<usize, UpstreamMutationError>)
    ensures
        r is Err ==> final(upstreams)@ == old(upstreams)@,
        match upstream_position(old(upstreams)@, id@) {
            None => r matches Err(UpstreamMutationError::NotFound(m)) && m@ == "Upstream '"@ + id@ + "' not found"@,
            Some(p) => exists|base: UpstreamConfig, staged: UpstreamConfig, candidate: UpstreamConfig|
                #![trigger written(base, staged, updates@), crate::normalize::stored_form(staged, candidate)]
                {
                    &&& same_content(base, old(upstreams)@[p])
                    &&& written(base, staged, updates@)
                    &&& crate::normalize::stored_form(staged, candidate)
                    &&& match crate::validate::configuration_check(candidate) {
                        Some(e) => r matches Err(UpstreamMutationError::InvalidInput(m)) && m@ == e,
                        None => r == Ok::<usize, UpstreamMutationError>(p as usize) && final(upstreams)@ == old(
                            upstreams,
                        )@.update(p, candidate),
                    }
                },
        },
{
    let p = match find_upstream(upstreams, id) {
        Some(p) => p,
        None => {
            let mut m = owned("Upstream '");
            crate::text::push_text(&mut m, id);
            crate::text::push_text(&mut m, "' not found");
            return Err(UpstreamMutationError::NotFound(m));
        },
    };
    let mut trial = copy_upstream(&upstreams[p]);
    let ghost base = trial;
    let checked = apply_upstream_updates(&mut trial, updates);
    let ghost staged = choose|staged: UpstreamConfig|
        written(base, staged, updates@) && crate::normalize::stored_form(staged, trial);
    assert(written(base, staged, updates@) && crate::normalize::stored_form(staged, trial));
    match checked {
        Ok(()) => {
            upstreams.set(p, trial);
            Ok(p)
        },
        Err(e) => Err(UpstreamMutationError::InvalidInput(e)),
    }
}

} // verus!
