//! Partial updates of a downstream key from an admin request: every field
//! checked before anything is written, then the fields applied in a fixed
//! order.
use vstd::prelude::*;
use crate::config::{DownstreamConfig, ModelConcurrencyGroup};
use crate::model_access::{selection_ok, AccessMode, ModelAccessSelection};
use crate::patch::{
    bool_of, field_of, get_field, strings_in, text_of, texts_in, unsigned_of, PatchValue,
};
use crate::text::{owned, push_text, str_eq, trim_seq, trimmed, views};

verus! {

/// The largest `expires_at` accepted: 9999-12-31T23:59:59Z.
pub const MAX_EXPIRES_AT: u64 = 253_402_300_799;

/// `i64::MAX`, the largest count a downstream field stores.
pub const MAX_STORED_COUNT: u64 = 9_223_372_036_854_775_807;

/// The error of a field that must be a boolean, when it is not.
pub open spec fn boolean_error(updates: Seq<(String, PatchValue)>, field: Seq<char>) -> Option<Seq<char>> {
    match field_of(updates, field) {
        Some(PatchValue::Bool(_)) => None,
        Some(_) => Some(field + " must be a boolean"@),
        None => None,
    }
}

/// The error of a count field: not a nonnegative integer (null is allowed
/// where `nullable`), above `i64::MAX` (or `u32::MAX` where `narrow`), or, for
/// the quota window, outside 1..=168 hours.
pub open spec fn count_error(
    updates: Seq<(String, PatchValue)>,
    field: Seq<char>,
    nullable: bool,
    narrow: bool,
    window: bool,
) -> Option<Seq<char>> {
    match field_of(updates, field) {
        None => None,
        Some(PatchValue::Unsigned(n)) => if n > MAX_STORED_COUNT || (narrow && n > u32::MAX) {
            Some(field + " is out of range"@)
        } else if window && !(1 <= n <= 168) {
            Some("request_quota_window_hours must be between 1 and 168"@)
        } else {
            None
        },
        Some(PatchValue::Null) => if nullable {
            None
        } else {
            Some(field + " must be a nonnegative integer"@)
        },
        Some(_) => Some(field + " must be a nonnegative integer"@),
    }
}

/// The first of two possible errors.
pub open spec fn first_error(a: Option<Seq<char>>, b: Option<Seq<char>>) -> Option<Seq<char>> {
    if a is Some {
        a
    } else {
        b
    }
}

/// The first error the checks find before anything is written, in the order
/// they run.
pub open spec fn update_error(updates: Seq<(String, PatchValue)>) -> Option<Seq<char>> {
    if updates.len() == 0 {
        Some("updates must not be empty"@)
    } else {
        first_error(
            boolean_error(updates, "active"@),
            first_error(
                boolean_error(updates, "rate_limit_enabled"@),
                first_error(
                    count_error(updates, "per_minute_limit"@, false, true, false),
                    first_error(
                        count_error(updates, "max_concurrency"@, false, true, false),
                        first_error(
                            count_error(updates, "request_quota_window_hours"@, true, true, true),
                            first_error(
                                count_error(updates, "request_quota_requests"@, true, true, false),
                                first_error(
                                    count_error(updates, "daily_token_limit"@, true, false, false),
                                    first_error(
                                        count_error(updates, "monthly_token_limit"@, true, false, false),
                                        first_error(
                                            count_error(
                                                updates,
                                                "input_token_price_per_million_cents"@,
                                                true,
                                                false,
                                                false,
                                            ),
                                            count_error(
                                                updates,
                                                "output_token_price_per_million_cents"@,
                                                true,
                                                false,
                                                false,
                                            ),
                                        ),
                                    ),
                                ),
                            ),
                        ),
                    ),
                ),
            ),
        )
    }
}

/// Whether `expires_at` is present and neither null nor a Unix time up to
/// `MAX_EXPIRES_AT`.
pub open spec fn expiry_invalid(updates: Seq<(String, PatchValue)>) -> bool {
    match field_of(updates, "expires_at"@) {
        None => false,
        Some(PatchValue::Null) => false,
        Some(PatchValue::Unsigned(n)) => n > MAX_EXPIRES_AT,
        Some(_) => true,
    }
}

/// Whether `billing_mode` is a string other than `request` and `token`.
pub open spec fn billing_mode_invalid(updates: Seq<(String, PatchValue)>) -> bool {
    match text_of(field_of(updates, "billing_mode"@)) {
        Some(m) => m != "request"@ && m != "token"@,
        None => false,
    }
}

/// An optional count after an update: a number sets it, null clears it,
/// anything else leaves it.
pub open spec fn optional_after(v: Option<PatchValue>, current: Option<u64>) -> Option<u64> {
    match v {
        Some(PatchValue::Unsigned(n)) => Some(n),
        Some(PatchValue::Null) => None,
        _ => current,
    }
}

/// An optional narrow count after an update.
pub open spec fn optional_narrow_after(v: Option<PatchValue>, current: Option<u32>) -> Option<u32> {
    match v {
        Some(PatchValue::Unsigned(n)) => Some(n as u32),
        Some(PatchValue::Null) => None,
        _ => current,
    }
}

/// The fields written before the billing mode is checked: expiry, name,
/// per-minute limit, concurrency, rate limiting.
pub open spec fn first_fields_written(
    old: DownstreamConfig,
    new: DownstreamConfig,
    updates: Seq<(String, PatchValue)>,
) -> bool {
    &&& new.expires_at == optional_after(field_of(updates, "expires_at"@), old.expires_at)
    &&& new.name@ == match text_of(field_of(updates, "name"@)) {
        Some(s) => s,
        None => old.name@,
    }
    &&& new.per_minute_limit == match unsigned_of(field_of(updates, "per_minute_limit"@)) {
        Some(n) => n as u32,
        None => old.per_minute_limit,
    }
    &&& new.max_concurrency == match unsigned_of(field_of(updates, "max_concurrency"@)) {
        Some(n) => n as u32,
        None => old.max_concurrency,
    }
    &&& new.rate_limit_enabled == match bool_of(field_of(updates, "rate_limit_enabled"@)) {
        Some(b) => b,
        None => old.rate_limit_enabled,
    }
}

/// The fields written after the billing mode is checked, up to the
/// concurrency groups.
pub open spec fn later_fields_written(
    old: DownstreamConfig,
    new: DownstreamConfig,
    updates: Seq<(String, PatchValue)>,
) -> bool {
    &&& new.billing_mode@ == match text_of(field_of(updates, "billing_mode"@)) {
        Some(s) => s,
        None => old.billing_mode@,
    }
    &&& new.request_quota_window_hours == optional_narrow_after(
        field_of(updates, "request_quota_window_hours"@),
        old.request_quota_window_hours,
    )
    &&& new.request_quota_requests == optional_narrow_after(
        field_of(updates, "request_quota_requests"@),
        old.request_quota_requests,
    )
    &&& views(new.ip_allowlist@) == match field_of(updates, "ip_allowlist"@) {
        Some(PatchValue::Array(items)) => texts_in(items@),
        _ => views(old.ip_allowlist@),
    }
    &&& new.daily_token_limit == optional_after(field_of(updates, "daily_token_limit"@), old.daily_token_limit)
    &&& new.monthly_token_limit == optional_after(
        field_of(updates, "monthly_token_limit"@),
        old.monthly_token_limit,
    )
    &&& new.input_token_price_per_million_cents == optional_after(
        field_of(updates, "input_token_price_per_million_cents"@),
        old.input_token_price_per_million_cents,
    )
    &&& new.output_token_price_per_million_cents == optional_after(
        field_of(updates, "output_token_price_per_million_cents"@),
        old.output_token_price_per_million_cents,
    )
    &&& new.active == match bool_of(field_of(updates, "active"@)) {
        Some(b) => b,
        None => old.active,
    }
}

/// The later fields as they were.
pub open spec fn later_fields_kept(old: DownstreamConfig, new: DownstreamConfig) -> bool {
    &&& new.billing_mode == old.billing_mode
    &&& new.request_quota_window_hours == old.request_quota_window_hours
    &&& new.request_quota_requests == old.request_quota_requests
    &&& new.ip_allowlist == old.ip_allowlist
    &&& new.daily_token_limit == old.daily_token_limit
    &&& new.monthly_token_limit == old.monthly_token_limit
    &&& new.input_token_price_per_million_cents == old.input_token_price_per_million_cents
    &&& new.output_token_price_per_million_cents == old.output_token_price_per_million_cents
    &&& new.active == old.active
}

/// The fields no update touches.
pub open spec fn identity_kept(old: DownstreamConfig, new: DownstreamConfig) -> bool {
    &&& new.id == old.id
    &&& new.hash == old.hash
    &&& new.plaintext_key == old.plaintext_key
    &&& new.plaintext_key_prefix == old.plaintext_key_prefix
    &&& new.model_allowlist == old.model_allowlist
    &&& new.is_portal_key == old.is_portal_key
    &&& new.model_group_id == old.model_group_id
    &&& new.daily_cost_limit_cents == old.daily_cost_limit_cents
}

/// The message for concurrency groups that do not decode.
pub open spec fn groups_shape_message() -> Seq<char> {
    "model_concurrency_groups must be an array of objects {\"name\", \"match\", \"max_concurrency\"}"@
}

/// Whether the update holds concurrency groups to decode: the field is
/// present and not null.
pub open spec fn groups_given(updates: Seq<(String, PatchValue)>) -> bool {
    match field_of(updates, "model_concurrency_groups"@) {
        Some(PatchValue::Null) => false,
        Some(_) => true,
        None => false,
    }
}

fn count_check(
    updates: &Vec<(String, PatchValue)>,
    field: &str,
    nullable: bool,
    narrow: bool,
    window: bool,
) -> (r: Result<(), String>)
    ensures
        match count_error(updates@, field@, nullable, narrow, window) {
            Some(e) => r matches Err(m) && m@ == e,
            None => r is Ok,
        },
{
    match get_field(updates, field) {
        None => Ok(()),
        Some(PatchValue::Unsigned(n)) => {
            let n = *n;
            if n > MAX_STORED_COUNT || (narrow && n > 4_294_967_295u64) {
                let mut m = owned(field);
                push_text(&mut m, " is out of range");
                Err(m)
            } else if window && !(1 <= n && n <= 168) {
                Err(owned("request_quota_window_hours must be between 1 and 168"))
            } else {
                Ok(())
            }
        },
        Some(PatchValue::Null) => {
            if nullable {
                Ok(())
            } else {
                let mut m = owned(field);
                push_text(&mut m, " must be a nonnegative integer");
                Err(m)
            }
        },
        Some(_) => {
            let mut m = owned(field);
            push_text(&mut m, " must be a nonnegative integer");
            Err(m)
        },
    }
}

fn boolean_check(updates: &Vec<(String, PatchValue)>, field: &str) -> (r: Result<(), String>)
    ensures
        match boolean_error(updates@, field@) {
            Some(e) => r matches Err(m) && m@ == e,
            None => r is Ok,
        },
{
    match get_field(updates, field) {
        Some(PatchValue::Bool(_)) => Ok(()),
        Some(_) => {
            let mut m = owned(field);
            push_text(&mut m, " must be a boolean");
            Err(m)
        },
        None => Ok(()),
    }
}

fn check_updates(updates: &Vec<(String, PatchValue)>) -> (r: Result<(), String>)
    ensures
        match update_error(updates@) {
            Some(e) => r matches Err(m) && m@ == e,
            None => r is Ok,
        },
{
    if updates.len() == 0 {
        return Err(owned("updates must not be empty"));
    }
    boolean_check(updates, "active")?;
    boolean_check(updates, "rate_limit_enabled")?;
    count_check(updates, "per_minute_limit", false, true, false)?;
    count_check(updates, "max_concurrency", false, true, false)?;
    count_check(updates, "request_quota_window_hours", true, true, true)?;
    count_check(updates, "request_quota_requests", true, true, false)?;
    count_check(updates, "daily_token_limit", true, false, false)?;
    count_check(updates, "monthly_token_limit", true, false, false)?;
    count_check(updates, "input_token_price_per_million_cents", true, false, false)?;
    count_check(updates, "output_token_price_per_million_cents", true, false, false)?;
    Ok(())
}

fn optional_update(v: Option<&PatchValue>, current: Option<u64>) -> (r: Option<u64>)
    ensures
        r == optional_after(
            match v {
                Some(x) => Some(*x),
                None => None,
            },
            current,
        ),
{
    match v {
        Some(PatchValue::Unsigned(n)) => Some(*n),
        Some(PatchValue::Null) => None,
        _ => current,
    }
}

fn optional_narrow_update(v: Option<&PatchValue>, current: Option<u32>) -> (r: Option<u32>)
    requires
        v matches Some(PatchValue::Unsigned(n)) ==> n <= u32::MAX,
    ensures
        r == optional_narrow_after(
            match v {
                Some(x) => Some(*x),
                None => None,
            },
            current,
        ),
{
    match v {
        Some(PatchValue::Unsigned(n)) => Some(*n as u32),
        Some(PatchValue::Null) => None,
        _ => current,
    }
}

fn write_first_fields(downstream: &mut DownstreamConfig, updates: &Vec<(String, PatchValue)>, expiry: Option<u64>)
    requires
        expiry == optional_after(field_of(updates@, "expires_at"@), old(downstream).expires_at),
    ensures
        first_fields_written(*old(downstream), *final(downstream), updates@),
        *final(downstream) == (DownstreamConfig {
            expires_at: final(downstream).expires_at,
            name: final(downstream).name,
            per_minute_limit: final(downstream).per_minute_limit,
            max_concurrency: final(downstream).max_concurrency,
            rate_limit_enabled: final(downstream).rate_limit_enabled,
            ..*old(downstream)
        }),
{
    downstream.expires_at = expiry;
    if let Some(PatchValue::Text(name)) = get_field(updates, "name") {
        downstream.name = name.clone();
    }
    if let Some(PatchValue::Unsigned(n)) = get_field(updates, "per_minute_limit") {
        downstream.per_minute_limit = *n as u32;
    }
    if let Some(PatchValue::Unsigned(n)) = get_field(updates, "max_concurrency") {
        downstream.max_concurrency = *n as u32;
    }
    if let Some(PatchValue::Bool(b)) = get_field(updates, "rate_limit_enabled") {
        downstream.rate_limit_enabled = *b;
    }
}

fn write_later_fields(downstream: &mut DownstreamConfig, updates: &Vec<(String, PatchValue)>)
    requires
        update_error(updates@) is None,
    ensures
        later_fields_written(*old(downstream), *final(downstream), updates@),
        *final(downstream) == (DownstreamConfig {
            billing_mode: final(downstream).billing_mode,
            request_quota_window_hours: final(downstream).request_quota_window_hours,
            request_quota_requests: final(downstream).request_quota_requests,
            ip_allowlist: final(downstream).ip_allowlist,
            daily_token_limit: final(downstream).daily_token_limit,
            monthly_token_limit: final(downstream).monthly_token_limit,
            input_token_price_per_million_cents: final(downstream).input_token_price_per_million_cents,
            output_token_price_per_million_cents: final(downstream).output_token_price_per_million_cents,
            active: final(downstream).active,
            ..*old(downstream)
        }),
{
    if let Some(PatchValue::Text(mode)) = get_field(updates, "billing_mode") {
        downstream.billing_mode = mode.clone();
    }
    downstream.request_quota_window_hours = optional_narrow_update(
        get_field(updates, "request_quota_window_hours"),
        downstream.request_quota_window_hours,
    );
    downstream.request_quota_requests = optional_narrow_update(
        get_field(updates, "request_quota_requests"),
        downstream.request_quota_requests,
    );
    if let Some(PatchValue::Array(items)) = get_field(updates, "ip_allowlist") {
        downstream.ip_allowlist = strings_in(items);
    }
    downstream.daily_token_limit = optional_update(
        get_field(updates, "daily_token_limit"),
        downstream.daily_token_limit,
    );
    downstream.monthly_token_limit = optional_update(
        get_field(updates, "monthly_token_limit"),
        downstream.monthly_token_limit,
    );
    downstream.input_token_price_per_million_cents = optional_update(
        get_field(updates, "input_token_price_per_million_cents"),
        downstream.input_token_price_per_million_cents,
    );
    downstream.output_token_price_per_million_cents = optional_update(
        get_field(updates, "output_token_price_per_million_cents"),
        downstream.output_token_price_per_million_cents,
    );
    if let Some(PatchValue::Bool(b)) = get_field(updates, "active") {
        downstream.active = *b;
    }
}

/// Applies an admin update to a downstream key. Every field is checked
/// first (see `update_error`), then the expiry (`expires_at must be Unix
/// seconds or null`); on either error nothing is written. Then the name,
/// per-minute limit, concurrency and rate limiting are written; a billing
/// mode other than `request` or `token` fails there; then the billing mode,
/// quota window and requests, IP allowlist, token limits, prices and the
/// active flag are written; last the concurrency groups: null clears them,
/// other values are decoded by the caller into `decoded_groups` (`None` when
/// they do not decode, which fails with the shape message). Legacy model
/// allowlists in an update are ignored.
pub fn apply_downstream_updates(
    downstream: &mut DownstreamConfig,
    updates: &Vec<(String, PatchValue)>,
    decoded_groups: Option<Vec<ModelConcurrencyGroup>>,
) -> (r: Result<(), String>)
    ensures
        identity_kept(*old(downstream), *final(downstream)),
        match update_error(updates@) {
            Some(e) => r matches Err(m) && m@ == e && *final(downstream) == *old(downstream),
            None => if expiry_invalid(updates@) {
                r matches Err(m) && m@ == "expires_at must be Unix seconds or null"@ && *final(downstream) == *old(downstream)
            } else if billing_mode_invalid(updates@) {
                &&& r matches Err(m) && m@ == "billing_mode must be \"request\" or \"token\""@
                &&& first_fields_written(*old(downstream), *final(downstream), updates@)
                &&& later_fields_kept(*old(downstream), *final(downstream))
                &&& final(downstream).model_concurrency_groups == old(downstream).model_concurrency_groups
            } else {
                &&& first_fields_written(*old(downstream), *final(downstream), updates@)
                &&& later_fields_written(*old(downstream), *final(downstream), updates@)
                &&& if !groups_given(updates@) {
                    &&& r is Ok
                    &&& field_of(updates@, "model_concurrency_groups"@) is Some ==> final(downstream).model_concurrency_groups@.len() == 0
                    &&& field_of(updates@, "model_concurrency_groups"@) is None ==> final(downstream).model_concurrency_groups == old(downstream).model_concurrency_groups
                } else {
                    match decoded_groups {
                        Some(groups) => r is Ok && final(downstream).model_concurrency_groups
                            == groups,
                        None => r matches Err(m) && m@ == groups_shape_message()
                            && final(downstream).model_concurrency_groups == old(downstream).model_concurrency_groups,
                    }
                }
            },
        },
{
    check_updates(updates)?;
    let expiry = match get_field(updates, "expires_at") {
        None => downstream.expires_at,
        Some(PatchValue::Null) => None,
        Some(PatchValue::Unsigned(n)) => {
            if *n > MAX_EXPIRES_AT {
                return Err(owned("expires_at must be Unix seconds or null"));
            }
            Some(*n)
        },
        Some(_) => {
            return Err(owned("expires_at must be Unix seconds or null"));
        },
    };
    write_first_fields(downstream, updates, expiry);
    if let Some(PatchValue::Text(mode)) = get_field(updates, "billing_mode") {
        if !str_eq(mode.as_str(), "request") && !str_eq(mode.as_str(), "token") {
            return Err(owned("billing_mode must be \"request\" or \"token\""));
        }
    }
    write_later_fields(downstream, updates);
    match get_field(updates, "model_concurrency_groups") {
        None => Ok(()),
        Some(PatchValue::Null) => {
            downstream.model_concurrency_groups = Vec::new();
            Ok(())
        },
        Some(_) => match decoded_groups {
            Some(groups) => {
                downstream.model_concurrency_groups = groups;
                Ok(())
            },
            None => Err(owned(
                "model_concurrency_groups must be an array of objects {\"name\", \"match\", \"max_concurrency\"}",
            )),
        },
    }
}

/// Reads the model access an update asks for: `model_access` (decoded by
/// the caller into `decoded_access`, then validated) or `model_group_id` (a
/// non-blank string, trimmed), not both; neither means no change.
pub fn parse_model_access_update(
    updates: &Vec<(String, PatchValue)>,
    decoded_access: Option<Result<ModelAccessSelection, String>>,
) -> (r: Result<Option<ModelAccessSelection>, String>)
    requires
        field_of(updates@, "model_access"@) is Some ==> decoded_access is Some,
    ensures
        match (field_of(updates@, "model_access"@), field_of(updates@, "model_group_id"@)) {
            (Some(_), Some(_)) => r matches Err(m) && m@
                == "specify model_access or model_group_id, not both"@,
            (Some(_), None) => match decoded_access {
                Some(Ok(selection)) => if selection_ok(selection.mode, selection.group_id) {
                    r == Ok::<Option<ModelAccessSelection>, String>(Some(selection))
                } else {
                    r matches Err(m) && m@
                        == "group mode requires group_id; inherit and deny must not include it"@
                },
                Some(Err(e)) => r == Err::<Option<ModelAccessSelection>, String>(e),
                None => false,
            },
            (None, Some(PatchValue::Text(id))) => if trim_seq(id@).len() > 0 {
                r matches Ok(Some(selection)) && (trim_seq(id@) == "deny-all"@ ==> selection.mode
                    == AccessMode::Deny && selection.group_id is None) && (trim_seq(id@)
                    != "deny-all"@ ==> (selection.group_id matches Some(g) && g@ == trim_seq(id@)
                    && selection.mode == AccessMode::Group))
            } else {
                r matches Err(m) && m@
                    == "model_group_id must be nonempty; use model_access.mode=inherit explicitly"@
            },
            (None, Some(_)) => r matches Err(m) && m@
                == "model_group_id must be nonempty; use model_access.mode=inherit explicitly"@,
            (None, None) => r == Ok::<Option<ModelAccessSelection>, String>(None),
        },
{
    let access = get_field(updates, "model_access");
    let group = get_field(updates, "model_group_id");
    if access.is_some() {
        if group.is_some() {
            return Err(owned("specify model_access or model_group_id, not both"));
        }
        match decoded_access {
            Some(Ok(selection)) => {
                selection.validate()?;
                return Ok(Some(selection));
            },
            Some(Err(e)) => {
                return Err(e);
            },
            None => {
                return Err(owned("model_access could not be read"));
            },
        }
    }
    match group {
        None => Ok(None),
        Some(PatchValue::Text(id)) => {
            let t = trimmed(id.as_str());
            if crate::text::blank(id.as_str()) {
                Err(owned("model_group_id must be nonempty; use model_access.mode=inherit explicitly"))
            } else {
                Ok(Some(ModelAccessSelection::from_group_id(t.as_str())))
            }
        },
        Some(_) => Err(owned("model_group_id must be nonempty; use model_access.mode=inherit explicitly")),
    }
}

/// The fields the per-field downstream update writes: name, per-minute
/// limit, concurrency, rate limiting, quota window and requests (null
/// clears), model and IP allowlists (their strings), and the active flag;
/// the rest stays.
pub open spec fn legacy_fields_written(
    old: DownstreamConfig,
    new: DownstreamConfig,
    updates: Seq<(String, PatchValue)>,
) -> bool {
    &&& new.name@ == match text_of(field_of(updates, "name"@)) {
        Some(s) => s,
        None => old.name@,
    }
    &&& new.per_minute_limit == match unsigned_of(field_of(updates, "per_minute_limit"@)) {
        Some(n) => n as u32,
        None => old.per_minute_limit,
    }
    &&& new.max_concurrency == match unsigned_of(field_of(updates, "max_concurrency"@)) {
        Some(n) => n as u32,
        None => old.max_concurrency,
    }
    &&& new.rate_limit_enabled == match bool_of(field_of(updates, "rate_limit_enabled"@)) {
        Some(b) => b,
        None => old.rate_limit_enabled,
    }
    &&& new.request_quota_window_hours == optional_narrow_after(
        field_of(updates, "request_quota_window_hours"@),
        old.request_quota_window_hours,
    )
    &&& new.request_quota_requests == optional_narrow_after(
        field_of(updates, "request_quota_requests"@),
        old.request_quota_requests,
    )
    &&& views(new.model_allowlist@) == match field_of(updates, "model_allowlist"@) {
        Some(PatchValue::Array(items)) => texts_in(items@),
        _ => views(old.model_allowlist@),
    }
    &&& views(new.ip_allowlist@) == match field_of(updates, "ip_allowlist"@) {
        Some(PatchValue::Array(items)) => texts_in(items@),
        _ => views(old.ip_allowlist@),
    }
    &&& new.active == match bool_of(field_of(updates, "active"@)) {
        Some(b) => b,
        None => old.active,
    }
    &&& new == (DownstreamConfig {
        name: new.name,
        per_minute_limit: new.per_minute_limit,
        max_concurrency: new.max_concurrency,
        rate_limit_enabled: new.rate_limit_enabled,
        request_quota_window_hours: new.request_quota_window_hours,
        request_quota_requests: new.request_quota_requests,
        model_allowlist: new.model_allowlist,
        ip_allowlist: new.ip_allowlist,
        active: new.active,
        ..old
    })
}

fn truncating_optional_update(v: Option<&PatchValue>, current: Option<u32>) -> (r: Option<u32>)
    ensures
        r == optional_narrow_after(
            match v {
                Some(x) => Some(*x),
                None => None,
            },
            current,
        ),
{
    match v {
        Some(PatchValue::Unsigned(n)) => Some(*n as u32),
        Some(PatchValue::Null) => None,
        _ => current,
    }
}

fn write_legacy_fields(downstream: &mut DownstreamConfig, updates: &Vec<(String, PatchValue)>)
    ensures
        legacy_fields_written(*old(downstream), *final(downstream), updates@),
{
    if let Some(PatchValue::Text(name)) = get_field(updates, "name") {
        downstream.name = name.clone();
    }
    if let Some(PatchValue::Unsigned(n)) = get_field(updates, "per_minute_limit") {
        downstream.per_minute_limit = *n as u32;
    }
    if let Some(PatchValue::Unsigned(n)) = get_field(updates, "max_concurrency") {
        downstream.max_concurrency = *n as u32;
    }
    if let Some(PatchValue::Bool(b)) = get_field(updates, "rate_limit_enabled") {
        downstream.rate_limit_enabled = *b;
    }
    downstream.request_quota_window_hours = truncating_optional_update(
        get_field(updates, "request_quota_window_hours"),
        downstream.request_quota_window_hours,
    );
    downstream.request_quota_requests = truncating_optional_update(
        get_field(updates, "request_quota_requests"),
        downstream.request_quota_requests,
    );
    if let Some(PatchValue::Array(items)) = get_field(updates, "model_allowlist") {
        downstream.model_allowlist = strings_in(items);
    }
    if let Some(PatchValue::Array(items)) = get_field(updates, "ip_allowlist") {
        downstream.ip_allowlist = strings_in(items);
    }
    if let Some(PatchValue::Bool(b)) = get_field(updates, "active") {
        downstream.active = *b;
    }
}

/// The position of the first downstream with id `id`.
pub open spec fn downstream_position(ds: Seq<DownstreamConfig>, id: Seq<char>) -> Option<int>
    decreases ds.len(),
{
    if ds.len() == 0 {
        None
    } else {
        match downstream_position(ds.drop_last(), id) {
            Some(i) => Some(i),
            None => if ds.last().id@ == id {
                Some(ds.len() - 1)
            } else {
                None
            },
        }
    }
}

proof fn lemma_downstream_position_prefix(s: Seq<DownstreamConfig>, id: Seq<char>, n: int)
    requires
        0 < n <= s.len(),
        downstream_position(s.take(n), id) == Some(n - 1),
    ensures
        downstream_position(s, id) == Some(n - 1),
    decreases s.len(),
{
    if s.len() > n {
        assert(s.drop_last().take(n) == s.take(n));
        lemma_downstream_position_prefix(s.drop_last(), id, n);
    } else {
        assert(s.take(n) == s);
    }
}

pub(crate) fn find_downstream(downstreams: &Vec<DownstreamConfig>, id: &str) -> (r: Option<usize>)
    ensures
        match r {
            Some(i) => i < downstreams@.len() && downstream_position(downstreams@, id@) == Some(i as int),
            None => downstream_position(downstreams@, id@) is None,
        },
{
    let mut i: usize = 0;
    while i < downstreams.len()
        invariant
            i <= downstreams@.len(),
            downstream_position(downstreams@.take(i as int), id@) is None,
        decreases downstreams@.len() - i,
    {
        assert(downstreams@.take(i + 1).drop_last() == downstreams@.take(i as int));
        if str_eq(downstreams[i].id.as_str(), id) {
            proof {
                lemma_downstream_position_prefix(downstreams@, id@, i + 1);
            }
            return Some(i);
        }
        i = i + 1;
    }
    assert(downstreams@.take(downstreams@.len() as int) == downstreams@);
    None
}

/// Writes an update field by field into the downstream with id `id` (see
/// `legacy_fields_written`), and gives its position; an unknown id is
/// `Downstream '<id>' not found`. Only that downstream changes.
pub fn update_downstream_by_id(
    downstreams: &mut Vec<DownstreamConfig>,
    id: &str,
    updates: &Vec<(String, PatchValue)>,
) -> (r: Result<usize, String>)
    ensures
        final(downstreams)@.len() == old(downstreams)@.len(),
        match downstream_position(old(downstreams)@, id@) {
            None => (r matches Err(m) && m@ == "Downstream '"@ + id@ + "' not found"@) && final(downstreams)@
                == old(downstreams)@,
            Some(p) => {
                &&& r == Ok::<usize, String>(p as usize)
                &&& forall|j: int|
                    0 <= j < old(downstreams)@.len() && j != p ==> final(downstreams)@[j] == old(downstreams)@[j]
                &&& legacy_fields_written(old(downstreams)@[p], final(downstreams)@[p], updates@)
            },
        },
{
    let p = match find_downstream(downstreams, id) {
        Some(p) => p,
        None => {
            let mut m = owned("Downstream '");
            push_text(&mut m, id);
            push_text(&mut m, "' not found");
            return Err(m);
        },
    };
    let ghost before = downstreams@;
    let mut target = downstreams.remove(p);
    write_legacy_fields(&mut target, updates);
    downstreams.insert(p, target);
    assert forall|j: int| 0 <= j < before.len() && j != p implies downstreams@[j] == before[j] by {
        if j < p {
            assert(downstreams@[j] == before.remove(p as int)[j]);
        } else {
            assert(downstreams@[j] == before.remove(p as int)[j - 1]);
        }
    }
    Ok(p)
}

} // verus!
