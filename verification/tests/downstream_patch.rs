use chat_responses_codex::config::{DownstreamConfig, ModelConcurrencyGroup, UpstreamProtocol};
use chat_responses_codex::downstream_patch::{
    apply_downstream_updates, parse_model_access_update, update_downstream_by_id,
};
use chat_responses_codex::model_access::{AccessMode, ModelAccessSelection};
use chat_responses_codex::patch::{
    get_field, parse_decimal_u64, parse_u64_flexible, parse_upstream_protocols, strings_in, PatchValue,
};

fn text(s: &str) -> PatchValue {
    PatchValue::Text(s.to_string())
}

fn fields(items: Vec<(&str, PatchValue)>) -> Vec<(String, PatchValue)> {
    items.into_iter().map(|(k, v)| (k.to_string(), v)).collect()
}

fn downstream() -> DownstreamConfig {
    DownstreamConfig {
        id: "d1".to_string(),
        name: "old name".to_string(),
        hash: "h".to_string(),
        plaintext_key: None,
        plaintext_key_prefix: None,
        model_allowlist: vec!["legacy".to_string()],
        rate_limit_enabled: false,
        per_minute_limit: 10,
        max_concurrency: 2,
        active: true,
        billing_mode: "request".to_string(),
        is_portal_key: false,
        model_group_id: None,
        daily_token_limit: Some(5),
        monthly_token_limit: None,
        input_token_price_per_million_cents: None,
        output_token_price_per_million_cents: None,
        daily_cost_limit_cents: None,
        request_quota_window_hours: Some(5),
        request_quota_requests: None,
        ip_allowlist: Vec::new(),
        expires_at: None,
        model_concurrency_groups: vec![ModelConcurrencyGroup {
            name: "g".to_string(),
            pattern: "gpt-*".to_string(),
            max_concurrency: 1,
        }],
    }
}

#[test]
fn decimal_numerals_read_like_from_str() {
    assert_eq!(parse_decimal_u64("42"), Some(42));
    assert_eq!(parse_decimal_u64("+7"), Some(7));
    assert_eq!(parse_decimal_u64("18446744073709551615"), Some(u64::MAX));
    assert_eq!(parse_decimal_u64("18446744073709551616"), None);
    assert_eq!(parse_decimal_u64(""), None);
    assert_eq!(parse_decimal_u64("+"), None);
    assert_eq!(parse_decimal_u64("-1"), None);
    assert_eq!(parse_decimal_u64("1 2"), None);
}

#[test]
fn flexible_counts_accept_numbers_and_numeric_strings() {
    assert_eq!(parse_u64_flexible(&PatchValue::Unsigned(9)), Some(9));
    assert_eq!(parse_u64_flexible(&text(" 128000 ")), Some(128000));
    assert_eq!(parse_u64_flexible(&text("12k")), None);
    assert_eq!(parse_u64_flexible(&PatchValue::OtherNumber), None);
    assert_eq!(parse_u64_flexible(&PatchValue::Null), None);
}

#[test]
fn protocols_and_strings_from_arrays() {
    let items = vec![text("responses"), PatchValue::Unsigned(1), text("chat"), text("Responses")];
    assert_eq!(
        parse_upstream_protocols(&items),
        vec![UpstreamProtocol::Responses, UpstreamProtocol::ChatCompletions, UpstreamProtocol::Responses]
    );
    assert_eq!(strings_in(&items), vec!["responses", "chat", "Responses"]);
}

#[test]
fn first_field_of_a_name_wins() {
    let f = fields(vec![("a", PatchValue::Unsigned(1)), ("a", PatchValue::Unsigned(2))]);
    assert!(matches!(get_field(&f, "a"), Some(PatchValue::Unsigned(1))));
    assert!(get_field(&f, "b").is_none());
}

#[test]
fn empty_update_is_refused() {
    let mut d = downstream();
    assert_eq!(apply_downstream_updates(&mut d, &Vec::new(), None), Err("updates must not be empty".to_string()));
    assert_eq!(d, downstream());
}

#[test]
fn type_and_range_errors_write_nothing() {
    let mut d = downstream();
    let cases = vec![
        (fields(vec![("name", text("x")), ("active", text("yes"))]), "active must be a boolean"),
        (fields(vec![("per_minute_limit", PatchValue::Null)]), "per_minute_limit must be a nonnegative integer"),
        (fields(vec![("max_concurrency", PatchValue::Unsigned(1 << 32))]), "max_concurrency is out of range"),
        (fields(vec![("daily_token_limit", PatchValue::OtherNumber)]), "daily_token_limit must be a nonnegative integer"),
        (fields(vec![("monthly_token_limit", PatchValue::Unsigned(u64::MAX))]), "monthly_token_limit is out of range"),
        (
            fields(vec![("request_quota_window_hours", PatchValue::Unsigned(169))]),
            "request_quota_window_hours must be between 1 and 168",
        ),
        (fields(vec![("expires_at", PatchValue::Unsigned(253_402_300_800))]), "expires_at must be Unix seconds or null"),
        (fields(vec![("expires_at", text("soon"))]), "expires_at must be Unix seconds or null"),
    ];
    for (update, message) in cases {
        assert_eq!(apply_downstream_updates(&mut d, &update, None), Err(message.to_string()));
        assert_eq!(d, downstream());
    }
}

#[test]
fn bad_billing_mode_fails_after_the_first_fields() {
    let mut d = downstream();
    let update = fields(vec![
        ("name", text("new name")),
        ("billing_mode", text("monthly")),
        ("active", PatchValue::Bool(false)),
    ]);
    assert_eq!(
        apply_downstream_updates(&mut d, &update, None),
        Err("billing_mode must be \"request\" or \"token\"".to_string())
    );
    assert_eq!(d.name, "new name");
    assert!(d.active);
    assert_eq!(d.billing_mode, "request");
}

#[test]
fn update_writes_fields_and_clears_nulls() {
    let mut d = downstream();
    let update = fields(vec![
        ("name", text("renamed")),
        ("per_minute_limit", PatchValue::Unsigned(60)),
        ("rate_limit_enabled", PatchValue::Bool(true)),
        ("billing_mode", text("token")),
        ("request_quota_window_hours", PatchValue::Null),
        ("request_quota_requests", PatchValue::Unsigned(100)),
        ("ip_allowlist", PatchValue::Array(vec![text("10.0.0.1"), PatchValue::Unsigned(3), text("10.0.0.2")])),
        ("daily_token_limit", PatchValue::Null),
        ("monthly_token_limit", PatchValue::Unsigned(1000)),
        ("expires_at", PatchValue::Unsigned(1_800_000_000)),
        ("model_allowlist", PatchValue::Array(vec![text("ignored")])),
        ("active", PatchValue::Bool(false)),
        ("model_concurrency_groups", PatchValue::Null),
    ]);
    assert_eq!(apply_downstream_updates(&mut d, &update, None), Ok(()));
    assert_eq!(d.name, "renamed");
    assert_eq!(d.per_minute_limit, 60);
    assert_eq!(d.max_concurrency, 2);
    assert!(d.rate_limit_enabled);
    assert_eq!(d.billing_mode, "token");
    assert_eq!(d.request_quota_window_hours, None);
    assert_eq!(d.request_quota_requests, Some(100));
    assert_eq!(d.ip_allowlist, vec!["10.0.0.1", "10.0.0.2"]);
    assert_eq!(d.daily_token_limit, None);
    assert_eq!(d.monthly_token_limit, Some(1000));
    assert_eq!(d.expires_at, Some(1_800_000_000));
    assert_eq!(d.model_allowlist, vec!["legacy"]);
    assert!(!d.active);
    assert!(d.model_concurrency_groups.is_empty());
}

#[test]
fn concurrency_groups_come_from_the_decoded_value() {
    let update = fields(vec![("model_concurrency_groups", PatchValue::Array(Vec::new()))]);
    let mut d = downstream();
    let groups = vec![ModelConcurrencyGroup { name: "big".to_string(), pattern: "o3*".to_string(), max_concurrency: 4 }];
    assert_eq!(apply_downstream_updates(&mut d, &update, Some(groups.clone())), Ok(()));
    assert_eq!(d.model_concurrency_groups, groups);
    let mut d = downstream();
    assert_eq!(
        apply_downstream_updates(&mut d, &update, None),
        Err("model_concurrency_groups must be an array of objects {\"name\", \"match\", \"max_concurrency\"}".to_string())
    );
    assert_eq!(d.model_concurrency_groups, downstream().model_concurrency_groups);
}

#[test]
fn model_access_update_forms() {
    let both = fields(vec![("model_access", PatchValue::Object(Vec::new())), ("model_group_id", text("g"))]);
    assert_eq!(
        parse_model_access_update(&both, Some(Ok(ModelAccessSelection::default()))),
        Err("specify model_access or model_group_id, not both".to_string())
    );
    let group = fields(vec![("model_group_id", text("  team-a "))]);
    let selection = parse_model_access_update(&group, None).unwrap().unwrap();
    assert_eq!(selection.mode, AccessMode::Group);
    assert_eq!(selection.group_id.as_deref(), Some("team-a"));
    let deny = fields(vec![("model_group_id", text("deny-all"))]);
    assert_eq!(parse_model_access_update(&deny, None).unwrap().unwrap().mode, AccessMode::Deny);
    let blank = fields(vec![("model_group_id", text("  "))]);
    assert_eq!(
        parse_model_access_update(&blank, None),
        Err("model_group_id must be nonempty; use model_access.mode=inherit explicitly".to_string())
    );
    let access = fields(vec![("model_access", PatchValue::Object(Vec::new()))]);
    let invalid = ModelAccessSelection { mode: AccessMode::Group, group_id: None };
    assert_eq!(
        parse_model_access_update(&access, Some(Ok(invalid))),
        Err("group mode requires group_id; inherit and deny must not include it".to_string())
    );
    assert_eq!(
        parse_model_access_update(&access, Some(Ok(ModelAccessSelection::default()))),
        Ok(Some(ModelAccessSelection::default()))
    );
    assert_eq!(parse_model_access_update(&fields(vec![("name", text("n"))]), None), Ok(None));
}

#[test]
fn legacy_update_writes_the_matching_downstream_only() {
    let mut other = downstream();
    other.id = "d2".to_string();
    other.name = "second".to_string();
    let mut all = vec![downstream(), other.clone()];
    let updates = fields(vec![
        ("name", text("renamed")),
        ("per_minute_limit", PatchValue::Unsigned(4_294_967_297)),
        ("rate_limit_enabled", PatchValue::Bool(true)),
        ("request_quota_window_hours", PatchValue::Null),
        ("request_quota_requests", PatchValue::Unsigned(12)),
        ("model_allowlist", PatchValue::Array(vec![text("a"), PatchValue::Bool(true), text("b")])),
        ("active", PatchValue::Bool(false)),
        ("max_concurrency", text("9")),
    ]);
    let r = update_downstream_by_id(&mut all, "d2", &updates);
    assert_eq!(r, Ok(1));
    assert_eq!(all[0], downstream());
    let d = &all[1];
    assert_eq!(d.name, "renamed");
    assert_eq!(d.per_minute_limit, 1);
    assert_eq!(d.max_concurrency, 2);
    assert!(d.rate_limit_enabled);
    assert_eq!(d.request_quota_window_hours, None);
    assert_eq!(d.request_quota_requests, Some(12));
    assert_eq!(d.model_allowlist, vec!["a".to_string(), "b".to_string()]);
    assert!(!d.active);
    assert_eq!(d.billing_mode, "request");
    assert_eq!(d.daily_token_limit, Some(5));
}

#[test]
fn legacy_update_of_unknown_downstream_fails() {
    let mut all = vec![downstream()];
    let r = update_downstream_by_id(&mut all, "nope", &fields(vec![("name", text("x"))]));
    assert_eq!(r, Err("Downstream 'nope' not found".to_string()));
    assert_eq!(all, vec![downstream()]);
}
