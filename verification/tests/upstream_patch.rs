use chat_responses_codex::config::{ApiKeyModelConfig, DefaultModelContextConfig, UpstreamConfig, UpstreamProtocol};
use chat_responses_codex::patch::PatchValue;
use chat_responses_codex::upstream_patch::{
    apply_upstream_updates, parse_default_context, parse_key_models, parse_model_contexts,
    update_upstream_by_id, UpstreamMutationError,
};

fn text(s: &str) -> PatchValue {
    PatchValue::Text(s.to_string())
}

fn object(items: Vec<(&str, PatchValue)>) -> PatchValue {
    PatchValue::Object(fields(items))
}

fn fields(items: Vec<(&str, PatchValue)>) -> Vec<(String, PatchValue)> {
    items.into_iter().map(|(k, v)| (k.to_string(), v)).collect()
}

fn texts(items: &[&str]) -> PatchValue {
    PatchValue::Array(items.iter().map(|s| text(s)).collect())
}

fn upstream(id: &str) -> UpstreamConfig {
    let mut u = UpstreamConfig::default();
    u.id = id.to_string();
    u.name = "old".to_string();
    u.api_key = "k1".to_string();
    u
}

#[test]
fn unknown_upstream_is_not_found() {
    let mut all = vec![upstream("u1")];
    let r = update_upstream_by_id(&mut all, "nope", &fields(vec![("name", text("x"))]));
    assert_eq!(r, Err(UpstreamMutationError::NotFound("Upstream 'nope' not found".to_string())));
    assert_eq!(all, vec![upstream("u1")]);
}

#[test]
fn merge_mode_adds_keys_and_keeps_the_primary() {
    let mut all = vec![upstream("u0"), upstream("u1")];
    let update = fields(vec![("api_key", text("k2")), ("api_keys", texts(&["k3", " k2 ", ""])), ("name", text("new"))]);
    assert_eq!(update_upstream_by_id(&mut all, "u1", &update), Ok(1));
    assert_eq!(all[1].api_key, "k1");
    assert_eq!(all[1].api_keys, vec!["k1", "k2", "k3"]);
    assert_eq!(all[1].name, "new");
    assert_eq!(all[0], upstream("u0"));
}

#[test]
fn replace_mode_keeps_only_listed_keys() {
    let mut u = upstream("u1");
    u.api_keys = vec!["old".to_string()];
    let update = fields(vec![
        ("_replace_api_keys", PatchValue::Bool(true)),
        ("api_keys", texts(&["a", " b "])),
        (
            "api_key_models",
            PatchValue::Array(vec![
                object(vec![("api_key", text(" b ")), ("supported_models", texts(&["m1"]))]),
                object(vec![("api_key", text("zzz")), ("supported_models", texts(&["m2"]))]),
                object(vec![("api_key", text("a"))]),
            ]),
        ),
    ]);
    assert_eq!(apply_upstream_updates(&mut u, &update), Ok(()));
    assert_eq!(u.api_key, "a");
    assert_eq!(u.api_keys, vec!["a", "b"]);
    assert_eq!(
        u.api_key_models,
        vec![
            ApiKeyModelConfig { api_key: "b".to_string(), supported_models: vec!["m1".to_string()] },
            ApiKeyModelConfig { api_key: "a".to_string(), supported_models: Vec::new() },
        ]
    );
    assert_eq!(u.supported_models, vec!["m1"]);
}

#[test]
fn replace_mode_prefers_the_explicit_key() {
    let mut u = upstream("u1");
    let update = fields(vec![
        ("_replace_api_keys", PatchValue::Bool(true)),
        ("api_key", text("  main ")),
        ("api_keys", texts(&["x"])),
        ("supported_models", texts(&["s1"])),
    ]);
    assert_eq!(apply_upstream_updates(&mut u, &update), Ok(()));
    assert_eq!(u.api_key, "main");
    assert_eq!(u.api_keys, vec!["x"]);
    assert_eq!(u.supported_models, vec!["s1"]);
}

#[test]
fn contexts_protocols_limits_and_flags() {
    let mut u = upstream("u1");
    u.default_model_context = Some(DefaultModelContextConfig {
        context_limit: 1000,
        output_reserve: 10,
        max_output_tokens: 0,
        context_group: String::new(),
    });
    let update = fields(vec![
        ("protocols", texts(&["responses", "chat_completions"])),
        (
            "model_contexts",
            PatchValue::Array(vec![
                object(vec![("slug", text("m")), ("context_limit", text(" 128000 ")), ("context_group", text("g"))]),
                object(vec![("slug", text("n"))]),
            ]),
        ),
        ("default_model_context", PatchValue::Null),
        ("request_quota_requests", PatchValue::Unsigned(10)),
        ("request_quota_5h", PatchValue::Unsigned(20)),
        ("requests_per_minute", PatchValue::Unsigned(30)),
        ("priority", PatchValue::Unsigned(2)),
        ("premium_models", texts(&["p"])),
        ("premium_only", PatchValue::Bool(true)),
        ("active", PatchValue::Bool(false)),
    ]);
    assert_eq!(apply_upstream_updates(&mut u, &update), Ok(()));
    assert_eq!(u.protocols, vec![UpstreamProtocol::Responses, UpstreamProtocol::ChatCompletions]);
    assert_eq!(u.protocol, UpstreamProtocol::Responses);
    assert_eq!(u.model_contexts.len(), 1);
    assert_eq!(u.model_contexts[0].slug, "m");
    assert_eq!(u.model_contexts[0].context_limit, 128000);
    assert_eq!(u.model_contexts[0].output_reserve, 8192);
    assert_eq!(u.model_contexts[0].context_group, "g");
    assert_eq!(u.default_model_context, None);
    assert_eq!(u.request_quota_requests, 20);
    assert_eq!(u.requests_per_minute, 30);
    assert_eq!(u.priority, 2);
    assert_eq!(u.premium_models, vec!["p"]);
    assert!(u.premium_only);
    assert!(!u.active);
}

#[test]
fn invalid_result_is_reported() {
    let mut all = vec![upstream("u1")];
    let update = fields(vec![("max_concurrency", PatchValue::Unsigned(0))]);
    assert_eq!(
        update_upstream_by_id(&mut all, "u1", &update),
        Err(UpstreamMutationError::InvalidInput("max_concurrency must be greater than zero".to_string()))
    );
}

#[test]
fn parsers_skip_malformed_entries() {
    let items = vec![
        object(vec![("api_key", text("k")), ("supported_models", texts(&["a", "b"]))]),
        text("not an object"),
        object(vec![("api_key", PatchValue::Unsigned(1)), ("supported_models", texts(&["c"]))]),
    ];
    let parsed = parse_key_models(&items);
    assert_eq!(parsed.len(), 1);
    assert_eq!(parsed[0].supported_models, vec!["a", "b"]);
    let contexts = parse_model_contexts(&vec![object(vec![
        ("slug", text("s")),
        ("context_limit", PatchValue::Unsigned(5_000_000_000)),
        ("max_output_tokens", PatchValue::Unsigned(7)),
    ])]);
    assert_eq!(contexts[0].context_limit, 705_032_704);
    assert_eq!(contexts[0].max_output_tokens, 7);
    let d = parse_default_context(&text("x"));
    assert_eq!((d.context_limit, d.output_reserve, d.max_output_tokens), (0, 8192, 0));
}

#[test]
fn refused_update_leaves_the_list_unchanged() {
    let mut all = vec![upstream("u1"), upstream("u2")];
    let r = update_upstream_by_id(&mut all, "u1", &fields(vec![("max_concurrency", PatchValue::Unsigned(0))]));
    assert_eq!(
        r,
        Err(UpstreamMutationError::InvalidInput("max_concurrency must be greater than zero".to_string()))
    );
    assert_eq!(all, vec![upstream("u1"), upstream("u2")]);
}
