use chat_responses_codex::config::{
    ApiKeyModelConfig, DefaultModelContextConfig, ModelContextConfig, UpstreamConfig,
    UpstreamModelMapping, UpstreamProtocol, DEFAULT_MODEL_CONTEXT_OUTPUT_RESERVE,
};
use chat_responses_codex::model_identity::{ModelAliasRegistry, ModelAliasRule};
use chat_responses_codex::normalize::parse_upstream_protocol;

fn mapping(upstream_model: &str, downstream_model: &str) -> UpstreamModelMapping {
    UpstreamModelMapping {
        upstream_model: upstream_model.to_string(),
        downstream_model: downstream_model.to_string(),
    }
}

fn mapped_upstream() -> UpstreamConfig {
    UpstreamConfig {
        name: "mapped".into(),
        base_url: "https://example.invalid".into(),
        api_key: "key-a".into(),
        supported_models: vec!["gpt-4".into(), "gpt-4o".into()],
        model_mappings: vec![mapping("gpt-4", "gpt-4-premium")],
        ..UpstreamConfig::default()
    }
}

#[test]
fn model_mappings_validate_valid_configuration() {
    let upstream = mapped_upstream();
    assert!(upstream.validate_configuration().is_ok());
    assert!(upstream
        .validate_model_mappings_against_aliases(&ModelAliasRegistry::default())
        .is_ok());
}

#[test]
fn model_mappings_reject_empty_upstream_or_downstream() {
    let upstream = UpstreamConfig {
        model_mappings: vec![mapping("", "gpt-4-premium")],
        ..mapped_upstream()
    };
    let err = upstream.validate_configuration().unwrap_err();
    assert!(err.contains("upstream_model"), "message was: {err}");

    let upstream = UpstreamConfig {
        model_mappings: vec![mapping("gpt-4", "  ")],
        ..mapped_upstream()
    };
    let err = upstream.validate_configuration().unwrap_err();
    assert!(err.contains("downstream_model"), "message was: {err}");
}

#[test]
fn model_mappings_reject_duplicate_upstream_model_canonically() {
    let upstream = UpstreamConfig {
        supported_models: vec!["gpt-4".into(), "gpt-4o".into()],
        model_mappings: vec![mapping("gpt-4", "gpt-4-premium"), mapping("GPT-4", "gpt-4-std")],
        ..UpstreamConfig::default()
    };
    let err = upstream.validate_configuration().unwrap_err();
    assert!(err.contains("gpt-4"), "message was: {err}");
}

#[test]
fn model_mappings_reject_duplicate_downstream_model_canonically() {
    let upstream = UpstreamConfig {
        model_mappings: vec![
            mapping("gpt-4", "gpt-4-premium"),
            mapping("gpt-4o", "GPT-4-PREMIUM"),
        ],
        ..mapped_upstream()
    };
    let err = upstream.validate_configuration().unwrap_err();
    assert!(err.contains("gpt-4-premium"), "message was: {err}");
}

#[test]
fn model_mappings_reject_downstream_colliding_with_unmapped_model() {
    let upstream = UpstreamConfig {
        model_mappings: vec![mapping("gpt-4", "gpt-4o")],
        ..mapped_upstream()
    };
    let err = upstream.validate_configuration().unwrap_err();
    assert!(err.contains("gpt-4o"), "message was: {err}");
}

#[test]
fn model_mappings_allow_stale_upstream_model_but_reject_alias_downstream() {
    let stale = UpstreamConfig {
        model_mappings: vec![mapping("removed-model", "gpt-4-premium")],
        ..mapped_upstream()
    };
    assert!(stale.validate_configuration().is_ok());

    let registry = ModelAliasRegistry::from_rules(vec![ModelAliasRule {
        canonical: "deepseek-v3".into(),
        aliases: vec!["deepseek-chat".into()],
    }])
    .unwrap();
    let conflicting = UpstreamConfig {
        model_mappings: vec![mapping("gpt-4", "deepseek-chat")],
        ..mapped_upstream()
    };
    let err = conflicting
        .validate_model_mappings_against_aliases(&registry)
        .unwrap_err();
    assert!(err.contains("deepseek-chat"), "message was: {err}");
    let ok = UpstreamConfig {
        model_mappings: vec![mapping("gpt-4", "deepseek-v3")],
        ..mapped_upstream()
    };
    assert!(ok.validate_model_mappings_against_aliases(&registry).is_ok());
}

#[test]
fn validation_messages_are_exact() {
    let upstream = UpstreamConfig { max_concurrency: 0, ..mapped_upstream() };
    assert_eq!(
        upstream.validate_configuration().unwrap_err(),
        "max_concurrency must be greater than zero"
    );
    let upstream = UpstreamConfig {
        continuation_provider_group: Some("bad\u{7}group".into()),
        ..mapped_upstream()
    };
    assert_eq!(
        upstream.validate_configuration().unwrap_err(),
        "continuation provider group must be 1-128 printable characters"
    );
    let upstream = UpstreamConfig {
        continuation_provider_group: Some("é".repeat(65)),
        ..mapped_upstream()
    };
    assert!(upstream.validate_configuration().is_err());
    let upstream = UpstreamConfig {
        continuation_provider_group: Some("é".repeat(64)),
        ..mapped_upstream()
    };
    assert!(upstream.validate_configuration().is_ok());
    let upstream = UpstreamConfig {
        model_mappings: vec![mapping("gpt-4", "x"), mapping("", "y")],
        ..mapped_upstream()
    };
    assert_eq!(
        upstream.validate_configuration().unwrap_err(),
        "model mapping at index 1 has an empty upstream_model"
    );
    let upstream = UpstreamConfig {
        model_mappings: vec![mapping("gpt-4", "gpt-4o")],
        ..mapped_upstream()
    };
    assert_eq!(
        upstream.validate_configuration().unwrap_err(),
        "downstream model 'gpt-4o' (mapping index 0) collides with this upstream's own model 'gpt-4o'; pick a different downstream name or map 'gpt-4o' too"
    );
}

#[test]
fn resolved_model_name_keeps_stored_spelling_and_subagent_base() {
    let upstream = UpstreamConfig {
        supported_models: vec![" GLM-4.5 ".into(), "glm-4.5".into(), "other".into()],
        ..UpstreamConfig::default()
    };
    assert_eq!(upstream.resolved_model_name("glm-4.5").as_deref(), Some("GLM-4.5"));
    assert_eq!(upstream.resolved_model_name_with("glm-4.5", false).as_deref(), Some("glm-4.5"));
    assert_eq!(upstream.resolved_model_name("GLM-4.5-fast-preview").as_deref(), Some("GLM-4.5"));
    assert_eq!(upstream.resolved_model_name("missing"), None);
    assert!(upstream.supports_model("OTHER"));
    assert!(!upstream.supports_model_with("OTHER", false));

    let open = UpstreamConfig::default();
    assert_eq!(open.resolved_model_name(" anything ").as_deref(), Some("anything"));
    assert_eq!(open.resolved_model_name("x-fast-preview"), None);
    assert_eq!(open.resolved_model_name("  "), None);
}

#[test]
fn route_models_and_keys_are_trimmed_and_deduplicated() {
    let upstream = UpstreamConfig {
        api_key: " k1 ".into(),
        api_keys: vec!["k2".into(), "k1".into(), " ".into()],
        supported_models: vec!["a".into(), " a ".into(), "".into()],
        premium_models: vec!["b".into(), "a".into()],
        ..UpstreamConfig::default()
    };
    assert_eq!(upstream.route_models(), vec!["a", "b"]);
    assert_eq!(upstream.premium_route_models(), vec!["b", "a"]);
    assert_eq!(upstream.available_keys(), vec!["k1", "k2"]);
    assert_eq!(upstream.keys_for_model("anything"), vec!["k1", "k2"]);
    assert!(upstream.is_premium_model_request("B"));
    assert!(upstream.is_premium_model_request("b-fast-preview"));
    assert!(!upstream.is_premium_model_request_with("B", false));
    assert!(!upstream.is_premium_model_request("c"));
}

#[test]
fn keys_for_model_follows_per_key_lists() {
    let upstream = UpstreamConfig {
        api_key: "k1".into(),
        api_keys: vec!["k2".into()],
        api_key_models: vec![
            ApiKeyModelConfig { api_key: "k2".into(), supported_models: vec!["GPT-4".into()] },
            ApiKeyModelConfig { api_key: "gone".into(), supported_models: vec!["gpt-4".into()] },
            ApiKeyModelConfig { api_key: " k1 ".into(), supported_models: vec!["gpt-4".into()] },
        ],
        ..UpstreamConfig::default()
    };
    assert_eq!(upstream.keys_for_model("gpt-4"), vec!["k2", "k1"]);
    assert_eq!(upstream.keys_for_model_with("gpt-4", false), vec!["k1"]);
    assert_eq!(upstream.keys_for_model("gpt-4-fast-preview"), vec!["k2", "k1"]);
    assert!(upstream.keys_for_model(" ").is_empty());
    assert!(upstream.keys_for_model("other").is_empty());
}

#[test]
fn normalize_for_storage_rebuilds_stored_form() {
    let mut upstream = UpstreamConfig {
        api_key: " k1 ".into(),
        api_keys: vec!["k2".into(), "k2".into()],
        api_key_models: vec![
            ApiKeyModelConfig { api_key: "k1".into(), supported_models: vec!["a".into()] },
            ApiKeyModelConfig { api_key: "k1 ".into(), supported_models: vec!["b".into(), "a".into()] },
            ApiKeyModelConfig { api_key: "zz".into(), supported_models: vec!["c".into()] },
        ],
        supported_models: vec!["ignored".into()],
        protocols: vec![UpstreamProtocol::Responses, UpstreamProtocol::Responses, UpstreamProtocol::ChatCompletions],
        remark: "  note ".into(),
        continuation_provider_group: Some("   ".into()),
        failure_count: 7,
        model_mappings: vec![mapping(" up ", " down ")],
        model_contexts: vec![
            ModelContextConfig { slug: " m ".into(), context_limit: 1, output_reserve: 0, max_output_tokens: 0, context_group: " g ".into() },
            ModelContextConfig { slug: "m".into(), context_limit: 50, output_reserve: 5, max_output_tokens: 0, context_group: "".into() },
            ModelContextConfig { slug: "n".into(), context_limit: 100_000, output_reserve: 0, max_output_tokens: 3, context_group: "".into() },
        ],
        default_model_context: Some(DefaultModelContextConfig { context_limit: 0, output_reserve: 1, max_output_tokens: 0, context_group: "".into() }),
        ..UpstreamConfig::default()
    };
    upstream.normalize_for_storage();
    assert_eq!(upstream.failure_count, 0);
    assert_eq!(upstream.protocols, vec![UpstreamProtocol::Responses, UpstreamProtocol::ChatCompletions]);
    assert_eq!(upstream.protocol, UpstreamProtocol::Responses);
    assert_eq!(upstream.remark, "note");
    assert_eq!(upstream.continuation_provider_group, None);
    assert_eq!(upstream.api_key, "k1");
    assert_eq!(upstream.api_keys, vec!["k2"]);
    assert_eq!(upstream.api_key_models.len(), 2);
    assert_eq!(upstream.api_key_models[0].api_key, "k1");
    assert_eq!(upstream.api_key_models[0].supported_models, vec!["a", "b"]);
    assert_eq!(upstream.api_key_models[1].api_key, "k2");
    assert!(upstream.api_key_models[1].supported_models.is_empty());
    assert_eq!(upstream.supported_models, vec!["a", "b"]);
    assert_eq!(upstream.model_mappings, vec![mapping("up", "down")]);
    assert_eq!(upstream.model_contexts.len(), 2);
    assert_eq!(upstream.model_contexts[0].context_limit, 2);
    assert_eq!(upstream.model_contexts[0].output_reserve, 1);
    assert_eq!(upstream.model_contexts[0].context_group, "g");
    assert_eq!(upstream.model_contexts[1].output_reserve, DEFAULT_MODEL_CONTEXT_OUTPUT_RESERVE);
    assert_eq!(upstream.default_model_context, None);
    assert_eq!(upstream.request_quota_window_seconds(), 3600);
}

#[test]
fn protocols_default_and_parse() {
    let upstream = UpstreamConfig { protocols: vec![], protocol: UpstreamProtocol::Responses, ..UpstreamConfig::default() };
    assert_eq!(upstream.supported_protocols(), vec![UpstreamProtocol::Responses]);
    assert!(upstream.supports_protocol(UpstreamProtocol::Responses));
    assert!(!upstream.supports_protocol(UpstreamProtocol::ChatCompletions));
    assert_eq!(parse_upstream_protocol("responses"), UpstreamProtocol::Responses);
    assert_eq!(parse_upstream_protocol("Responses"), UpstreamProtocol::Responses);
    assert_eq!(parse_upstream_protocol("RESPONSES"), UpstreamProtocol::ChatCompletions);
}

#[test]
fn normalizing_twice_is_normalizing_once() {
    let mut once = UpstreamConfig {
        api_key: " k1 ".into(),
        api_keys: vec!["k2".into(), " k2".into(), "".into()],
        api_key_models: vec![
            ApiKeyModelConfig { api_key: "k2".into(), supported_models: vec![" b ".into(), "a".into(), "b".into()] },
            ApiKeyModelConfig { api_key: "k1".into(), supported_models: vec!["c".into()] },
        ],
        premium_models: vec![" p ".into(), "p".into()],
        protocols: vec![UpstreamProtocol::ChatCompletions, UpstreamProtocol::ChatCompletions],
        model_contexts: vec![ModelContextConfig {
            slug: " m ".into(),
            context_limit: 10,
            output_reserve: 50,
            max_output_tokens: 0,
            context_group: " g".into(),
        }],
        default_model_context: Some(DefaultModelContextConfig {
            context_limit: 1,
            output_reserve: 0,
            max_output_tokens: 0,
            context_group: " d ".into(),
        }),
        ..UpstreamConfig::default()
    };
    once.normalize_for_storage();
    let mut twice = once.clone();
    twice.normalize_for_storage();
    assert_eq!(format!("{:?}", twice), format!("{:?}", once));
    assert_eq!(once.supported_models, vec!["b", "a", "c"]);
    assert_eq!(once.model_contexts[0].output_reserve, 9);
}
