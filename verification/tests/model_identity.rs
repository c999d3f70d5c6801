use chat_responses_codex::model_identity::{
    canonical_model_id, canonical_subagent_base_model_id, codex_subagent_base_model,
    find_equivalent_stored, models_equivalent, models_equivalent_with, ModelAliasRegistry,
    ModelAliasRule,
};

#[test]
fn canonical_model_id_trims_and_lowercases() {
    assert_eq!(canonical_model_id("  GLM-4.5  "), "glm-4.5");
    assert_eq!(canonical_model_id("DeepSeek-V3"), "deepseek-v3");
    assert_eq!(canonical_model_id(""), "");
    assert_eq!(canonical_model_id("   "), "");
}

#[test]
fn models_equivalent_folds_casing_only() {
    assert!(models_equivalent("GLM-4.5", "glm-4.5"));
    assert!(models_equivalent("  DeepSeek-V3 ", "deepseek-v3"));
    assert!(!models_equivalent("glm-4.5", "glm-4-5"));
    assert!(!models_equivalent("glm-4.5", "  "));
    assert!(!models_equivalent("", ""));
}

#[test]
fn models_equivalent_with_switch_degrades_to_exact() {
    assert!(models_equivalent_with("GLM-4.5", "GLM-4.5", false));
    assert!(!models_equivalent_with("GLM-4.5", "glm-4.5", false));
    assert!(models_equivalent_with("GLM-4.5", "glm-4.5", true));
    assert!(!models_equivalent_with("GLM-4.5", "  ", false));
}

#[test]
fn canonical_subagent_base_model_id_strips_suffix_before_folding() {
    let suffix = "-fast-preview";
    assert_eq!(
        canonical_subagent_base_model_id("GLM-4.5-fast-preview", suffix).as_deref(),
        Some("glm-4.5")
    );
    assert_eq!(canonical_subagent_base_model_id("glm-4.5", suffix), None);
    assert_eq!(canonical_subagent_base_model_id("-fast-preview", suffix), None);
    assert_eq!(canonical_subagent_base_model_id("", suffix), None);
}

#[test]
fn find_equivalent_stored_returns_original_spelling() {
    let stored = vec!["GLM-4.5".to_string(), "glm-4.5".to_string(), "other".to_string()];
    assert_eq!(find_equivalent_stored(&stored, "glm-4.5", true), Some("GLM-4.5"));
    assert_eq!(find_equivalent_stored(&stored, "GLM-4.5", false), Some("GLM-4.5"));
    assert_eq!(find_equivalent_stored(&stored, "GLM-4.5", true), Some("GLM-4.5"));
    assert_eq!(find_equivalent_stored(&stored, "missing", true), None);
    assert_eq!(find_equivalent_stored(&stored, "Glm-4.5", false), None);
    assert_eq!(find_equivalent_stored(&stored, " ", true), None);
}

#[test]
fn model_alias_registry_resolves_aliases() {
    let rules = vec![
        ModelAliasRule {
            canonical: "deepseek-v3".to_string(),
            aliases: vec!["deepseek-chat".to_string(), "DeepSeek-Chat".to_string()],
        },
        ModelAliasRule {
            canonical: "GLM-4.5".to_string(),
            aliases: vec!["glm-4-5".to_string(), "GLM-4.5-Preview".to_string()],
        },
    ];
    let registry = ModelAliasRegistry::from_rules(rules).unwrap();

    assert_eq!(registry.resolve_alias("deepseek-chat"), Some("deepseek-v3"));
    assert_eq!(registry.resolve_alias("DeepSeek-Chat"), Some("deepseek-v3"));
    assert_eq!(registry.resolve_alias("DEEPSEEK-CHAT"), Some("deepseek-v3"));
    assert_eq!(registry.resolve_alias("glm-4-5"), Some("GLM-4.5"));
    assert_eq!(registry.resolve_alias("GLM-4.5-Preview"), Some("GLM-4.5"));
    assert_eq!(registry.resolve_alias("unknown-model"), None);
    assert_eq!(registry.resolve_alias(""), None);
}

#[test]
fn model_alias_registry_matches_canonical() {
    let rules = vec![ModelAliasRule {
        canonical: "deepseek-v3".to_string(),
        aliases: vec!["deepseek-chat".to_string()],
    }];
    let registry = ModelAliasRegistry::from_rules(rules).unwrap();

    assert!(registry.matches_canonical("deepseek-v3", "deepseek-v3"));
    assert!(registry.matches_canonical("DeepSeek-V3", "deepseek-v3"));
    assert!(registry.matches_canonical("deepseek-chat", "deepseek-v3"));
    assert!(registry.matches_canonical("DeepSeek-Chat", "DEEPSEEK-V3"));
    assert!(!registry.matches_canonical("other-model", "deepseek-v3"));
}

#[test]
fn model_alias_registry_rejects_duplicate_aliases() {
    let rules = vec![
        ModelAliasRule {
            canonical: "model-a".to_string(),
            aliases: vec!["shared-alias".to_string()],
        },
        ModelAliasRule {
            canonical: "model-b".to_string(),
            aliases: vec!["shared-alias".to_string()],
        },
    ];
    let err = ModelAliasRegistry::from_rules(rules).unwrap_err();
    assert!(err.contains("appears in multiple rules"));
}

#[test]
fn model_alias_registry_rejects_canonical_as_alias() {
    let rules = vec![
        ModelAliasRule {
            canonical: "model-a".to_string(),
            aliases: vec![],
        },
        ModelAliasRule {
            canonical: "model-b".to_string(),
            aliases: vec!["model-a".to_string()],
        },
    ];
    let err = ModelAliasRegistry::from_rules(rules).unwrap_err();
    assert!(err.contains("conflicts with a canonical"));
}

#[test]
fn model_alias_registry_rejects_empty_strings() {
    let rules = vec![ModelAliasRule {
        canonical: "".to_string(),
        aliases: vec![],
    }];
    let err = ModelAliasRegistry::from_rules(rules).unwrap_err();
    assert!(err.contains("empty"));

    let rules = vec![ModelAliasRule {
        canonical: "valid".to_string(),
        aliases: vec!["".to_string()],
    }];
    let err = ModelAliasRegistry::from_rules(rules).unwrap_err();
    assert!(err.contains("empty"));
}

#[test]
fn model_alias_registry_all_spellings_for_canonical() {
    let rules = vec![ModelAliasRule {
        canonical: "DeepSeek-V3".to_string(),
        aliases: vec!["deepseek-chat".to_string(), "DeepSeek-Chat-V3".to_string()],
    }];
    let registry = ModelAliasRegistry::from_rules(rules).unwrap();

    let mut spellings = registry.all_spellings_for_canonical("deepseek-v3");
    spellings.sort();
    assert_eq!(spellings, vec!["deepseek-chat", "deepseek-chat-v3", "deepseek-v3"]);
}

#[test]
fn codex_subagent_base_model_keeps_base_spelling() {
    assert_eq!(codex_subagent_base_model(" GLM-4.5-fast-preview ").as_deref(), Some("GLM-4.5"));
    assert_eq!(codex_subagent_base_model("-fast-preview"), None);
    assert_eq!(codex_subagent_base_model("glm-4.5-FAST-preview"), None);
}

#[test]
fn alias_error_messages_name_the_offending_spellings() {
    let rules = vec![ModelAliasRule {
        canonical: "valid".to_string(),
        aliases: vec!["ok".to_string(), "  ".to_string()],
    }];
    let err = ModelAliasRegistry::from_rules(rules).unwrap_err();
    assert_eq!(err, "alias at index 1 is empty or whitespace-only");

    let rules = vec![
        ModelAliasRule { canonical: "a".to_string(), aliases: vec!["x".to_string()] },
        ModelAliasRule { canonical: "X".to_string(), aliases: vec![] },
    ];
    let err = ModelAliasRegistry::from_rules(rules).unwrap_err();
    assert_eq!(err, "canonical name 'X' is already used as an alias in another rule");

    let rules = vec![ModelAliasRule { canonical: "a".to_string(), aliases: vec!["A".to_string()] }];
    let err = ModelAliasRegistry::from_rules(rules).unwrap_err();
    assert_eq!(err, "alias 'A' conflicts with a canonical name from another rule");
}

#[test]
fn whitespace_beyond_ascii_is_trimmed() {
    assert_eq!(canonical_model_id("\u{3000}Model-X\u{A0}"), "model-x");
    assert_eq!(canonical_model_id("ÄB"), "Äb");
}

#[test]
fn every_alias_resolves_to_its_own_rule() {
    let registry = ModelAliasRegistry::from_rules(vec![
        ModelAliasRule { canonical: "GPT-4o".into(), aliases: vec!["gpt4o".into(), "GPT-4-O".into()] },
        ModelAliasRule { canonical: "deepseek-v3".into(), aliases: vec!["DeepSeek-Chat".into()] },
    ])
    .expect("valid rules");
    assert_eq!(registry.resolve_alias(" GPT4O "), Some("GPT-4o"));
    assert_eq!(registry.resolve_alias("gpt-4-o"), Some("GPT-4o"));
    assert_eq!(registry.resolve_alias("deepseek-chat"), Some("deepseek-v3"));
    assert_eq!(registry.resolve_alias("unknown"), None);
}
