use chat_responses_codex::config::{UpstreamConfig, UpstreamModelMapping};
use chat_responses_codex::model_access::{
    resolve_effective_models, resolve_group, AccessMode, AccessPolicy, AllowedModels,
    ModelAccessSelection,
};
use chat_responses_codex::model_catalog::{ModelCatalog, ModelId};
use chat_responses_codex::model_identity::{ModelAliasRegistry, ModelAliasRule};

fn upstream(id: &str, models: &[&str]) -> UpstreamConfig {
    UpstreamConfig {
        id: id.to_string(),
        name: id.to_string(),
        base_url: "https://example.invalid".into(),
        api_key: "key".into(),
        supported_models: models.iter().map(|m| m.to_string()).collect(),
        ..UpstreamConfig::default()
    }
}

fn aliases() -> ModelAliasRegistry {
    ModelAliasRegistry::from_rules(vec![ModelAliasRule {
        canonical: "deepseek-v3".into(),
        aliases: vec!["deepseek-chat".into()],
    }])
    .expect("valid rules")
}

fn catalog() -> ModelCatalog {
    let mut mapped = upstream("up-b", &["gpt-4", "DeepSeek-Chat"]);
    mapped.model_mappings = vec![UpstreamModelMapping {
        upstream_model: "gpt-4".into(),
        downstream_model: "Team-GPT".into(),
    }];
    let mut inactive = upstream("up-c", &["hidden-model"]);
    inactive.active = false;
    ModelCatalog::new(
        &[upstream("up-a", &["GLM-4.5", "glm-4.5", "*"]), mapped, inactive],
        &aliases(),
        true,
    )
}

fn names(catalog: &ModelCatalog) -> Vec<String> {
    catalog.models().iter().map(|m| m.name.clone()).collect()
}

#[test]
fn catalog_groups_sorts_and_names_models() {
    let catalog = catalog();
    assert_eq!(names(&catalog), vec!["Team-GPT", "deepseek-v3", "glm-4.5"]);
    let glm = catalog.find("GLM-4.5").expect("glm published");
    assert_eq!(glm.id.as_str(), "glm-4.5");
    assert_eq!(glm.routes.len(), 2);
    assert_eq!(glm.routes[0].upstream_id, "up-a");
    assert_eq!(glm.routes[0].exposed_model, "GLM-4.5");
    assert_eq!(glm.routes[0].wire_model, "GLM-4.5");
    let team = catalog.find("team-gpt").expect("mapping label found by id");
    assert_eq!(team.name, "Team-GPT");
    assert_eq!(team.id.as_str(), "team-gpt");
    assert!(catalog.find("hidden-model").is_none());
}

#[test]
fn catalog_resolves_aliases_and_subagent_variants() {
    let catalog = catalog();
    assert_eq!(catalog.resolve_group_model_id("  DeepSeek-Chat ").as_str(), "deepseek-v3");
    assert_eq!(catalog.resolve_public_model_id("GLM-4.5-fast-preview").as_str(), "glm-4.5");
    assert_eq!(catalog.resolve_group_model_id("Team-GPT").as_str(), "team-gpt");
    assert_eq!(catalog.normalize_request_name("deepseek-chat"), "deepseek-v3");
    assert_eq!(catalog.normalize_request_name("Team-GPT"), "Team-GPT");
    assert_eq!(catalog.find("deepseek-chat").expect("alias found").name, "deepseek-v3");
    assert_eq!(catalog.public_name_for_route("up-b", "DeepSeek-Chat"), Some("deepseek-v3"));
    assert_eq!(catalog.public_name_for_route("up-b", "missing"), None);
}

#[test]
fn legacy_allowlists_admit_by_id() {
    let catalog = catalog();
    assert!(catalog.allows_legacy(&[], "anything"));
    assert!(catalog.allows_legacy(&[" * ".to_string()], "anything"));
    assert!(catalog.allows_legacy(&["DEEPSEEK-CHAT".to_string()], "deepseek-v3"));
    assert!(!catalog.allows_legacy(&["__none__".to_string()], "glm-4.5"));
    assert!(!catalog.allows_legacy(&["glm-4.5".to_string()], "deepseek-v3"));
    assert_eq!(
        catalog.names_for_legacy(&["glm-4.5".to_string(), "team-gpt".to_string()]),
        vec!["Team-GPT", "glm-4.5"]
    );
}

#[test]
fn model_groups_resolve_to_sorted_ids() {
    let catalog = catalog();
    let group = AllowedModels::from_group(
        &["GLM-4.5".to_string(), "deepseek-chat".to_string(), "glm-4.5".to_string()],
        &catalog,
    )
    .expect("valid group");
    assert_eq!(group.legacy_projection(), vec!["deepseek-v3", "glm-4.5"]);
    assert!(group.allows(&catalog.resolve_group_model_id("DeepSeek-V3")));
    assert!(!group.allows(&catalog.resolve_group_model_id("team-gpt")));
    assert_eq!(
        AllowedModels::from_group(&["__none__".to_string()], &catalog),
        Ok(AllowedModels::Nothing)
    );
    assert_eq!(
        AllowedModels::from_group(&["a".to_string(), "*".to_string()], &catalog),
        Ok(AllowedModels::All)
    );
    assert_eq!(
        AllowedModels::from_group(&[], &catalog),
        Err("model group must contain nonempty model names".to_string())
    );
    assert_eq!(
        AllowedModels::from_group(&["a".to_string(), "  ".to_string()], &catalog),
        Err("model group must contain nonempty model names".to_string())
    );
    assert_eq!(
        AllowedModels::from_group(&["a".to_string(), "__none__".to_string()], &catalog),
        Err("denial sentinel cannot be combined with model names".to_string())
    );
    assert_eq!(AllowedModels::from_legacy(&[], &catalog), AllowedModels::All);
    assert_eq!(
        AllowedModels::from_legacy(&["  ".to_string()], &catalog),
        AllowedModels::Nothing
    );
}

fn ids(names: &[&str]) -> AllowedModels {
    let mut v: Vec<ModelId> = names.iter().map(|n| ModelId(n.to_string())).collect();
    v.sort_by(|a, b| a.0.cmp(&b.0));
    AllowedModels::Models(v)
}

#[test]
fn union_and_intersection_follow_set_algebra() {
    let a = ids(&["a", "b"]);
    let b = ids(&["b", "c"]);
    assert_eq!(a.union(&b), ids(&["a", "b", "c"]));
    assert_eq!(a.intersection(&b), ids(&["b"]));
    assert_eq!(a.intersection(&ids(&["x"])), AllowedModels::Nothing);
    assert_eq!(a.union(&AllowedModels::All), AllowedModels::All);
    assert_eq!(AllowedModels::Nothing.union(&a), a);
    assert_eq!(a.intersection(&AllowedModels::All), a);
    assert_eq!(AllowedModels::Nothing.intersection(&AllowedModels::All), AllowedModels::Nothing);
    assert_eq!(AllowedModels::All.legacy_projection(), vec!["*"]);
    assert_eq!(AllowedModels::Nothing.legacy_projection(), vec!["__none__"]);
}

#[test]
fn effective_models_respect_mode_and_owner_ceiling() {
    let ceiling = ids(&["a", "b"]);
    let group = ids(&["b", "c"]);
    assert_eq!(
        resolve_effective_models(AccessMode::Deny, true, Some(&ceiling), &group),
        AllowedModels::Nothing
    );
    assert_eq!(resolve_effective_models(AccessMode::Inherit, true, Some(&ceiling), &group), ceiling);
    assert_eq!(
        resolve_effective_models(AccessMode::Group, true, Some(&ceiling), &group),
        ids(&["b"])
    );
    assert_eq!(
        resolve_effective_models(AccessMode::Group, true, None, &group),
        AllowedModels::Nothing
    );
    assert_eq!(resolve_effective_models(AccessMode::Group, false, None, &group), group);
    assert_eq!(
        resolve_effective_models(AccessMode::Inherit, false, None, &group),
        AllowedModels::Nothing
    );
}

#[test]
fn selections_validate_and_round_trip_through_group_ids() {
    assert_eq!(AccessMode::Group.as_str(), "group");
    assert_eq!(AccessMode::Inherit.as_str(), "inherit");
    assert_eq!(AccessMode::Deny.as_str(), "deny");
    let deny = ModelAccessSelection::from_group_id("deny-all");
    assert_eq!(deny.mode, AccessMode::Deny);
    assert_eq!(deny.stored_group_id(), "deny-all");
    assert!(deny.validate().is_ok());
    let group = ModelAccessSelection::from_group_id("basic");
    assert_eq!(group.group_id.as_deref(), Some("basic"));
    assert_eq!(group.stored_group_id(), "basic");
    assert!(group.validate().is_ok());
    let bad = ModelAccessSelection { mode: AccessMode::Group, group_id: Some("  ".into()) };
    assert_eq!(
        bad.validate(),
        Err("group mode requires group_id; inherit and deny must not include it".to_string())
    );
    let bad = ModelAccessSelection { mode: AccessMode::Inherit, group_id: Some("g".into()) };
    assert!(bad.validate().is_err());
    assert_eq!(ModelAccessSelection::default().mode, AccessMode::Inherit);
    let policy = AccessPolicy {
        downstream_id: "d".into(),
        subject_kind: "portal".into(),
        owner_user_id: None,
        mode: AccessMode::Deny,
        model_group_id: "basic".into(),
        revision: 1,
    };
    assert_eq!(policy.selection().group_id, None);
}

#[test]
fn model_groups_are_looked_up_by_id() {
    let catalog = catalog();
    let groups = vec![("basic".to_string(), vec!["glm-4.5".to_string()])];
    assert_eq!(resolve_group(&groups, "basic", &catalog), Ok(ids(&["glm-4.5"])));
    assert_eq!(
        resolve_group(&groups, "missing", &catalog),
        Err("missing model group: missing".to_string())
    );
}

#[test]
fn group_ids_resolve_to_themselves() {
    let catalog = catalog();
    for name in ["DeepSeek-Chat", " Team-GPT ", "glm-4.5", "unknown-model"] {
        let id = catalog.resolve_group_model_id(name);
        assert_eq!(catalog.resolve_group_model_id(id.as_str()).as_str(), id.as_str());
    }
    assert_eq!(catalog.resolve_group_model_id("DeepSeek-Chat").as_str(), "deepseek-v3");
}

#[test]
fn union_does_not_depend_on_operand_order() {
    let a = ids(&["a", "c"]);
    let b = ids(&["b", "c", "d"]);
    assert_eq!(a.union(&b), b.union(&a));
    assert_eq!(a.union(&b), ids(&["a", "b", "c", "d"]));
    assert_eq!(a.union(&AllowedModels::Nothing), a);
    assert_eq!(AllowedModels::All.union(&a), a.union(&AllowedModels::All));
}
