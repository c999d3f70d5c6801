use chat_responses_codex::config::ApiKeyModelConfig;
use chat_responses_codex::freekey_sync::{
    derive_supported_models, merge_api_key_models, merge_api_keys, FreekeySyncSummary,
};

fn entry(key: &str, models: &[&str]) -> ApiKeyModelConfig {
    ApiKeyModelConfig {
        api_key: key.to_string(),
        supported_models: models.iter().map(|m| m.to_string()).collect(),
    }
}

#[test]
fn merging_keys_keeps_existing_and_adds_new_trimmed_keys_once() {
    let merged = merge_api_keys(
        &["a".to_string(), "b".to_string()],
        &[" b ".to_string(), "c".to_string(), " ".to_string(), "c".to_string()],
    );
    assert_eq!(merged, vec!["a", "b", "c"]);
}

#[test]
fn merging_key_models_extends_known_keys_and_appends_new_ones() {
    let merged = merge_api_key_models(
        &[entry("k1", &["m1"])],
        &[entry(" k1 ", &["m1 ", "m2", " "]), entry("k2", &[" m3", ""]), entry(" ", &["x"])],
    );
    assert_eq!(merged, vec![entry("k1", &["m1", "m2"]), entry("k2", &["m3"])]);
}

#[test]
fn supported_models_are_every_key_model_once() {
    let models = derive_supported_models(&[entry("k1", &["m1", " m2 "]), entry("k2", &["m2", "", "m3"])]);
    assert_eq!(models, vec!["m1", "m2", "m3"]);
    assert_eq!(FreekeySyncSummary::default(), FreekeySyncSummary { created: 0, updated: 0, skipped: 0 });
}
