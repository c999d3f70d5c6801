use chat_responses_codex::config::{ApiKeyModelConfig, UpstreamConfig};
use chat_responses_codex::model_discovery::KeyModelDiscoveryResult;
use chat_responses_codex::model_key_sync::{
    apply_discovery, deterministic_jitter, keyed_route_fingerprint, lower_hex_string, record_targeted_discovery,
    remove_confirmed_model, stabilize_for_fingerprint, startup_delay, sync_configuration_fingerprint,
    upstream_delay, MissingObservations, ModelKeySyncSummary, TargetedPending, TargetedVerdict,
    TARGETED_DISCOVERY_QUEUE_CAPACITY,
};

fn strings(items: &[&str]) -> Vec<String> {
    items.iter().map(|s| s.to_string()).collect()
}

fn found(key_index: usize, models: &[&str]) -> KeyModelDiscoveryResult {
    KeyModelDiscoveryResult {
        key_index,
        models: strings(models),
        latency_ms: 5,
        error: None,
        error_code: None,
        http_status: None,
    }
}

fn failed(key_index: usize) -> KeyModelDiscoveryResult {
    KeyModelDiscoveryResult {
        key_index,
        models: Vec::new(),
        latency_ms: 5,
        error: Some("timed out".to_string()),
        error_code: Some("timeout".to_string()),
        http_status: None,
    }
}

fn upstream_with_models(models: &[&str]) -> UpstreamConfig {
    let mut upstream = UpstreamConfig::default();
    upstream.id = "u1".to_string();
    upstream.api_key = "k1".to_string();
    upstream.api_key_models = vec![ApiKeyModelConfig {
        api_key: "k1".to_string(),
        supported_models: strings(models),
    }];
    upstream.supported_models = strings(models);
    upstream
}

#[test]
fn jitter_is_fnv1a_modulo_spread() {
    assert_eq!(deterministic_jitter("", 5, 10), 12);
    assert_eq!(deterministic_jitter("a", 5, 10), 11);
    assert_eq!(deterministic_jitter("a", 30, 61), 66);
    assert_eq!(deterministic_jitter("a", 7, 0), 7);
    assert_eq!(deterministic_jitter("a", u64::MAX, 10), u64::MAX);
}

#[test]
fn startup_delay_stays_between_thirty_and_ninety_seconds() {
    assert_eq!(startup_delay("/var/lib/store.json"), 46);
    assert_eq!(startup_delay(""), 90);
}

#[test]
fn lower_hex_writes_two_digits_per_byte() {
    assert_eq!(lower_hex_string(&[0x0f, 0xa0, 0x00, 0xff]), "0fa000ff");
    assert_eq!(lower_hex_string(&[]), "");
}

#[test]
fn configuration_fingerprint_is_prefixed_sha256() {
    assert_eq!(
        sync_configuration_fingerprint(b"{}"),
        "781c1cd80f833ad142694a08a91453e3a1ac184c6b02277ad1dd629a049b41a5"
    );
    assert_ne!(sync_configuration_fingerprint(b"{}"), sync_configuration_fingerprint(b"[]"));
}

#[test]
fn upstream_delay_uses_id_and_fingerprint() {
    let mut upstream = UpstreamConfig::default();
    upstream.id = "u1".to_string();
    assert_eq!(upstream_delay(&upstream, br#"{"id":"u1"}"#), 14);
}

#[test]
fn stabilizing_clears_volatile_fields_only() {
    let mut upstream = upstream_with_models(&["m1"]);
    upstream.failure_count = 4;
    upstream.last_synced_at = 99;
    stabilize_for_fingerprint(&mut upstream);
    assert_eq!(upstream.failure_count, 0);
    assert_eq!(upstream.last_synced_at, 0);
    assert_eq!(upstream.id, "u1");
    assert_eq!(upstream.supported_models, strings(&["m1"]));
}

#[test]
fn missing_model_needs_two_sightings_an_interval_apart() {
    let mut missing = MissingObservations::new();
    assert!(!missing.sight("u1", "f1", "m2", 1_000, "cfg"));
    assert_eq!(missing.get("u1", "f1", "m2").map(|t| (t.0, t.1)), Some((1, 1_000)));
    assert!(!missing.sight("u1", "f1", "m2", 30_000, "cfg"));
    assert_eq!(missing.get("u1", "f1", "m2").map(|t| (t.0, t.1)), Some((1, 1_000)));
    assert!(missing.sight("u1", "f1", "m2", 61_000, "cfg"));
    assert_eq!(missing.get("u1", "f1", "m2").map(|t| (t.0, t.1)), Some((2, 61_000)));
    assert_eq!(missing.len(), 1);
}

#[test]
fn configuration_change_restarts_the_count() {
    let mut missing = MissingObservations::new();
    assert!(!missing.sight("u1", "f1", "m2", 0, "cfg-a"));
    assert!(!missing.sight("u1", "f1", "m2", 100_000, "cfg-b"));
    let state = missing.get("u1", "f1", "m2").unwrap();
    assert_eq!((state.0, state.1, state.2.as_str()), (1, 100_000, "cfg-b"));
}

#[test]
fn rebinding_and_retaining_observations() {
    let mut missing = MissingObservations::new();
    missing.sight("u1", "f1", "m1", 0, "old");
    missing.sight("u1", "f2", "m1", 0, "other");
    missing.sight("u2", "f1", "m1", 0, "old");
    missing.rebind_configuration("u1", "old", "new");
    assert_eq!(missing.get("u1", "f1", "m1").unwrap().2, "new");
    assert_eq!(missing.get("u1", "f2", "m1").unwrap().2, "other");
    assert_eq!(missing.get("u2", "f1", "m1").unwrap().2, "old");
    missing.retain_keys(&vec![("u1".to_string(), "f2".to_string())]);
    assert_eq!(missing.len(), 1);
    assert!(missing.get("u1", "f2", "m1").is_some());
    missing.forget("u1", "f2", "m1");
    assert_eq!(missing.len(), 0);
}

#[test]
fn targeted_queue_refuses_duplicates_and_overflow() {
    let mut pending = TargetedPending::new();
    assert!(pending.try_enqueue("u1", "f1"));
    assert!(!pending.try_enqueue("u1", "f1"));
    assert!(pending.contains("u1", "f1"));
    pending.release("u1", "f1");
    assert!(!pending.contains("u1", "f1"));
    for i in 0..TARGETED_DISCOVERY_QUEUE_CAPACITY {
        assert!(pending.try_enqueue("u", &format!("f{i}")));
    }
    assert_eq!(pending.len(), TARGETED_DISCOVERY_QUEUE_CAPACITY);
    assert!(!pending.try_enqueue("u", "extra"));
    pending.retain_valid(&vec![("u".to_string(), "f3".to_string())]);
    assert_eq!(pending.len(), 1);
    pending.clear();
    assert_eq!(pending.len(), 0);
}

#[test]
fn discovery_keeps_a_missing_model_until_confirmed() {
    let mut upstream = upstream_with_models(&["m1", "m2"]);
    let mut missing = MissingObservations::new();
    let fingerprints = strings(&["f1"]);
    let results = vec![found(0, &["m1", "m3"])];
    assert!(apply_discovery(&mut upstream, &fingerprints, "cfg", &results, 500, 1_000, &mut missing));
    assert_eq!(upstream.api_key_models[0].supported_models, strings(&["m1", "m3", "m2"]));
    assert_eq!(upstream.supported_models, strings(&["m1", "m3", "m2"]));
    assert_eq!(upstream.last_synced_at, 500);
    assert_eq!(missing.get("u1", "f1", "m2").map(|t| t.0), Some(1));

    assert!(apply_discovery(&mut upstream, &fingerprints, "cfg", &results, 600, 61_000, &mut missing));
    assert_eq!(upstream.api_key_models[0].supported_models, strings(&["m1", "m3"]));
    assert_eq!(upstream.supported_models, strings(&["m1", "m3"]));
    assert!(missing.get("u1", "f1", "m2").is_none());
    assert_eq!(missing.len(), 0);
}

#[test]
fn discovery_without_success_changes_nothing() {
    let mut upstream = upstream_with_models(&["m1"]);
    let before = upstream.clone();
    let mut missing = MissingObservations::new();
    let fingerprints = strings(&["f1"]);
    assert!(!apply_discovery(&mut upstream, &fingerprints, "cfg", &vec![failed(0)], 1, 1, &mut missing));
    assert_eq!(upstream, before);
    assert_eq!(missing.len(), 0);
}

#[test]
fn discovery_without_key_lists_needs_every_key() {
    let mut upstream = UpstreamConfig::default();
    upstream.id = "u1".to_string();
    upstream.api_key = "k1".to_string();
    upstream.api_keys = strings(&["k2"]);
    let fingerprints = strings(&["f1", "f2"]);
    let mut missing = MissingObservations::new();
    let partial = vec![found(0, &["m1"]), failed(1)];
    assert!(!apply_discovery(&mut upstream, &fingerprints, "cfg", &partial, 1, 1, &mut missing));
    assert!(upstream.api_key_models.is_empty());
    let full = vec![found(0, &["m1"]), found(1, &["m2"])];
    assert!(apply_discovery(&mut upstream, &fingerprints, "cfg", &full, 1, 1, &mut missing));
    assert_eq!(upstream.api_key_models.len(), 2);
    assert_eq!(upstream.api_key_models[1].api_key, "k2");
    assert_eq!(upstream.supported_models, strings(&["m1", "m2"]));
}

#[test]
fn targeted_discovery_verdicts() {
    let mut missing = MissingObservations::new();
    let none = Vec::new();
    assert_eq!(
        record_targeted_discovery(&mut missing, "u1", "f1", "m2", &none, 0, "cfg"),
        TargetedVerdict::Missing
    );
    assert_eq!(
        record_targeted_discovery(&mut missing, "u1", "f1", "m2", &none, 60_000, "cfg"),
        TargetedVerdict::Confirmed
    );
    assert_eq!(
        record_targeted_discovery(&mut missing, "u1", "f1", "m2", &strings(&["m2"]), 60_001, "cfg"),
        TargetedVerdict::Present
    );
    assert_eq!(missing.len(), 0);
}

#[test]
fn confirmed_model_is_removed_from_its_key() {
    let mut upstream = upstream_with_models(&["m1", "m2"]);
    let fingerprints = strings(&["f1"]);
    assert!(!remove_confirmed_model(&mut upstream, &fingerprints, "f9", "m2", 7));
    assert!(!remove_confirmed_model(&mut upstream, &fingerprints, "f1", "m9", 7));
    assert_eq!(upstream.last_synced_at, 0);
    assert!(remove_confirmed_model(&mut upstream, &fingerprints, "f1", "m2", 7));
    assert_eq!(upstream.api_key_models[0].supported_models, strings(&["m1"]));
    assert_eq!(upstream.supported_models, strings(&["m1"]));
    assert_eq!(upstream.last_synced_at, 7);
}

#[test]
fn summary_counts_scans_and_outcomes() {
    let mut summary = ModelKeySyncSummary::default();
    summary.record_scan(&vec![found(0, &["m"]), failed(1)]);
    summary.record_scan(&vec![failed(0)]);
    assert_eq!(summary.upstreams_scanned, 2);
    assert_eq!(summary.keys_succeeded, 1);
    assert_eq!(summary.keys_failed, 2);
    summary.record_outcome(Some(true));
    summary.record_outcome(Some(false));
    summary.record_outcome(None);
    assert_eq!((summary.upstreams_updated, summary.upstreams_unchanged, summary.skipped), (1, 1, 1));
    let mut empty = ModelKeySyncSummary::default();
    empty.record_scan(&vec![failed(0)]);
    empty.finish_without_discoveries();
    assert_eq!(empty.upstreams_unchanged, 1);
}

#[test]
fn route_fingerprint_hashes_the_key_in() {
    assert_eq!(keyed_route_fingerprint("material", "  "), "material");
    assert_eq!(keyed_route_fingerprint("material", "fp"), "db821578bbc4a635c0255f26a4a9b5e956e1d6bab318b03303d2f3a56950c2eb");
    assert_ne!(keyed_route_fingerprint("material", "fp"), keyed_route_fingerprint("material", "fq"));
}
