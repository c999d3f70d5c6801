use chat_responses_codex::config::{ApiKeyModelConfig, UpstreamConfig};
use chat_responses_codex::freekey_sync::{sync_freekey_upstreams, FreekeySyncItem, FreekeySyncSummary};

fn item(name: Option<&str>, base_url: &str, key: &str, model: &str, valid: bool) -> FreekeySyncItem {
    FreekeySyncItem {
        name: name.map(|n| n.to_string()),
        base_url: base_url.to_string(),
        api_key: key.to_string(),
        model: model.to_string(),
        valid,
    }
}

fn existing(id: &str, base_url: &str, auto_managed: bool) -> UpstreamConfig {
    let mut u = UpstreamConfig::default();
    u.id = id.to_string();
    u.name = format!("{id}-name");
    u.base_url = base_url.to_string();
    u.api_key = "old-key".to_string();
    u.auto_managed = auto_managed;
    u
}

#[test]
fn nothing_usable_changes_nothing() {
    let mut upstreams = vec![existing("u1", "https://a", true)];
    let before = upstreams.clone();
    let imports = vec![item(None, "  ", "k", "m", true), item(None, "https://a", "k", " ", true)];
    let (summary, touched) = sync_freekey_upstreams(&mut upstreams, "src", &imports, 5);
    assert_eq!(summary, FreekeySyncSummary::default());
    assert!(touched.is_empty());
    assert_eq!(upstreams, before);
}

#[test]
fn new_base_url_creates_an_imported_upstream() {
    let mut upstreams = Vec::new();
    let imports = vec![
        item(None, " https://new ", " k1 ", "m1", true),
        item(None, "https://new", "k2", "m1", true),
        item(None, "https://new", "k1", "m2", true),
        item(None, "https://new", "k3", "m3", false),
    ];
    let (summary, touched) = sync_freekey_upstreams(&mut upstreams, " feed ", &imports, 42);
    assert_eq!(summary, FreekeySyncSummary { created: 3, updated: 0, skipped: 0 });
    assert_eq!(upstreams.len(), 1);
    let u = &upstreams[0];
    assert_eq!(touched, vec![u.id.clone()]);
    assert!(!u.id.is_empty());
    assert_eq!(u.base_url, "https://new");
    assert_eq!(u.name, "m1");
    assert_eq!(u.api_key, "k1");
    assert_eq!(u.api_keys, vec!["k2"]);
    assert_eq!(
        u.api_key_models,
        vec![
            ApiKeyModelConfig { api_key: "k1".to_string(), supported_models: vec!["m1".to_string(), "m2".to_string()] },
            ApiKeyModelConfig { api_key: "k2".to_string(), supported_models: vec!["m1".to_string()] },
        ]
    );
    assert_eq!(u.supported_models, vec!["m1", "m2"]);
    assert!(u.auto_managed);
    assert_eq!(u.managed_source.as_deref(), Some("feed"));
    assert_eq!(u.last_synced_at, 42);
}

#[test]
fn hand_managed_base_url_is_skipped() {
    let mut upstreams = vec![existing("manual", "https://m", false), existing("auto", "https://m", true)];
    let before = upstreams.clone();
    let imports = vec![item(None, "https://m", "k", "m", true), item(None, "https://m", "k2", "m", false)];
    let (summary, touched) = sync_freekey_upstreams(&mut upstreams, "src", &imports, 1);
    assert_eq!(summary, FreekeySyncSummary { created: 0, updated: 0, skipped: 2 });
    assert!(touched.is_empty());
    assert_eq!(upstreams, before);
}

#[test]
fn imported_upstream_gets_the_new_key_set() {
    let mut upstreams = vec![existing("other", "https://x", true), existing("auto", "https://a", true)];
    upstreams[1].api_keys = vec!["gone".to_string()];
    let imports = vec![
        item(Some(" Feed A "), "https://a", "k1", "m1", true),
        item(None, "https://a", "k9", "m9", false),
    ];
    let (summary, touched) = sync_freekey_upstreams(&mut upstreams, "src", &imports, 9);
    assert_eq!(summary, FreekeySyncSummary { created: 0, updated: 1, skipped: 0 });
    assert_eq!(touched, vec!["auto".to_string()]);
    let u = &upstreams[1];
    assert_eq!(u.name, "Feed A");
    assert_eq!(u.api_key, "k1");
    assert_eq!(u.api_keys, vec!["k1"]);
    assert_eq!(u.supported_models, vec!["m1"]);
    assert_eq!(u.last_synced_at, 9);
    assert_eq!(upstreams[0], existing("other", "https://x", true));
}

#[test]
fn all_invalid_items_clear_an_imported_upstream_or_are_skipped() {
    let mut upstreams = vec![existing("auto", "https://a", true)];
    let imports = vec![
        item(None, "https://a", "k1", "m1", false),
        item(None, "https://a", "k2", "m1", false),
        item(None, "https://b", "k3", "m3", false),
    ];
    let (summary, touched) = sync_freekey_upstreams(&mut upstreams, "src", &imports, 3);
    assert_eq!(summary, FreekeySyncSummary { created: 0, updated: 2, skipped: 1 });
    assert_eq!(touched, vec!["auto".to_string()]);
    assert_eq!(upstreams.len(), 1);
    assert_eq!(upstreams[0].api_key, "");
    assert!(upstreams[0].api_keys.is_empty());
    assert!(upstreams[0].supported_models.is_empty());
    assert_eq!(upstreams[0].name, "auto-name");
}
