use chat_responses_codex::config::{DownstreamConfig, UpstreamConfig};
use chat_responses_codex::registry::{
    add_downstream, add_upstream, delete_downstream_by_id, delete_upstream_by_id, insert_downstream,
    mark_upstream_failure, mark_upstream_success, remove_downstream, remove_upstream, set_downstream_active,
    set_upstream_active, toggle_downstream_by_id, toggle_upstream_by_id, update_downstream, update_downstream_hash,
};

fn downstream(id: &str) -> DownstreamConfig {
    DownstreamConfig {
        id: id.to_string(),
        name: format!("{id} name"),
        hash: "h".to_string(),
        plaintext_key: None,
        plaintext_key_prefix: None,
        model_allowlist: Vec::new(),
        rate_limit_enabled: false,
        per_minute_limit: 0,
        max_concurrency: 1,
        active: true,
        billing_mode: "request".to_string(),
        is_portal_key: false,
        model_group_id: None,
        daily_token_limit: None,
        monthly_token_limit: None,
        input_token_price_per_million_cents: None,
        output_token_price_per_million_cents: None,
        daily_cost_limit_cents: None,
        request_quota_window_hours: None,
        request_quota_requests: None,
        ip_allowlist: Vec::new(),
        expires_at: None,
        model_concurrency_groups: Vec::new(),
    }
}

fn upstream(id: &str) -> UpstreamConfig {
    let mut u = UpstreamConfig::default();
    u.id = id.to_string();
    u.name = id.to_string();
    u.base_url = "https://example.test".to_string();
    u.api_key = "sk-1".to_string();
    u
}

#[test]
fn downstreams_are_added_once() {
    let mut list = Vec::new();
    assert_eq!(add_downstream(&mut list, downstream("d1")), Ok(()));
    assert_eq!(
        add_downstream(&mut list, downstream("d1")),
        Err("Downstream with ID 'd1' already exists".to_string())
    );
    insert_downstream(&mut list, downstream("d1"));
    assert_eq!(list.len(), 2);
}

#[test]
fn downstream_updates_by_id() {
    let mut list = vec![downstream("d1"), downstream("d2")];
    let mut replacement = downstream("other");
    replacement.name = "new".to_string();
    assert!(update_downstream(&mut list, "d2", replacement));
    assert_eq!(list[1].id, "d2");
    assert_eq!(list[1].name, "new");
    assert!(!update_downstream(&mut list, "d3", downstream("x")));
    assert!(set_downstream_active(&mut list, "d1", false));
    assert!(!list[0].active);
    assert!(!set_downstream_active(&mut list, "d3", false));
    assert_eq!(toggle_downstream_by_id(&mut list, "d1"), Ok(true));
    assert_eq!(toggle_downstream_by_id(&mut list, "d1"), Ok(false));
    assert_eq!(toggle_downstream_by_id(&mut list, "zz"), Err("Downstream 'zz' not found".to_string()));
    assert_eq!(update_downstream_hash(&mut list, "d2", "h2".to_string()), Ok(()));
    assert_eq!(list[1].hash, "h2");
    assert_eq!(update_downstream_hash(&mut list, "zz", "h".to_string()), Err("Downstream 'zz' not found".to_string()));
}

#[test]
fn downstream_removal_drops_every_match() {
    let mut list = vec![downstream("d1"), downstream("d2"), downstream("d1")];
    assert!(remove_downstream(&mut list, "d1"));
    assert_eq!(list.len(), 1);
    assert_eq!(list[0].id, "d2");
    assert!(!remove_downstream(&mut list, "d1"));
    assert_eq!(delete_downstream_by_id(&mut list, "d1"), Err("Downstream 'd1' not found".to_string()));
    assert_eq!(delete_downstream_by_id(&mut list, "d2"), Ok(()));
    assert!(list.is_empty());
}

#[test]
fn upstreams_are_normalized_validated_and_added_once() {
    let mut list = Vec::new();
    let mut u = upstream("u1");
    u.failure_count = 7;
    u.supported_models = vec![" gpt-4o ".to_string(), "gpt-4o".to_string()];
    assert_eq!(add_upstream(&mut list, u), Ok(()));
    assert_eq!(list[0].failure_count, 0);
    assert_eq!(list[0].supported_models, vec!["gpt-4o".to_string()]);
    assert_eq!(
        add_upstream(&mut list, upstream("u1")),
        Err("Upstream with ID 'u1' already exists".to_string())
    );
    let mut bad = upstream("u2");
    bad.max_concurrency = 0;
    assert_eq!(add_upstream(&mut list, bad), Err("max_concurrency must be greater than zero".to_string()));
    assert_eq!(list.len(), 1);
}

#[test]
fn upstream_switches_and_failure_counts() {
    let mut list = vec![upstream("u1"), upstream("u2")];
    assert!(set_upstream_active(&mut list, "u2", false));
    assert!(!list[1].active);
    assert!(!set_upstream_active(&mut list, "u3", false));
    assert_eq!(toggle_upstream_by_id(&mut list, "u2"), Ok(true));
    assert_eq!(toggle_upstream_by_id(&mut list, "u3"), Err("Upstream 'u3' not found".to_string()));
    mark_upstream_failure(&mut list, "u1");
    mark_upstream_failure(&mut list, "u1");
    assert_eq!(list[0].failure_count, 2);
    list[0].failure_count = u32::MAX;
    mark_upstream_failure(&mut list, "u1");
    assert_eq!(list[0].failure_count, u32::MAX);
    mark_upstream_success(&mut list, "u1");
    assert_eq!(list[0].failure_count, 0);
    mark_upstream_failure(&mut list, "nope");
    assert!(remove_upstream(&mut list, "u1"));
    assert!(!remove_upstream(&mut list, "u1"));
    assert_eq!(delete_upstream_by_id(&mut list, "u1"), Err("Upstream 'u1' not found".to_string()));
    assert_eq!(delete_upstream_by_id(&mut list, "u2"), Ok(()));
}
