use chat_responses_codex::account_concurrency::AccountConcurrencyKey;
use chat_responses_codex::calendar::{is_day_shaped, CalendarDay, CalendarError};
use chat_responses_codex::config::{
    DownstreamConfig, PersistedState, UpstreamConfig, UsageLog, WireProtocol, UpstreamProtocol,
};
use chat_responses_codex::cost_scope::resolve_cost_scope;
use chat_responses_codex::log_queries::{
    build_downstream_usage_summary, enrich_usage_log, query_time_bounds, resolve_api_name_and_type,
    UsageLogQuery, UsageSummaryError,
};
use chat_responses_codex::model_discovery::{
    blank_key_outcome, discovery_concurrency, discovery_results, group_discovery_keys,
    normalized_discovered_models, ModelDiscoveryError,
};
use chat_responses_codex::model_qualification::{
    classify_qualification_level, Capability, DialectProfileState, EvidenceState,
    ModelQualificationCategory, ModelQualificationLevel, UpstreamDialectProfile,
};
use chat_responses_codex::runtime::{
    fallback_stage_failure_key, prune_capability_probe_batches, truncate_active_request_user_agent,
    upstream_protocol_from_wire, CapabilityProbeBatchRecord, CapabilityProbeBatchStatus,
    DownstreamAdmissionRejection, DownstreamLeaseState, LeaseReleaseGuard, LeaseReleaseState,
    UpstreamAdmissionError, UpstreamAdmissionRejectionReason, UpstreamRequestLease,
};

#[test]
fn cost_scope_books_owned_keys_on_the_owner() {
    let owners = vec![("key-1".to_string(), "user-1".to_string())];
    let limits = vec![("user-1".to_string(), 500u64), ("key-2".to_string(), 0u64)];
    let owned = resolve_cost_scope("key-1", &owners, &limits);
    assert_eq!(owned.scope_id, "user-1");
    assert_eq!(owned.daily_limit_cents, Some(500));
    assert!(owned.is_limited());
    let direct = resolve_cost_scope("key-2", &owners, &limits);
    assert_eq!(direct.scope_id, "key-2");
    assert_eq!(direct.daily_limit_cents, None);
    assert!(!direct.is_limited());
}

#[test]
fn api_names_follow_the_endpoint() {
    assert_eq!(resolve_api_name_and_type("/v1/Responses"), ("Responses API", "推理"));
    assert_eq!(resolve_api_name_and_type("/v1/files/abc/content"), ("文件下载", "文件"));
    assert_eq!(resolve_api_name_and_type("/v1/files"), ("文件上传", "文件"));
    assert_eq!(resolve_api_name_and_type("/v1/chat/completions"), ("ChatCompletions API", "对话"));
    assert_eq!(resolve_api_name_and_type("/v1/other"), ("通用 API", "其它"));
}

fn log(downstream: &str, model: &str, tokens: u64, created_at: u64) -> UsageLog {
    UsageLog {
        downstream_key_id: downstream.to_string(),
        model: model.to_string(),
        endpoint: "/v1/responses".to_string(),
        status_code: 200,
        total_tokens: tokens,
        created_at,
        inference_strength: Some("  ".to_string()),
        billing_mode: None,
        request_count: None,
        user_agent: Some(" codex ".to_string()),
    }
}

#[test]
fn usage_logs_get_display_defaults() {
    let enriched = enrich_usage_log(&log("d", "m", 10, 0));
    assert_eq!(enriched.api_name, "Responses API");
    assert_eq!(enriched.inference_strength, "标准");
    assert_eq!(enriched.billing_mode, "Token 计费");
    assert_eq!(enriched.request_count, 1);
    assert_eq!(enriched.user_agent, "codex");
    let query = UsageLogQuery { start_time: Some(50), end_time: Some(10), ..UsageLogQuery::default() };
    assert_eq!(query_time_bounds(&query, 100), (10, 50));
    assert_eq!(query_time_bounds(&UsageLogQuery::default(), 1_000_000), (395_200, 1_000_000));
}

fn downstream(id: &str, allowlist: &[&str]) -> DownstreamConfig {
    DownstreamConfig {
        id: id.to_string(),
        name: id.to_string(),
        hash: "h".to_string(),
        plaintext_key: None,
        plaintext_key_prefix: None,
        model_allowlist: allowlist.iter().map(|m| m.to_string()).collect(),
        rate_limit_enabled: false,
        per_minute_limit: 0,
        max_concurrency: 0,
        active: true,
        billing_mode: "token".to_string(),
        is_portal_key: false,
        model_group_id: None,
        daily_token_limit: None,
        monthly_token_limit: None,
        input_token_price_per_million_cents: None,
        output_token_price_per_million_cents: None,
        daily_cost_limit_cents: None,
        request_quota_window_hours: None,
        request_quota_requests: None,
        ip_allowlist: Vec::new(),
        expires_at: None,
        model_concurrency_groups: Vec::new(),
    }
}

#[test]
fn downstream_usage_summary_counts_tokens_and_models() {
    let now = 1_700_000_000u64;
    let today = now - now % 86_400;
    let snapshot = PersistedState {
        upstreams: vec![UpstreamConfig {
            supported_models: vec!["a".into(), "b".into()],
            ..UpstreamConfig::default()
        }],
        downstreams: vec![downstream("d1", &[])],
        usage_logs: vec![
            log("d1", "a", 10, today + 5),
            log("d1", "a", 7, today - 86_400 * 40),
            log("d2", "b", 100, today + 5),
        ],
        global_context_profiles: Vec::new(),
    };
    let summary = build_downstream_usage_summary(&snapshot, "d1", now).expect("known downstream");
    assert_eq!(summary.today_tokens, 10);
    assert_eq!(summary.total_models, 2);
    assert_eq!(summary.active_models, 1);
    assert_eq!(
        build_downstream_usage_summary(&snapshot, "zz", now).unwrap_err(),
        UsageSummaryError::NotFound("downstream not found: zz".to_string())
    );
}

#[test]
fn leases_and_rejections_report_their_fields() {
    let mut state = DownstreamLeaseState {
        admitted: vec![("old".to_string(), 10), ("live".to_string(), 100)],
        waiting: vec!["old".to_string(), "live".to_string()],
    };
    state.prune_expired(50);
    assert_eq!(state.admitted, vec![("live".to_string(), 100)]);
    assert_eq!(state.waiting, vec!["live".to_string()]);
    assert!(!state.is_empty());
    let rejection = DownstreamAdmissionRejection::PerMinuteLimitExceeded {
        retry_after_seconds: 0,
        limit: 5,
        used: 5,
    };
    assert_eq!(rejection.retry_after_seconds(), 1);
    let error = UpstreamAdmissionError::new(UpstreamAdmissionRejectionReason::LocalConcurrency, "busy".into(), 0);
    assert_eq!(error.retry_after_seconds, 1);
    assert!(!error.is_runtime_coordination_unavailable());
    assert!(UpstreamAdmissionError::runtime_coordination_unavailable().is_runtime_coordination_unavailable());
    let lease = UpstreamRequestLease {
        account: AccountConcurrencyKey::new("up".into(), "fp".into()),
        lease_id: "l".into(),
    };
    assert_eq!(lease.upstream_id(), "up");
    assert_eq!(upstream_protocol_from_wire(WireProtocol::Responses), Some(UpstreamProtocol::Responses));
    assert_eq!(upstream_protocol_from_wire(WireProtocol::Messages), None);
    assert_eq!(
        fallback_stage_failure_key(" D ", "Codex", "GPT", "Up", "first"),
        "d::codex::gpt::up::first"
    );
    let long = "é".repeat(200);
    let cut = truncate_active_request_user_agent(long);
    assert_eq!(cut.len(), 256);
}

#[test]
fn lease_release_is_claimed_once() {
    let mut state = LeaseReleaseState::Active;
    let guard = LeaseReleaseGuard::acquire(&mut state).expect("claim").expect("guard");
    assert_eq!(state, LeaseReleaseState::Releasing);
    assert!(LeaseReleaseGuard::acquire(&mut state).is_err());
    guard.complete(&mut state);
    assert_eq!(state, LeaseReleaseState::Released);
    assert!(LeaseReleaseGuard::acquire(&mut state).expect("released").is_none());
}

fn batch(id: &str, started_at: u64, terminal_at: Option<u64>) -> (String, CapabilityProbeBatchRecord) {
    (
        id.to_string(),
        CapabilityProbeBatchRecord {
            status: CapabilityProbeBatchStatus {
                batch_id: id.to_string(),
                configuration_revision: 1,
                started_at,
                queued_routes: 0,
                reused_routes: 0,
                models: Vec::new(),
                estimated_remaining_seconds: None,
                candidates: Vec::new(),
                terminal_at,
            },
            candidates: Vec::new(),
        },
    )
}

#[test]
fn probe_batches_are_pruned_by_age_and_count() {
    let mut batches = vec![batch("old", 0, Some(100)), batch("recent", 0, Some(9_000)), batch("open", 0, None)];
    prune_capability_probe_batches(&mut batches, 10_000);
    let ids: Vec<&str> = batches.iter().map(|b| b.0.as_str()).collect();
    assert_eq!(ids, vec!["recent", "open"]);
    let mut many: Vec<_> = (0..260u64).map(|i| batch(&format!("b{i}"), 1_000 - i, None)).collect();
    prune_capability_probe_batches(&mut many, 10_000);
    assert_eq!(many.len(), 256);
    assert!(many.iter().all(|b| b.1.status.started_at > 744));
}

#[test]
fn qualification_levels_follow_the_category_and_profile() {
    let full = UpstreamDialectProfile {
        state: DialectProfileState::Verified,
        capabilities: vec![
            (Capability::TextInput, EvidenceState::Supported),
            (Capability::TextStream, EvidenceState::Supported),
            (Capability::FunctionTools, EvidenceState::Supported),
            (Capability::ToolContinuation, EvidenceState::Supported),
        ],
    };
    assert_eq!(
        classify_qualification_level(ModelQualificationCategory::Passed, Some(&full)),
        ModelQualificationLevel::Full
    );
    let partial = UpstreamDialectProfile {
        state: DialectProfileState::Verified,
        capabilities: vec![(Capability::TextInput, EvidenceState::Supported)],
    };
    assert_eq!(
        classify_qualification_level(ModelQualificationCategory::Passed, Some(&partial)),
        ModelQualificationLevel::Adapted
    );
    assert_eq!(
        classify_qualification_level(ModelQualificationCategory::Passed, None),
        ModelQualificationLevel::Adapted
    );
    assert_eq!(
        classify_qualification_level(ModelQualificationCategory::Timeout, Some(&full)),
        ModelQualificationLevel::OperationalFailure
    );
    assert_eq!(
        classify_qualification_level(ModelQualificationCategory::ModelNotFound, Some(&full)),
        ModelQualificationLevel::Unusable
    );
    assert!(ModelQualificationCategory::RateLimit.is_operational());
    assert!(!ModelQualificationCategory::RateLimit.requires_confirmation());
    assert!(ModelQualificationCategory::EmptyResponse.requires_confirmation());
}

#[test]
fn discovery_errors_and_model_lists() {
    let status = ModelDiscoveryError::HttpStatus(503);
    assert_eq!(status.code(), "http_status");
    assert_eq!(status.http_status(), Some(503));
    assert_eq!(status.message(), "upstream model discovery returned status 503");
    assert_eq!(ModelDiscoveryError::Timeout.http_status(), None);
    assert_eq!(ModelDiscoveryError::EmptyModels.message(), "upstream returned no models");
    let models = normalized_discovered_models(&[
        " gpt-4 ".to_string(),
        "a".to_string(),
        "gpt-4".to_string(),
        " ".to_string(),
    ])
    .expect("models");
    assert_eq!(models, vec!["a", "gpt-4"]);
    assert_eq!(
        normalized_discovered_models(&[" ".to_string()]),
        Err(ModelDiscoveryError::EmptyModels)
    );
    assert_eq!(discovery_concurrency(0), 1);
    assert_eq!(discovery_concurrency(20), 8);
    assert_eq!(blank_key_outcome(""), Some(ModelDiscoveryError::Request));
    assert_eq!(blank_key_outcome("k"), None);
}

#[test]
fn discovery_queries_each_key_once_and_reports_each_position() {
    let keys = vec!["k1".to_string(), " k2".to_string(), "k1 ".to_string()];
    let groups = group_discovery_keys(&keys);
    assert_eq!(groups, vec![("k1".to_string(), vec![0, 2]), ("k2".to_string(), vec![1])]);
    let outcomes = vec![
        (vec!["m".to_string()], 12u64, None),
        (Vec::new(), 5u64, Some(ModelDiscoveryError::HttpStatus(401))),
    ];
    let results = discovery_results(&keys, &outcomes);
    assert_eq!(results.len(), 3);
    assert_eq!(results[0].models, vec!["m".to_string()]);
    assert_eq!(results[2].latency_ms, 12);
    assert_eq!(results[1].error_code.as_deref(), Some("http_status"));
    assert_eq!(results[1].http_status, Some(401));
    assert_eq!(results[1].key_index, 1);
}

#[test]
fn calendar_days_measure_and_check_their_shape() {
    let day = CalendarDay {
        day: "2024-03-10".into(),
        timezone: "UTC".into(),
        start_time: 100,
        end_time: 86_500,
    };
    assert_eq!(day.duration_seconds(), 86_400);
    let inverted = CalendarDay { start_time: 10, end_time: 5, ..day.clone() };
    assert_eq!(inverted.duration_seconds(), 0);
    assert!(is_day_shaped("2024-03-10"));
    assert!(!is_day_shaped("2024/03/10"));
    assert!(!is_day_shaped("24-03-10"));
    assert_eq!(
        CalendarError::InvalidDay("x".into()).message(),
        "invalid calendar day: x; expected YYYY-MM-DD"
    );
    assert_eq!(
        CalendarError::EmptyRange.message(),
        "calendar range must contain at least one day"
    );
}
