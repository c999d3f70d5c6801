//! Upstream configuration as the gateway stores it: keys, per-key model
//! lists, model mappings and context windows.
use vstd::prelude::*;
use crate::text::views;

verus! {

/// The wire protocol an upstream speaks.
#[derive(Clone, Copy, Debug, PartialEq, Eq, Structural)]
pub enum UpstreamProtocol {
    ChatCompletions,
    Responses,
}

/// The protocol of a capability probe or dialect profile.
#[derive(Clone, Copy, Debug, PartialEq, Eq, Structural)]
pub enum WireProtocol {
    ChatCompletions,
    Responses,
    Messages,
}

/// The models one upstream key can serve.
#[derive(Clone, Debug, PartialEq, Eq)]
pub struct ApiKeyModelConfig {
    pub api_key: String,
    pub supported_models: Vec<String>,
}

/// Exposes an upstream model under a different downstream name.
#[derive(Clone, Debug, PartialEq, Eq)]
pub struct UpstreamModelMapping {
    pub upstream_model: String,
    pub downstream_model: String,
}

/// The context window of one model slug.
#[derive(Clone, Debug, PartialEq, Eq)]
pub struct ModelContextConfig {
    pub slug: String,
    pub context_limit: u32,
    pub output_reserve: u32,
    pub max_output_tokens: u32,
    pub context_group: String,
}

/// The context window applied to models without an explicit entry.
#[derive(Clone, Debug, PartialEq, Eq)]
pub struct DefaultModelContextConfig {
    pub context_limit: u32,
    pub output_reserve: u32,
    pub max_output_tokens: u32,
    pub context_group: String,
}

/// Context windows shared by every upstream with the same base URL.
#[derive(Clone, Debug, PartialEq, Eq)]
pub struct GlobalContextProfile {
    pub model_contexts: Vec<ModelContextConfig>,
    pub default_model_context: Option<DefaultModelContextConfig>,
}

/// One configured upstream provider.
#[derive(Clone, Debug, PartialEq, Eq)]
pub struct UpstreamConfig {
    pub id: String,
    pub name: String,
    pub base_url: String,
    pub api_key: String,
    pub api_keys: Vec<String>,
    pub api_key_models: Vec<ApiKeyModelConfig>,
    pub supported_models: Vec<String>,
    pub premium_models: Vec<String>,
    pub protocol: UpstreamProtocol,
    pub protocols: Vec<UpstreamProtocol>,
    pub model_mappings: Vec<UpstreamModelMapping>,
    pub model_contexts: Vec<ModelContextConfig>,
    pub default_model_context: Option<DefaultModelContextConfig>,
    pub remark: String,
    pub continuation_provider_group: Option<String>,
    pub failure_count: u32,
    pub max_concurrency: u32,
    pub request_quota_window_hours: u32,
    pub active: bool,
    pub auto_managed: bool,
    pub last_synced_at: u64,
    pub request_quota_requests: u32,
    pub requests_per_minute: u32,
    pub priority: u32,
    pub premium_only: bool,
    pub protect_premium_quota: bool,
    pub strip_nonstandard_chat_fields: bool,
    pub managed_source: Option<String>,
}

/// Output tokens reserved when a context entry leaves the reserve at zero.
pub const DEFAULT_MODEL_CONTEXT_OUTPUT_RESERVE: u32 = 8192;

/// Concurrent requests allowed per upstream unless configured otherwise.
pub const DEFAULT_UPSTREAM_MAX_CONCURRENCY: u32 = 16;

/// A key-model entry as plain values.
pub type KeyModelsView = (Seq<char>, Seq<Seq<char>>);

pub open spec fn key_models_view(v: Seq<ApiKeyModelConfig>) -> Seq<KeyModelsView> {
    v.map_values(|m: ApiKeyModelConfig| (m.api_key@, views(m.supported_models@)))
}

/// A mapping as plain values: (upstream model, downstream model).
pub open spec fn mappings_view(v: Seq<UpstreamModelMapping>) -> Seq<(Seq<char>, Seq<char>)> {
    v.map_values(|m: UpstreamModelMapping| (m.upstream_model@, m.downstream_model@))
}

impl Default for UpstreamConfig {
    fn default() -> (r: Self)
        ensures
            r.id@.len() == 0 && r.name@.len() == 0 && r.base_url@.len() == 0 && r.api_key@.len()
                == 0,
            r.api_keys@.len() == 0 && r.api_key_models@.len() == 0 && r.supported_models@.len()
                == 0 && r.premium_models@.len() == 0,
            r.protocol == UpstreamProtocol::ChatCompletions,
            r.protocols@ == seq![UpstreamProtocol::ChatCompletions],
            r.model_mappings@.len() == 0 && r.model_contexts@.len() == 0,
            r.default_model_context is None,
            r.remark@.len() == 0,
            r.continuation_provider_group is None,
            r.failure_count == 0,
            r.max_concurrency == DEFAULT_UPSTREAM_MAX_CONCURRENCY,
            r.request_quota_window_hours == 1,
            r.active,
            !r.auto_managed,
            r.last_synced_at == 0,
            r.request_quota_requests == 0 && r.requests_per_minute == 0 && r.priority == 0,
            !r.premium_only && !r.protect_premium_quota && !r.strip_nonstandard_chat_fields,
            r.managed_source is None,
    {
        UpstreamConfig {
            id: String::new(),
            name: String::new(),
            base_url: String::new(),
            api_key: String::new(),
            api_keys: Vec::new(),
            api_key_models: Vec::new(),
            supported_models: Vec::new(),
            premium_models: Vec::new(),
            protocol: UpstreamProtocol::ChatCompletions,
            protocols: vec![UpstreamProtocol::ChatCompletions],
            model_mappings: Vec::new(),
            model_contexts: Vec::new(),
            default_model_context: None,
            remark: String::new(),
            continuation_provider_group: None,
            failure_count: 0,
            max_concurrency: DEFAULT_UPSTREAM_MAX_CONCURRENCY,
            request_quota_window_hours: 1,
            active: true,
            auto_managed: false,
            last_synced_at: 0,
            request_quota_requests: 0,
            requests_per_minute: 0,
            priority: 0,
            premium_only: false,
            protect_premium_quota: false,
            strip_nonstandard_chat_fields: false,
            managed_source: None,
        }
    }
}

/// One downstream API key.
#[derive(Clone, Debug, PartialEq, Eq)]
pub struct DownstreamConfig {
    pub id: String,
    pub name: String,
    pub hash: String,
    pub plaintext_key: Option<String>,
    pub plaintext_key_prefix: Option<String>,
    pub model_allowlist: Vec<String>,
    pub rate_limit_enabled: bool,
    pub per_minute_limit: u32,
    pub max_concurrency: u32,
    pub active: bool,
    pub billing_mode: String,
    pub is_portal_key: bool,
    pub model_group_id: Option<String>,
    pub daily_token_limit: Option<u64>,
    pub monthly_token_limit: Option<u64>,
    pub input_token_price_per_million_cents: Option<u64>,
    pub output_token_price_per_million_cents: Option<u64>,
    pub daily_cost_limit_cents: Option<u64>,
    pub request_quota_window_hours: Option<u32>,
    pub request_quota_requests: Option<u32>,
    pub ip_allowlist: Vec<String>,
    pub expires_at: Option<u64>,
    pub model_concurrency_groups: Vec<ModelConcurrencyGroup>,
}

/// A per-model concurrency cap of a downstream key: requests for models
/// matching `pattern` share `max_concurrency` slots.
#[derive(Clone, Debug, PartialEq, Eq)]
pub struct ModelConcurrencyGroup {
    pub name: String,
    pub pattern: String,
    pub max_concurrency: u32,
}

/// One logged gateway request.
#[derive(Clone, Debug, PartialEq, Eq)]
pub struct UsageLog {
    pub downstream_key_id: String,
    pub model: String,
    pub endpoint: String,
    pub status_code: u16,
    pub total_tokens: u64,
    pub created_at: u64,
    pub inference_strength: Option<String>,
    pub billing_mode: Option<String>,
    pub request_count: Option<u64>,
    pub user_agent: Option<String>,
}

/// The persisted configuration and logs the pure queries read.
#[derive(Clone, Debug)]
pub struct PersistedState {
    pub upstreams: Vec<UpstreamConfig>,
    pub downstreams: Vec<DownstreamConfig>,
    pub usage_logs: Vec<UsageLog>,
    pub global_context_profiles: Vec<(String, GlobalContextProfile)>,
}

pub open spec fn opt_view(o: Option<String>) -> Option<Seq<char>> {
    match o {
        Some(s) => Some(s@),
        None => None,
    }
}

/// The gateway settings that upstream concurrency coordination reads.
#[derive(Clone, Debug)]
pub struct AppConfig {
    pub upstream_concurrency_probe_delays_ms: Vec<u64>,
    pub upstream_concurrency_recovery_max_wait_ms: u64,
    pub upstream_response_header_timeout_seconds: u64,
    pub upstream_concurrency_status_refresh_seconds: u64,
}

} // verus!
