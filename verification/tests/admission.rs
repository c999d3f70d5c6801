use chat_responses_codex::admission::{reserve_downstream_admission, reserve_downstream_request};
use chat_responses_codex::config::{DownstreamConfig, ModelConcurrencyGroup};
use chat_responses_codex::cost_window::{check_daily_cost_window, daily_cost_limit, DownstreamTokenEvent};
use chat_responses_codex::downstream_runtime::DownstreamRuntime;
use chat_responses_codex::request_window::DownstreamRequestEvent;
use chat_responses_codex::runtime::DownstreamAdmissionRejection;

fn downstream(per_minute: u32, max_concurrency: u32, rate_limit_enabled: bool) -> DownstreamConfig {
    DownstreamConfig {
        id: "d1".to_string(),
        name: "d1".to_string(),
        hash: "h".to_string(),
        plaintext_key: None,
        plaintext_key_prefix: None,
        model_allowlist: Vec::new(),
        rate_limit_enabled,
        per_minute_limit: per_minute,
        max_concurrency,
        active: true,
        billing_mode: "request".to_string(),
        is_portal_key: false,
        model_group_id: None,
        daily_token_limit: None,
        monthly_token_limit: None,
        input_token_price_per_million_cents: None,
        output_token_price_per_million_cents: None,
        daily_cost_limit_cents: None,
        request_quota_window_hours: None,
        request_quota_requests: None,
        ip_allowlist: Vec::new(),
        expires_at: None,
        model_concurrency_groups: Vec::new(),
    }
}

#[test]
fn request_slots_are_recorded_until_the_minute_is_full() {
    let d = downstream(2, 5, true);
    let mut window: Vec<DownstreamRequestEvent> = Vec::new();
    let mut tokens: Vec<DownstreamTokenEvent> = Vec::new();
    let first = reserve_downstream_request(&mut window, &mut tokens, &d, 100).unwrap();
    assert!(first.event_id.is_some());
    reserve_downstream_request(&mut window, &mut tokens, &d, 101).unwrap();
    assert_eq!(window.len(), 2);
    match reserve_downstream_request(&mut window, &mut tokens, &d, 102) {
        Err(DownstreamAdmissionRejection::PerMinuteLimitExceeded { retry_after_seconds, limit, used }) => {
            assert_eq!((retry_after_seconds, limit, used), (58, 2, 2));
        }
        other => panic!("unexpected {other:?}"),
    }
    assert_eq!(window.len(), 2);
}

#[test]
fn refused_lease_takes_the_request_slot_back() {
    let d = downstream(10, 5, true);
    let g = ModelConcurrencyGroup { name: "g".to_string(), pattern: "g-*".to_string(), max_concurrency: 1 };
    let mut window: Vec<DownstreamRequestEvent> = Vec::new();
    let mut tokens: Vec<DownstreamTokenEvent> = Vec::new();
    let mut runtime = DownstreamRuntime::new();
    let (res, lease) = reserve_downstream_admission(&mut window, &mut tokens, &mut runtime, &d, Some(&g), 300, 100, 100_000).unwrap();
    assert!(res.event_id.is_some());
    assert!(lease.lease_id.is_some());
    assert_eq!(window.len(), 1);
    let refused = reserve_downstream_admission(&mut window, &mut tokens, &mut runtime, &d, Some(&g), 300, 100, 100_000);
    assert!(matches!(refused, Err(DownstreamAdmissionRejection::ConcurrencyLimitExceeded { .. })));
    assert_eq!(window.len(), 1);
    assert_eq!(runtime.runtime_counts("d1"), (1, 0));
}

#[test]
fn unlimited_keys_skip_both_gates() {
    let d = downstream(0, 0, false);
    let mut window: Vec<DownstreamRequestEvent> = Vec::new();
    let mut tokens: Vec<DownstreamTokenEvent> = Vec::new();
    let mut runtime = DownstreamRuntime::new();
    let (res, lease) = reserve_downstream_admission(&mut window, &mut tokens, &mut runtime, &d, None, 300, 100, 100_000).unwrap();
    assert!(res.event_id.is_none());
    assert!(lease.lease_id.is_none());
    assert!(window.is_empty());
}

fn cost_billed(limit: Option<u64>) -> DownstreamConfig {
    DownstreamConfig {
        billing_mode: "token".to_string(),
        input_token_price_per_million_cents: Some(100),
        daily_cost_limit_cents: limit,
        ..downstream(100, 5, true)
    }
}

#[test]
fn daily_cost_limit_needs_token_billing_and_a_price() {
    assert_eq!(daily_cost_limit(&cost_billed(Some(50))), Some(50));
    assert_eq!(daily_cost_limit(&cost_billed(None)), None);
    let no_price = DownstreamConfig { input_token_price_per_million_cents: None, ..cost_billed(Some(50)) };
    assert_eq!(daily_cost_limit(&no_price), None);
    let by_request = DownstreamConfig { billing_mode: "request".to_string(), ..cost_billed(Some(50)) };
    assert_eq!(daily_cost_limit(&by_request), None);
}

#[test]
fn spent_daily_cost_refuses_the_request() {
    let d = cost_billed(Some(50));
    let mut window: Vec<DownstreamRequestEvent> = Vec::new();
    let mut tokens = vec![
        DownstreamTokenEvent { created_at: 10, tokens: 99 },
        DownstreamTokenEvent { created_at: 100_000, tokens: 30 },
        DownstreamTokenEvent { created_at: 100_500, tokens: 25 },
    ];
    match reserve_downstream_request(&mut window, &mut tokens, &d, 101_000) {
        Err(DownstreamAdmissionRejection::DailyCostQuotaExceeded { retry_after_seconds, limit, used }) => {
            assert_eq!((limit, used), (50, 55));
            assert_eq!(retry_after_seconds, 100_000 + 86_400 - 101_000);
        }
        other => panic!("unexpected {other:?}"),
    }
    assert!(window.is_empty());
    assert_eq!(tokens.len(), 2);
    assert!(reserve_downstream_request(&mut window, &mut tokens, &d, 186_401).is_ok());
    assert_eq!(tokens.len(), 1);
    assert_eq!(window.len(), 1);
}

#[test]
fn cost_window_admits_below_the_limit_and_counts_a_zero_limit_as_one() {
    let mut tokens = vec![DownstreamTokenEvent { created_at: 5, tokens: 49 }];
    assert!(check_daily_cost_window(&mut tokens, 50, 10).is_ok());
    let mut none_spent: Vec<DownstreamTokenEvent> = Vec::new();
    assert!(check_daily_cost_window(&mut none_spent, 0, 10).is_ok());
    let mut one_spent = vec![DownstreamTokenEvent { created_at: 9, tokens: 1 }];
    match check_daily_cost_window(&mut one_spent, 0, 10) {
        Err(DownstreamAdmissionRejection::DailyCostQuotaExceeded { retry_after_seconds, limit, used }) => {
            assert_eq!((retry_after_seconds, limit, used), (86_399, 1, 1));
        }
        other => panic!("unexpected {other:?}"),
    }
}
