use chat_responses_codex::config::DownstreamConfig;
use chat_responses_codex::request_window::{
    check_request_window, record_request_event, rollback_request_event, DownstreamRequestEvent,
};
use chat_responses_codex::runtime::DownstreamAdmissionRejection;

fn downstream(per_minute: u32, hours: Option<u32>, requests: Option<u32>, billing: &str) -> DownstreamConfig {
    DownstreamConfig {
        id: "d".to_string(),
        name: "d".to_string(),
        hash: String::new(),
        plaintext_key: None,
        plaintext_key_prefix: None,
        model_allowlist: Vec::new(),
        rate_limit_enabled: true,
        per_minute_limit: per_minute,
        max_concurrency: 1,
        active: true,
        billing_mode: billing.to_string(),
        is_portal_key: false,
        model_group_id: None,
        daily_token_limit: None,
        monthly_token_limit: None,
        input_token_price_per_million_cents: None,
        output_token_price_per_million_cents: None,
        daily_cost_limit_cents: None,
        request_quota_window_hours: hours,
        request_quota_requests: requests,
        ip_allowlist: Vec::new(),
        expires_at: None,
        model_concurrency_groups: Vec::new(),
    }
}

fn events(times: &[u64]) -> Vec<DownstreamRequestEvent> {
    times.iter().enumerate().map(|(i, t)| DownstreamRequestEvent { event_id: format!("e{i}"), created_at: *t }).collect()
}

#[test]
fn old_events_are_pruned_and_the_minute_limit_applies() {
    let now = 10_000;
    let mut window = events(&[now - 100, now - 10, now - 5]);
    let r = check_request_window(&mut window, &downstream(2, None, None, "request"), now);
    assert_eq!(window.iter().map(|e| e.created_at).collect::<Vec<_>>(), vec![now - 10, now - 5]);
    match r {
        Err(DownstreamAdmissionRejection::PerMinuteLimitExceeded { retry_after_seconds, limit, used }) => {
            assert_eq!((retry_after_seconds, limit, used), (50, 2, 2));
        }
        other => panic!("unexpected {other:?}"),
    }
}

#[test]
fn request_quota_applies_to_request_billing_only() {
    let now = 100_000;
    let mut window = events(&[now - 1000, now - 10]);
    let r = check_request_window(&mut window, &downstream(100, Some(1), Some(2), "request"), now);
    match r {
        Err(DownstreamAdmissionRejection::RequestQuotaExceeded { retry_after_seconds, limit, used, window_seconds }) => {
            assert_eq!((retry_after_seconds, limit, used, window_seconds), (2600, 2, 2, 3600));
        }
        other => panic!("unexpected {other:?}"),
    }
    let mut window = events(&[now - 1000, now - 10]);
    assert!(check_request_window(&mut window, &downstream(100, Some(1), Some(2), "token"), now).is_ok());
    assert_eq!(window.len(), 2);
}

#[test]
fn admitted_requests_are_recorded() {
    let now = 500;
    let mut window = Vec::new();
    assert!(check_request_window(&mut window, &downstream(1, None, None, "request"), now).is_ok());
    record_request_event(&mut window, "ev".to_string(), now);
    assert_eq!(window.len(), 1);
    assert!(matches!(
        check_request_window(&mut window, &downstream(1, None, None, "request"), now + 30),
        Err(DownstreamAdmissionRejection::PerMinuteLimitExceeded { retry_after_seconds: 30, .. })
    ));
}

#[test]
fn rollback_takes_back_only_its_event() {
    let mut window: Vec<DownstreamRequestEvent> = Vec::new();
    record_request_event(&mut window, "e1".to_string(), 10);
    record_request_event(&mut window, "e2".to_string(), 11);
    assert!(!rollback_request_event(&mut window, "e1"));
    assert_eq!(window.len(), 1);
    assert_eq!(window[0].event_id, "e2");
    assert!(!rollback_request_event(&mut window, "missing"));
    assert!(rollback_request_event(&mut window, "e2"));
    assert!(window.is_empty());
}
