use chat_responses_codex::config::UpstreamProtocol;
use chat_responses_codex::routing_memory::{
    routing_affinity_key, routing_model_key, routing_tie_breaker_key, FallbackStageFailures, RoutingAffinity,
    RoutingTieBreakers,
};
use chat_responses_codex::text_map::TextMap;

#[test]
fn routing_keys_follow_case_matching() {
    assert_eq!(routing_model_key("  GPT-4o ", true), "gpt-4o");
    assert_eq!(routing_model_key("  GPT-4o ", false), "GPT-4o");
    assert_eq!(routing_affinity_key("d1", "GPT-4o", true), "d1::gpt-4o");
    assert_eq!(routing_tie_breaker_key("d1", "GPT-4o", UpstreamProtocol::Responses, false), "d1::GPT-4o::Responses");
    assert_eq!(
        routing_tie_breaker_key("d1", "m", UpstreamProtocol::ChatCompletions, true),
        "d1::m::ChatCompletions"
    );
}

#[test]
fn affinity_holds_until_it_expires() {
    let mut a = RoutingAffinity::new();
    assert_eq!(a.get_affinity_upstream("d1", "m", true, 100), None);
    a.set_affinity_upstream("d1", "M", "u1", 10, true, 100);
    assert_eq!(a.get_affinity_upstream("d1", "m", true, 109), Some("u1".to_string()));
    assert_eq!(a.get_affinity_upstream("d1", "M", false, 109), None);
    assert_eq!(a.get_affinity_upstream("d1", "m", true, 110), None);
    a.set_affinity_upstream("d1", "m", "u2", 0, true, 200);
    assert_eq!(a.get_affinity_upstream("d1", "m", true, 200), Some("u2".to_string()));
    a.clear_affinity_upstream("d1", " M ", true);
    assert_eq!(a.get_affinity_upstream("d1", "m", true, 200), None);
}

#[test]
fn tie_breakers_count_per_key() {
    let mut t = RoutingTieBreakers::new();
    assert_eq!(t.next_routing_tie_breaker("d1", "m", UpstreamProtocol::Responses, true), 0);
    assert_eq!(t.next_routing_tie_breaker("d1", "M", UpstreamProtocol::Responses, true), 1);
    assert_eq!(t.next_routing_tie_breaker("d1", "m", UpstreamProtocol::ChatCompletions, true), 0);
    assert_eq!(t.next_routing_tie_breaker("d1", "m", UpstreamProtocol::Responses, true), 2);
}

#[test]
fn stage_failures_count_up_to_three_and_clear_by_route() {
    let mut f = FallbackStageFailures::new();
    for _ in 0..5 {
        f.record_fallback_stage_failure("D1", "codex", "gpt", "u1", "stream");
    }
    f.record_fallback_stage_failure("d1", "codex", "gpt", "u1", "tools");
    f.record_fallback_stage_failure("d1", "codex", "gpt", "u2", "stream");
    assert_eq!(f.fallback_stage_failure_count("d1", "Codex", "GPT", "u1", "stream"), 3);
    assert_eq!(f.fallback_stage_failure_count("d1", "codex", "gpt", "u1", "tools"), 1);
    f.clear_fallback_stage_failures(" d1", "codex", "gpt", "U1");
    assert_eq!(f.fallback_stage_failure_count("d1", "codex", "gpt", "u1", "stream"), 0);
    assert_eq!(f.fallback_stage_failure_count("d1", "codex", "gpt", "u1", "tools"), 0);
    assert_eq!(f.fallback_stage_failure_count("d1", "codex", "gpt", "u2", "stream"), 1);
}

#[test]
fn text_map_basics() {
    let mut m: TextMap<u32> = TextMap::new();
    m.insert("a::1".to_string(), 1);
    m.insert("a::2".to_string(), 2);
    m.insert("b::1".to_string(), 3);
    m.insert("a::1".to_string(), 4);
    assert_eq!(m.get("a::1"), Some(&4));
    m.remove("a::2");
    assert_eq!(m.get("a::2"), None);
    m.retain_without_prefix("a::");
    assert_eq!(m.get("a::1"), None);
    assert_eq!(m.get("b::1"), Some(&3));
}
