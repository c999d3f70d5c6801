use chat_responses_codex::response_history::{
    ResponseHistoryStore, RESPONSE_HISTORY_MAX_ENTRIES, RESPONSE_HISTORY_TTL_SECONDS,
};

fn payload_of(store: &mut ResponseHistoryStore<String>, key: &str, id: &str, now: u64) -> Option<(String, u64)> {
    store.get(key, id, now).map(|e| (e.payload, e.created_at))
}

#[test]
fn stored_history_is_found() {
    let mut store = ResponseHistoryStore::new();
    store.insert("d1".to_string(), "resp_1".to_string(), "items".to_string(), 100, 100);
    assert_eq!(payload_of(&mut store, "d1", "resp_1", 100), Some(("items".to_string(), 100)));
    assert_eq!(payload_of(&mut store, "d2", "resp_1", 100), None);
    assert_eq!(payload_of(&mut store, "d1", "resp_2", 100), None);
}

#[test]
fn history_expires_after_the_ttl() {
    let mut store = ResponseHistoryStore::new();
    store.insert("d1".to_string(), "r".to_string(), "x".to_string(), 0, 0);
    assert_eq!(RESPONSE_HISTORY_TTL_SECONDS, 12 * 60 * 60);
    assert_eq!(payload_of(&mut store, "d1", "r", RESPONSE_HISTORY_TTL_SECONDS), Some(("x".to_string(), 0)));
    assert_eq!(payload_of(&mut store, "d1", "r", RESPONSE_HISTORY_TTL_SECONDS + 1), None);
    assert_eq!(payload_of(&mut store, "d1", "r", 0), None);
}

#[test]
fn storing_a_key_again_replaces_it() {
    let mut store = ResponseHistoryStore::new();
    store.insert("d1".to_string(), "r".to_string(), "first".to_string(), 10, 10);
    store.insert("d1".to_string(), "other".to_string(), "o".to_string(), 11, 11);
    store.insert("d1".to_string(), "r".to_string(), "second".to_string(), 12, 12);
    assert_eq!(payload_of(&mut store, "d1", "r", 12), Some(("second".to_string(), 12)));
    assert_eq!(payload_of(&mut store, "d1", "other", 12), Some(("o".to_string(), 11)));
}

#[test]
fn oldest_history_is_dropped_beyond_capacity() {
    let mut store = ResponseHistoryStore::new();
    for i in 0..=RESPONSE_HISTORY_MAX_ENTRIES {
        store.insert("d".to_string(), format!("r{i}"), format!("p{i}"), 5, 5);
    }
    assert_eq!(RESPONSE_HISTORY_MAX_ENTRIES, 2048);
    assert_eq!(payload_of(&mut store, "d", "r0", 5), None);
    assert_eq!(payload_of(&mut store, "d", "r1", 5), Some(("p1".to_string(), 5)));
    assert_eq!(payload_of(&mut store, "d", "r2048", 5), Some(("p2048".to_string(), 5)));
}

#[test]
fn eviction_stops_at_the_first_live_history() {
    let mut store = ResponseHistoryStore::new();
    store.insert("d".to_string(), "late".to_string(), "a".to_string(), 100, 100);
    store.insert("d".to_string(), "early".to_string(), "b".to_string(), 0, 100);
    let now = RESPONSE_HISTORY_TTL_SECONDS + 50;
    assert_eq!(payload_of(&mut store, "d", "early", now), Some(("b".to_string(), 0)));
    assert_eq!(payload_of(&mut store, "d", "late", now), Some(("a".to_string(), 100)));
}
