use chat_responses_codex::model_discovery::model_discovery_url;

#[test]
fn discovery_url_joins_the_models_path() {
    assert_eq!(model_discovery_url(" https://api.example.test/ "), "https://api.example.test/v1/models");
    assert_eq!(model_discovery_url("https://api.example.test//"), "https://api.example.test/v1/models");
    assert_eq!(model_discovery_url("https://h/proxy"), "https://h/proxy/v1/models");
}
