use std::collections::HashSet;

use opencode_discovery::models_cache::{
    provider_keys_from_document, read_opencode_models_cache_provider_keys, JsonTopLevel,
};

#[test]
fn missing_models_cache_returns_empty_set() {
    let keys = read_opencode_models_cache_provider_keys(None);
    assert!(keys.is_empty());
}

#[test]
fn invalid_json_models_cache_returns_empty_set() {
    let keys = read_opencode_models_cache_provider_keys(Some("not valid json"));
    assert!(keys.is_empty());
}

#[test]
fn non_object_models_cache_returns_empty_set() {
    let keys = read_opencode_models_cache_provider_keys(Some(r#"[1, 2, 3]"#));
    assert!(keys.is_empty());
}

#[test]
fn valid_models_cache_returns_provider_keys() {
    let keys: HashSet<String> = read_opencode_models_cache_provider_keys(Some(
        r#"{"anthropic": {"id": "anthropic"}, "openai": {"id": "openai"}, "google": {"id": "google"}}"#,
    ))
    .into_iter()
    .collect();
    let expected: HashSet<String> = ["anthropic", "openai", "google"]
        .into_iter()
        .map(String::from)
        .collect();

    assert_eq!(keys, expected);
}

#[test]
fn valid_models_cache_keys_come_sorted() {
    let keys = read_opencode_models_cache_provider_keys(Some(
        r#"{"openai": {}, "anthropic": {}, "google": {}}"#,
    ));
    assert_eq!(keys, vec!["anthropic", "google", "openai"]);
}

#[test]
fn empty_object_models_cache_lists_no_provider() {
    let keys = read_opencode_models_cache_provider_keys(Some("{}"));
    assert!(keys.is_empty());
}

#[test]
fn scalar_models_cache_returns_empty_set() {
    assert!(read_opencode_models_cache_provider_keys(Some("\"anthropic\"")).is_empty());
    assert!(read_opencode_models_cache_provider_keys(Some("null")).is_empty());
    assert!(read_opencode_models_cache_provider_keys(Some("")).is_empty());
}

#[test]
fn document_with_object_lists_its_keys_once_in_order() {
    let doc = Ok(JsonTopLevel::Object(vec![
        "zeta".to_string(),
        "alpha".to_string(),
        "zeta".to_string(),
    ]));
    assert_eq!(provider_keys_from_document(doc), vec!["alpha", "zeta"]);
}

#[test]
fn document_with_other_top_level_lists_nothing() {
    assert!(provider_keys_from_document(Ok(JsonTopLevel::Other)).is_empty());
}

#[test]
fn document_that_did_not_parse_lists_nothing() {
    let err = serde_json::from_str::<serde_json::Value>("{invalid}").unwrap_err();
    assert!(provider_keys_from_document(Err(err)).is_empty());
}
