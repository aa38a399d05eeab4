use opencode_discovery::discovery::{discover_opencode_provider_keys, ProviderKeyDiscoveryResult};
use opencode_discovery::models_cache::read_opencode_models_cache_provider_keys;

fn strings(keys: &[&str]) -> Vec<String> {
    keys.iter().map(|k| k.to_string()).collect()
}

fn discover(
    config: &[&str],
    auth: &[&str],
    models_cache: Option<&str>,
) -> Result<ProviderKeyDiscoveryResult, String> {
    discover_opencode_provider_keys(
        Ok(strings(config)),
        Ok(strings(auth)),
        read_opencode_models_cache_provider_keys(models_cache),
    )
}

#[test]
fn discover_with_all_sources_empty() {
    let result = discover(&[], &[], None).unwrap();
    assert!(result.keys.is_empty());
    assert!(result.config_keys.is_empty());
    assert!(result.auth_keys.is_empty());
    assert!(result.internal_keys.is_empty());
}

#[test]
fn discover_with_config_only() {
    let result = discover(&["my-custom-provider"], &[], None).unwrap();
    assert_eq!(result.keys.len(), 1);
    assert_eq!(result.keys[0].key, "my-custom-provider");
    assert!(result.keys[0].has_config);
    assert!(!result.keys[0].has_auth);
    assert!(!result.keys[0].is_internal);
    assert_eq!(result.config_keys.len(), 1);
    assert!(result.auth_keys.is_empty());
    assert!(result.internal_keys.is_empty());
}

#[test]
fn discover_with_auth_only() {
    let result = discover(&[], &["auth-only-provider"], None).unwrap();
    assert_eq!(result.keys.len(), 1);
    assert_eq!(result.keys[0].key, "auth-only-provider");
    assert!(!result.keys[0].has_config);
    assert!(result.keys[0].has_auth);
    assert!(!result.keys[0].is_internal);
    assert!(result.config_keys.is_empty());
    assert_eq!(result.auth_keys.len(), 1);
    assert!(result.internal_keys.is_empty());
}

#[test]
fn discover_with_internal_only() {
    let result = discover(
        &[],
        &[],
        Some(r#"{"anthropic": {"id": "anthropic"}, "openai": {"id": "openai"}}"#),
    )
    .unwrap();
    assert!(
        result.keys.is_empty(),
        "internal-only keys should not appear as discovered keys"
    );
    assert!(result.config_keys.is_empty());
    assert!(result.auth_keys.is_empty());
    assert_eq!(result.internal_keys.len(), 2);
    assert!(result.internal_keys.contains(&"anthropic".to_string()));
    assert!(result.internal_keys.contains(&"openai".to_string()));
}

#[test]
fn discover_combines_all_sources() {
    let result = discover(
        &["config-only", "in-both"],
        &["auth-only", "in-both"],
        Some(r#"{"anthropic": {"id": "anthropic"}, "in-both": {"id": "in-both"}}"#),
    )
    .unwrap();
    assert_eq!(result.keys.len(), 3);

    let auth_only = result.keys.iter().find(|k| k.key == "auth-only").unwrap();
    assert!(!auth_only.has_config);
    assert!(auth_only.has_auth);
    assert!(!auth_only.is_internal);

    let config_only = result.keys.iter().find(|k| k.key == "config-only").unwrap();
    assert!(config_only.has_config);
    assert!(!config_only.has_auth);
    assert!(!config_only.is_internal);

    let in_both = result.keys.iter().find(|k| k.key == "in-both").unwrap();
    assert!(in_both.has_config);
    assert!(in_both.has_auth);
    assert!(in_both.is_internal);
}

#[test]
fn discover_missing_auth_file_is_non_fatal() {
    let result = discover(&["config-only"], &[], None).unwrap();
    assert_eq!(result.keys.len(), 1);
    assert_eq!(result.keys[0].key, "config-only");
    assert!(result.keys[0].has_config);
    assert!(!result.keys[0].has_auth);
}

#[test]
fn discover_invalid_auth_returns_error() {
    let result = discover_opencode_provider_keys(
        Ok(Vec::new()),
        Err("failed to parse auth.json".to_string()),
        Vec::new(),
    );
    assert!(
        result.is_err(),
        "invalid auth.json should propagate error per stage1 safety rules"
    );
}

#[test]
fn discover_missing_models_cache_is_non_fatal() {
    let result = discover(&["my-provider"], &["my-provider"], None).unwrap();
    assert_eq!(result.keys.len(), 1);
    assert!(result.keys[0].has_config);
    assert!(result.keys[0].has_auth);
    assert!(!result.keys[0].is_internal);
    assert!(result.internal_keys.is_empty());
}

#[test]
fn discover_keys_are_sorted() {
    let result = discover(&["z-provider", "a-provider", "m-provider"], &[], None).unwrap();
    let keys: Vec<&str> = result.keys.iter().map(|k| k.key.as_str()).collect();
    assert_eq!(keys, vec!["a-provider", "m-provider", "z-provider"]);
}

#[test]
fn discover_internal_partial_override_without_npm() {
    let result = discover(&["anthropic"], &[], Some(r#"{"anthropic": {"id": "anthropic"}}"#)).unwrap();
    assert_eq!(result.keys.len(), 1);
    assert_eq!(result.keys[0].key, "anthropic");
    assert!(result.keys[0].has_config);
    assert!(!result.keys[0].has_auth);
    assert!(result.keys[0].is_internal);
    assert_eq!(result.config_keys.len(), 1);
    assert!(result.auth_keys.is_empty());
    assert!(result.internal_keys.contains(&"anthropic".to_string()));
}

#[test]
fn discover_non_internal_partial_config_remains_non_internal() {
    let result = discover(&["some-custom"], &[], None).unwrap();
    assert_eq!(result.keys.len(), 1);
    assert_eq!(result.keys[0].key, "some-custom");
    assert!(result.keys[0].has_config);
    assert!(!result.keys[0].has_auth);
    assert!(!result.keys[0].is_internal);
    assert_eq!(result.config_keys.len(), 1);
    assert!(result.auth_keys.is_empty());
    assert!(result.internal_keys.is_empty());
}

#[test]
fn discover_config_error_comes_before_auth_error() {
    let result = discover_opencode_provider_keys(
        Err("config".to_string()),
        Err("auth".to_string()),
        strings(&["anthropic"]),
    );
    assert_eq!(result.unwrap_err(), "config");
}

#[test]
fn discover_invalid_config_returns_error() {
    let result: Result<_, String> = discover_opencode_provider_keys(
        Err("config".to_string()),
        Ok(strings(&["auth-only"])),
        Vec::new(),
    );
    assert_eq!(result.unwrap_err(), "config");
}

#[test]
fn discover_sorts_every_source_list() {
    let result = discover(
        &["z", "b", "z"],
        &["y", "a"],
        Some(r#"{"x": {}, "c": {}}"#),
    )
    .unwrap();
    assert_eq!(result.config_keys, vec!["b", "z"]);
    assert_eq!(result.auth_keys, vec!["a", "y"]);
    assert_eq!(result.internal_keys, vec!["c", "x"]);
    let keys: Vec<&str> = result.keys.iter().map(|k| k.key.as_str()).collect();
    assert_eq!(keys, vec!["a", "b", "y", "z"]);
}

#[test]
fn discover_does_not_depend_on_input_order_or_repeats() {
    let first = discover(&["b", "a"], &["c", "a"], Some(r#"{"a": {}}"#)).unwrap();
    let second = discover(&["a", "b", "a"], &["a", "c", "c"], Some(r#"{"a": {}, "a": {}}"#)).unwrap();
    assert_eq!(first.config_keys, second.config_keys);
    assert_eq!(first.auth_keys, second.auth_keys);
    assert_eq!(first.internal_keys, second.internal_keys);
    assert_eq!(first.keys.len(), second.keys.len());
    for (x, y) in first.keys.iter().zip(second.keys.iter()) {
        assert_eq!(x.key, y.key);
        assert_eq!(x.has_config, y.has_config);
        assert_eq!(x.has_auth, y.has_auth);
        assert_eq!(x.is_internal, y.is_internal);
    }
}

#[test]
fn every_listed_key_has_a_source() {
    let result = discover(&["cfg"], &["key"], Some(r#"{"builtin": {}, "cfg": {}}"#)).unwrap();
    for entry in &result.keys {
        assert!(entry.has_config || entry.has_auth);
    }
    assert!(result.keys.iter().all(|k| k.key != "builtin"));
    assert_eq!(result.internal_keys, vec!["builtin", "cfg"]);
}
