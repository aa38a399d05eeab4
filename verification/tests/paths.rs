use std::path::Path;

use opencode_discovery::paths::{get_opencode_cache_dir, get_opencode_models_cache_path};

#[test]
fn get_opencode_cache_dir_returns_cache_path() {
    let path = get_opencode_cache_dir("/tmp/cc-switch-discovery-test/home");
    assert!(path.contains(".cache"));
    assert!(path.contains("opencode"));
}

#[test]
fn get_opencode_models_cache_path_ends_with_models_json() {
    let path = get_opencode_models_cache_path("/tmp/cc-switch-discovery-test/home");
    assert_eq!(Path::new(&path).file_name().unwrap(), "models.json");
    assert!(path.contains(".cache"));
}

#[test]
fn cache_dir_is_home_dot_cache_opencode() {
    assert_eq!(get_opencode_cache_dir("/home/user"), "/home/user/.cache/opencode");
}

#[test]
fn cache_dir_does_not_double_a_trailing_separator() {
    assert_eq!(get_opencode_cache_dir("/home/user/"), "/home/user/.cache/opencode");
    assert_eq!(get_opencode_cache_dir("/"), "/.cache/opencode");
}

#[test]
fn cache_dir_under_empty_home_is_relative() {
    assert_eq!(get_opencode_cache_dir(""), ".cache/opencode");
}

#[test]
fn models_cache_path_matches_path_join() {
    for home in ["/home/user", "/home/user/", "", "relative/home", "/"] {
        let expected = Path::new(home).join(".cache").join("opencode").join("models.json");
        assert_eq!(Path::new(&get_opencode_models_cache_path(home)), expected.as_path());
    }
}
