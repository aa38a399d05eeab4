use opencode_discovery::key_order::{compare_keys, contains_key, sorted_unique_keys, KeyOrder};

fn strings(keys: &[&str]) -> Vec<String> {
    keys.iter().map(|k| k.to_string()).collect()
}

#[test]
fn compare_keys_orders_by_bytes() {
    assert_eq!(compare_keys("a-provider", "m-provider"), KeyOrder::Before);
    assert_eq!(compare_keys("m-provider", "a-provider"), KeyOrder::After);
    assert_eq!(compare_keys("openai", "openai"), KeyOrder::Same);
    assert_eq!(compare_keys("open", "openai"), KeyOrder::Before);
    assert_eq!(compare_keys("", "a"), KeyOrder::Before);
    assert_eq!(compare_keys("Z", "a"), KeyOrder::Before);
    assert_eq!(compare_keys("\u{e9}", "z"), KeyOrder::After);
}

#[test]
fn compare_keys_agrees_with_str_ord() {
    let keys = ["", "a", "ab", "b", "B", "in-both", "in", "\u{e9}t\u{e9}", "\u{1f600}", "z"];
    for a in keys {
        for b in keys {
            let expected = match a.cmp(b) {
                std::cmp::Ordering::Less => KeyOrder::Before,
                std::cmp::Ordering::Equal => KeyOrder::Same,
                std::cmp::Ordering::Greater => KeyOrder::After,
            };
            assert_eq!(compare_keys(a, b), expected);
        }
    }
}

#[test]
fn sorted_unique_keys_sorts_and_drops_repeats() {
    let keys = strings(&["z-provider", "a-provider", "m-provider", "a-provider"]);
    assert_eq!(sorted_unique_keys(&keys), vec!["a-provider", "m-provider", "z-provider"]);
    assert!(sorted_unique_keys(&Vec::new()).is_empty());
}

#[test]
fn contains_key_finds_exact_matches_only() {
    let keys = strings(&["anthropic", "openai"]);
    assert!(contains_key(&keys, &"openai".to_string()));
    assert!(!contains_key(&keys, &"open".to_string()));
    assert!(!contains_key(&Vec::new(), &"openai".to_string()));
}
