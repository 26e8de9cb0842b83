use i18n_core::locale::{lookup_fallback, resolve};

fn strings(items: &[&str]) -> Vec<String> {
    items.iter().map(|s| s.to_string()).collect()
}

fn reference_parent(locale: &str) -> Option<String> {
    locale
        .rfind('-')
        .map(|n| locale[..n].trim_end_matches("-x").to_string())
}

#[test]
fn chain_of_private_use_tag() {
    let chain = resolve("zh-Hant-CN-x-priv", &Vec::new());
    assert_eq!(
        chain,
        strings(&["zh-Hant-CN-x-priv", "zh-Hant-CN", "zh-Hant", "zh"])
    );
}

#[test]
fn chain_of_private_use_tag_then_fallbacks() {
    let chain = resolve("zh-Hant-CN-x-priv", &strings(&["en", "zh", "ja"]));
    assert_eq!(
        chain,
        strings(&["zh-Hant-CN-x-priv", "zh-Hant-CN", "zh-Hant", "zh", "en", "ja"])
    );
}

#[test]
fn chain_of_empty_locale_is_empty() {
    assert!(resolve("", &Vec::new()).is_empty());
    assert!(resolve("", &strings(&["en", "fr"])).is_empty());
}

#[test]
fn chain_of_plain_locale() {
    assert_eq!(resolve("en", &Vec::new()), strings(&["en"]));
    assert_eq!(resolve("en", &strings(&["en"])), strings(&["en"]));
    assert_eq!(
        resolve("en-US", &strings(&["fr", "fr", "en"])),
        strings(&["en-US", "en", "fr"])
    );
}

#[test]
fn parent_of_locale() {
    assert_eq!(lookup_fallback("en"), None);
    assert_eq!(lookup_fallback(""), None);
    assert_eq!(lookup_fallback("en-US"), Some("en".to_string()));
    assert_eq!(
        lookup_fallback("zh-Hant-CN-x-private1-private2"),
        Some("zh-Hant-CN-x-private1".to_string())
    );
    assert_eq!(
        lookup_fallback("zh-Hant-CN-x-private1"),
        Some("zh-Hant-CN".to_string())
    );
    assert_eq!(lookup_fallback("a-x-x-b"), Some("a".to_string()));
    assert_eq!(lookup_fallback("-foo"), Some(String::new()));
    assert_eq!(lookup_fallback("en-"), Some("en".to_string()));
}

#[test]
fn parent_agrees_with_string_search() {
    let samples = [
        "", "-", "--", "x", "-x", "a-x", "a-x-", "a-x-x", "a-x-x-x-b", "zh-Hant", "zh-Hant-CN",
        "zh-Hant-CN-x-priv", "fr-CA-x-ca", "é-ü", "日本-語-x-私", "x-x", "ab-xx", "ab-x-c-x",
    ];
    for s in samples {
        assert_eq!(lookup_fallback(s), reference_parent(s), "locale {:?}", s);
    }
}

#[test]
fn chain_descends_and_has_no_duplicates() {
    let chain = resolve("a-b-c-x-d", &strings(&["a-b", "q", "a", "q"]));
    assert_eq!(chain, strings(&["a-b-c-x-d", "a-b-c", "a-b", "a", "q"]));
    for i in 0..chain.len() {
        for j in 0..i {
            assert_ne!(chain[i], chain[j]);
        }
    }
}
