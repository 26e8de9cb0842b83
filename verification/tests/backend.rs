use i18n_core::backend::Backend;
use i18n_core::store::LocaleStore;

fn strings(items: &[&str]) -> Vec<String> {
    items.iter().map(|s| s.to_string()).collect()
}

fn sample(fallback: &[&str]) -> Backend {
    let mut store = LocaleStore::new();
    store.insert("zh", "hello".to_string(), "你好".to_string());
    store.insert("zh-Hant", "hello".to_string(), "你好 (繁)".to_string());
    store.insert("en", "hello".to_string(), "Hello".to_string());
    store.insert("en", "bye".to_string(), "Bye".to_string());
    store.insert("fr", "only".to_string(), "Seulement".to_string());
    Backend::new(store, strings(fallback))
}

#[test]
fn exact_locale_is_found() {
    let b = sample(&[]);
    assert_eq!(b.translate("en", "hello"), Some("Hello".to_string()));
    assert_eq!(b.translate("zh", "hello"), Some("你好".to_string()));
}

#[test]
fn structural_parent_is_found() {
    let b = sample(&[]);
    assert_eq!(b.translate("zh-Hant-CN-x-priv", "hello"), Some("你好 (繁)".to_string()));
    assert_eq!(b.translate("zh-CN", "hello"), Some("你好".to_string()));
    assert_eq!(b.translate("zh-CN", "bye"), None);
    assert_eq!(b.translate("ja", "hello"), None);
}

#[test]
fn declared_fallback_is_found_in_order() {
    let b = sample(&["fr", "en"]);
    assert_eq!(b.translate("zh-CN", "bye"), Some("Bye".to_string()));
    assert_eq!(b.translate("ja", "only"), Some("Seulement".to_string()));
    assert_eq!(b.translate("ja", "hello"), Some("Hello".to_string()));
    assert_eq!(b.translate("ja", "nothing"), None);
}

#[test]
fn empty_locale_finds_nothing() {
    let b = sample(&["en"]);
    assert_eq!(b.translate("", "hello"), None);
    assert_eq!(b.translate_or_default("", "hello"), "hello");
}

#[test]
fn missing_translation_shows_locale_and_key() {
    let b = sample(&[]);
    assert_eq!(b.translate_or_default("ja", "hello"), "ja.hello");
    assert_eq!(b.translate_or_default("en", "hello"), "Hello");
    assert_eq!(b.translate_or_default("zh-CN", "bye"), "zh-CN.bye");
}

#[test]
fn available_locales_are_sorted() {
    let b = sample(&["de"]);
    assert_eq!(b.available_locales(), strings(&["en", "fr", "zh", "zh-Hant"]));
    let empty = Backend::new(LocaleStore::new(), Vec::new());
    assert!(empty.available_locales().is_empty());
}
