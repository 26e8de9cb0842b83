use i18n_core::config::Config;
use i18n_core::message::{extract, extract_into, merge, Found, MessageTable, SourceLocation};
use i18n_core::minify::minify;
use i18n_core::store::{LocaleStore, LocaleTable};

fn at(file: &str, line: usize, column: usize) -> SourceLocation {
    SourceLocation { file: file.to_string(), line, column }
}

fn entries(table: &LocaleTable) -> Vec<(String, String)> {
    (0..table.len())
        .map(|i| (table.key_at(i).clone(), table.value_at(i).clone()))
        .collect()
}

fn pairs(items: &[(&str, &str)]) -> Vec<(String, String)> {
    items.iter().map(|(a, b)| (a.to_string(), b.to_string())).collect()
}

#[test]
fn texts_are_recorded_in_order_of_first_sight() {
    let cfg = Config::new();
    let mut table = MessageTable::new();
    table.record("Hello", at("a.rs", 1, 2), &cfg);
    table.record("World", at("a.rs", 3, 4), &cfg);
    table.record("Hello", at("b.rs", 5, 6), &cfg);
    let messages = table.messages();
    assert_eq!(messages.len(), 2);
    assert_eq!(messages[0].key, "Hello");
    assert_eq!(messages[0].value, "Hello");
    assert_eq!(messages[0].index, 0);
    assert!(!messages[0].minified);
    assert_eq!(messages[0].locations.len(), 2);
    assert_eq!(messages[0].locations[1].file, "b.rs");
    assert_eq!(messages[0].locations[1].line, 5);
    assert_eq!(messages[0].locations[1].column, 6);
    assert_eq!(messages[1].key, "World");
    assert_eq!(messages[1].index, 1);
    assert_eq!(messages[1].locations.len(), 1);
}

#[test]
fn minified_keys_are_used_when_enabled() {
    let mut cfg = Config::new();
    cfg.minify_key = true;
    cfg.minify_key_len = 8;
    cfg.minify_key_prefix = "t_".to_string();
    cfg.minify_key_thresh = 4;
    let mut table = MessageTable::new();
    table.record("Hello, world!", at("a.rs", 1, 1), &cfg);
    table.record("Hi", at("a.rs", 2, 1), &cfg);
    table.record("Hello, world!", at("a.rs", 3, 1), &cfg);
    let messages = table.messages();
    assert_eq!(messages.len(), 2);
    assert_eq!(messages[0].key, minify("Hello, world!", 8, "t_", 4));
    assert_eq!(messages[0].key.len(), 10);
    assert_eq!(messages[0].value, "Hello, world!");
    assert!(messages[0].minified);
    assert_eq!(messages[0].locations.len(), 2);
    assert_eq!(messages[1].key, "Hi");
    assert_eq!(cfg.key_for("Hi"), "Hi");
}

#[test]
fn supplied_translations_come_last_and_move_nothing() {
    let cfg = Config::new();
    let mut table = MessageTable::new();
    table.record("b", at("a.rs", 1, 1), &cfg);
    table.record("a", at("a.rs", 2, 1), &cfg);
    table.add_translations(&pairs(&[("c", "C"), ("a", "ignored"), ("c", "again")]), &cfg);
    let messages = table.messages();
    assert_eq!(messages.len(), 3);
    assert_eq!(messages[0].key, "b");
    assert_eq!(messages[1].key, "a");
    assert_eq!(messages[1].value, "a");
    assert_eq!(messages[2].key, "c");
    assert_eq!(messages[2].value, "C");
    assert_eq!(messages[2].index, 2);
    assert!(messages[2].locations.is_empty());
}

#[test]
fn merge_keeps_what_the_table_has() {
    let cfg = Config::new();
    let mut messages = MessageTable::new();
    messages.record("new", at("a.rs", 1, 1), &cfg);
    messages.record("kept", at("a.rs", 2, 1), &cfg);
    let mut table = LocaleTable::new();
    table.insert("gone from source".to_string(), "still here".to_string());
    table.insert("kept".to_string(), "translated by hand".to_string());
    merge(&mut table, &messages);
    assert_eq!(
        entries(&table),
        pairs(&[
            ("gone from source", "still here"),
            ("kept", "translated by hand"),
            ("new", "new"),
        ])
    );
}

#[test]
fn merge_twice_changes_nothing() {
    let cfg = Config::new();
    let mut messages = MessageTable::new();
    messages.record("z", at("a.rs", 1, 1), &cfg);
    messages.record("y", at("a.rs", 2, 1), &cfg);
    messages.record("z", at("a.rs", 3, 1), &cfg);
    let mut table = LocaleTable::new();
    table.insert("x".to_string(), "X".to_string());
    merge(&mut table, &messages);
    let once = entries(&table);
    merge(&mut table, &messages);
    assert_eq!(entries(&table), once);
    assert_eq!(once, pairs(&[("x", "X"), ("z", "z"), ("y", "y")]));
}

#[test]
fn extraction_merges_into_default_locale() {
    let cfg = Config::new();
    let mut store = LocaleStore::new();
    store.insert("fr", "Hello".to_string(), "Bonjour".to_string());
    store.insert("en", "Old".to_string(), "Old text".to_string());
    let found = vec![
        Found { text: "Hello".to_string(), location: at("a.rs", 1, 1) },
        Found { text: "Bye".to_string(), location: at("a.rs", 2, 1) },
    ];
    let overrides = pairs(&[("Dynamic", "Dynamic text")]);
    let table = extract(&found, &overrides, &cfg);
    assert_eq!(table.len(), 3);
    extract_into(&mut store, &found, &overrides, &cfg);
    assert_eq!(store.locale_count(), 2);
    assert_eq!(store.locale_at(0), "fr");
    assert_eq!(store.locale_at(1), "en");
    assert_eq!(
        entries(store.table("en").unwrap()),
        pairs(&[
            ("Old", "Old text"),
            ("Hello", "Hello"),
            ("Bye", "Bye"),
            ("Dynamic", "Dynamic text"),
        ])
    );
    assert_eq!(entries(store.table("fr").unwrap()), pairs(&[("Hello", "Bonjour")]));
    let before = entries(store.table("en").unwrap());
    extract_into(&mut store, &found, &overrides, &cfg);
    assert_eq!(entries(store.table("en").unwrap()), before);
}

#[test]
fn extraction_does_not_depend_on_the_order_of_files() {
    let cfg = Config::new();
    let in_a = |text: &str, line: usize| Found { text: text.to_string(), location: at("a.rs", line, 1) };
    let in_b = |text: &str, line: usize| Found { text: text.to_string(), location: at("b.rs", line, 1) };
    let first = vec![in_b("three", 1), in_b("one", 2), in_a("one", 1), in_a("two", 2)];
    let second = vec![in_a("one", 1), in_b("three", 1), in_a("two", 2), in_b("one", 2)];
    let keys = |found: &Vec<Found>| -> Vec<(String, usize, Vec<String>)> {
        extract(found, &Vec::new(), &cfg)
            .messages()
            .iter()
            .map(|m| {
                (
                    m.key.clone(),
                    m.index,
                    m.locations.iter().map(|l| format!("{}:{}", l.file, l.line)).collect(),
                )
            })
            .collect()
    };
    let expected = vec![
        ("one".to_string(), 0, vec!["a.rs:1".to_string(), "b.rs:2".to_string()]),
        ("two".to_string(), 1, vec!["a.rs:2".to_string()]),
        ("three".to_string(), 2, vec!["b.rs:1".to_string()]),
    ];
    assert_eq!(keys(&first), expected);
    assert_eq!(keys(&second), expected);
}
