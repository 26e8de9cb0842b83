use i18n_core::export::{
    collect_keys, collect_locales, export, export_table, filter_locales, sort, MissedBehavior,
};
use i18n_core::config::Config;
use i18n_core::import::import_table;
use i18n_core::message::{extract_into, Found, SourceLocation};
use i18n_core::sorted::StringSet;
use i18n_core::store::LocaleStore;
use indexmap::IndexMap;

fn strings(items: &[&str]) -> Vec<String> {
    items.iter().map(|s| s.to_string()).collect()
}

fn set_of(items: &[&str]) -> StringSet {
    let mut set = StringSet::new();
    for s in items {
        set.insert(s.to_string());
    }
    set
}

fn rows(table: &IndexMap<String, IndexMap<String, String>>) -> Vec<(String, Vec<(String, String)>)> {
    table
        .iter()
        .map(|(k, row)| (k.clone(), row.iter().map(|(l, t)| (l.clone(), t.clone())).collect()))
        .collect()
}

fn row(key: &str, cells: &[(&str, &str)]) -> (String, Vec<(String, String)>) {
    (
        key.to_string(),
        cells.iter().map(|(l, t)| (l.to_string(), t.to_string())).collect(),
    )
}

fn sample_store() -> LocaleStore {
    let mut store = LocaleStore::new();
    store.insert("fr", "b".to_string(), "b-fr".to_string());
    store.insert("en", "b".to_string(), "b-en".to_string());
    store.insert("en", "a".to_string(), "a-en".to_string());
    store
}

#[test]
fn policy_is_read_from_its_name() {
    assert_eq!(MissedBehavior::from_str("default"), Ok(MissedBehavior::Default));
    assert_eq!(MissedBehavior::from_str("empty"), Ok(MissedBehavior::Empty));
    assert_eq!(
        MissedBehavior::from_str("Default"),
        Err("invalid missed behavior".to_string())
    );
    assert_eq!(MissedBehavior::from_str(""), Err("invalid missed behavior".to_string()));
    assert_eq!(MissedBehavior::default(), MissedBehavior::Default);
}

#[test]
fn filter_narrows_then_adds() {
    let mut set = set_of(&["en", "es", "fr"]);
    filter_locales(&mut set, &strings(&["en", "+de"]));
    assert_eq!(set.to_vec(), strings(&["de", "en"]));
}

#[test]
fn filter_without_tokens_keeps_all() {
    let mut set = set_of(&["fr", "en", "es"]);
    filter_locales(&mut set, &Vec::new());
    assert_eq!(set.to_vec(), strings(&["en", "es", "fr"]));
}

#[test]
fn filter_adds_and_excludes() {
    let mut set = set_of(&["en", "es", "fr"]);
    filter_locales(&mut set, &strings(&["+es", "!fr"]));
    assert_eq!(set.to_vec(), strings(&["en", "es"]));
    let mut set = set_of(&["en", "es", "fr"]);
    filter_locales(&mut set, &strings(&["en", "+es"]));
    assert_eq!(set.to_vec(), strings(&["en", "es"]));
}

#[test]
fn filter_excludes_after_adding() {
    let mut set = set_of(&["en"]);
    filter_locales(&mut set, &strings(&["!de", "+de"]));
    assert_eq!(set.to_vec(), strings(&["en"]));
    let mut set = set_of(&["en"]);
    filter_locales(&mut set, &strings(&["+de", "!de"]));
    assert_eq!(set.to_vec(), strings(&["en"]));
}

#[test]
fn filter_keeps_only_known_explicit_locales() {
    let mut set = set_of(&["en", "es"]);
    filter_locales(&mut set, &strings(&["xx"]));
    assert!(set.to_vec().is_empty());
    let mut set = set_of(&["en", "es"]);
    filter_locales(&mut set, &strings(&["es", "xx", "es"]));
    assert_eq!(set.to_vec(), strings(&["es"]));
}

#[test]
fn string_set_is_sorted_and_unique() {
    let mut set = set_of(&["b", "a", "c", "a", "b"]);
    assert_eq!(set.len(), 3);
    assert_eq!(set.to_vec(), strings(&["a", "b", "c"]));
    assert_eq!(set.get(1), "b");
    assert!(set.contains("c"));
    assert!(!set.contains("d"));
    set.remove("b");
    set.remove("zz");
    assert_eq!(set.to_vec(), strings(&["a", "c"]));
}

#[test]
fn known_locales_and_keys_are_collected() {
    let store = sample_store();
    let locales = collect_locales(&strings(&["zh", "en"]), &store);
    assert_eq!(locales.to_vec(), strings(&["en", "fr", "zh"]));
    assert_eq!(collect_keys(&store).to_vec(), strings(&["a", "b"]));
}

#[test]
fn export_fills_missed_cell_from_default_locale() {
    let mut store = LocaleStore::new();
    store.insert("en", "hello".to_string(), "Hello".to_string());
    let table = export(
        &store,
        &strings(&["en", "es"]),
        &Vec::new(),
        MissedBehavior::Default,
        "en",
    );
    assert_eq!(rows(&table), vec![row("hello", &[("en", "Hello"), ("es", "Hello")])]);
}

#[test]
fn export_leaves_missed_cell_empty() {
    let mut store = LocaleStore::new();
    store.insert("en", "hello".to_string(), "Hello".to_string());
    let table = export(
        &store,
        &strings(&["en", "es"]),
        &Vec::new(),
        MissedBehavior::Empty,
        "en",
    );
    assert_eq!(rows(&table), vec![row("hello", &[("en", "Hello"), ("es", "")])]);
}

#[test]
fn export_without_default_translation_is_empty() {
    let mut store = LocaleStore::new();
    store.insert("fr", "hello".to_string(), "Bonjour".to_string());
    let table = export(&store, &strings(&["en"]), &Vec::new(), MissedBehavior::Default, "en");
    assert_eq!(rows(&table), vec![row("hello", &[("en", ""), ("fr", "Bonjour")])]);
}

#[test]
fn export_sorts_keys_and_filtered_locales() {
    let store = sample_store();
    let table = export(
        &store,
        &strings(&["en"]),
        &strings(&["+de", "!fr"]),
        MissedBehavior::Empty,
        "en",
    );
    assert_eq!(
        rows(&table),
        vec![
            row("a", &[("de", ""), ("en", "a-en")]),
            row("b", &[("de", ""), ("en", "b-en")]),
        ]
    );
}

#[test]
fn export_table_keeps_given_order() {
    let store = sample_store();
    let table = export_table(
        &store,
        &strings(&["fr", "en"]),
        &strings(&["b", "a"]),
        MissedBehavior::Default,
        "en",
    );
    assert_eq!(
        rows(&table),
        vec![
            row("b", &[("fr", "b-fr"), ("en", "b-en")]),
            row("a", &[("fr", "a-en"), ("en", "a-en")]),
        ]
    );
}

#[test]
fn sort_orders_keys_and_locales() {
    let store = sample_store();
    let table = sort(&store, &Vec::new(), false);
    assert_eq!(
        rows(&table),
        vec![
            row("a", &[("en", "a-en")]),
            row("b", &[("en", "b-en"), ("fr", "b-fr")]),
        ]
    );
}

#[test]
fn sort_in_reverse() {
    let store = sample_store();
    let table = sort(&store, &strings(&["zh"]), true);
    assert_eq!(
        rows(&table),
        vec![
            row("b", &[("fr", "b-fr"), ("en", "b-en")]),
            row("a", &[("en", "a-en")]),
        ]
    );
}

#[test]
fn sort_of_empty_store_is_empty() {
    let store = LocaleStore::new();
    assert!(sort(&store, &strings(&["en"]), false).is_empty());
    assert!(export(&store, &strings(&["en"]), &Vec::new(), MissedBehavior::Default, "en")
        .is_empty());
}

#[test]
fn import_is_inverse_of_export() {
    let store = sample_store();
    let table = export(&store, &Vec::new(), &Vec::new(), MissedBehavior::Empty, "en");
    let mut back = LocaleStore::new();
    import_table(&mut back, &table);
    assert_eq!(back.translation("en", "a"), Some(&"a-en".to_string()));
    assert_eq!(back.translation("en", "b"), Some(&"b-en".to_string()));
    assert_eq!(back.translation("fr", "b"), Some(&"b-fr".to_string()));
    assert_eq!(back.translation("fr", "a"), Some(&String::new()));
    assert_eq!(back.translation("de", "a"), None);
    assert_eq!(back.translation("en", "c"), None);
    assert_eq!(back.locale_count(), 2);
}

#[test]
fn import_of_sorted_table_recovers_the_store() {
    let store = sample_store();
    let table = sort(&store, &Vec::new(), false);
    let mut back = LocaleStore::new();
    import_table(&mut back, &table);
    for locale in ["en", "fr", "de"] {
        for key in ["a", "b", "c"] {
            assert_eq!(back.translation(locale, key), store.translation(locale, key));
        }
    }
}

#[test]
fn store_replaces_and_appends() {
    let mut store = LocaleStore::new();
    store.insert("en", "k".to_string(), "one".to_string());
    store.insert("en", "k".to_string(), "two".to_string());
    store.insert("en", "l".to_string(), "three".to_string());
    assert_eq!(store.locale_count(), 1);
    let table = store.table("en").unwrap();
    assert_eq!(table.len(), 2);
    assert_eq!(table.key_at(0), "k");
    assert_eq!(table.value_at(0), "two");
    assert_eq!(table.get("l"), Some(&"three".to_string()));
    assert_eq!(table.get("m"), None);
    assert!(table.contains_key("k"));
    assert_eq!(store.find_locale("en"), Some(0));
    assert_eq!(store.find_locale("fr"), None);
    assert!(store.table("fr").is_none());
}

#[test]
fn sort_puts_keys_and_locales_in_ascending_order() {
    let mut store = LocaleStore::new();
    for key in ["b", "a"] {
        for locale in ["fr", "en"] {
            store.insert(locale, key.to_string(), format!("{}-{}", key, locale));
        }
    }
    let table = sort(&store, &Vec::new(), false);
    assert_eq!(
        rows(&table),
        vec![
            row("a", &[("en", "a-en"), ("fr", "a-fr")]),
            row("b", &[("en", "b-en"), ("fr", "b-fr")]),
        ]
    );
    let table = sort(&store, &Vec::new(), true);
    assert_eq!(
        rows(&table),
        vec![
            row("b", &[("fr", "b-fr"), ("en", "b-en")]),
            row("a", &[("fr", "a-fr"), ("en", "a-en")]),
        ]
    );
}

#[test]
fn layout_puts_the_default_locale_first() {
    let mut store = sample_store();
    store.insert("fr", "z".to_string(), "z-fr".to_string());
    store.insert("fr", "c".to_string(), "c-fr".to_string());
    assert_eq!(
        rows(&i18n_core::layout::layout(&store, "en")),
        vec![
            row("b", &[("en", "b-en"), ("fr", "b-fr")]),
            row("a", &[("en", "a-en")]),
            row("c", &[("fr", "c-fr")]),
            row("z", &[("fr", "z-fr")]),
        ]
    );
    assert_eq!(
        rows(&i18n_core::layout::layout(&store, "de")),
        vec![
            row("a", &[("en", "a-en")]),
            row("b", &[("en", "b-en"), ("fr", "b-fr")]),
            row("c", &[("fr", "c-fr")]),
            row("z", &[("fr", "z-fr")]),
        ]
    );
}

#[test]
fn second_run_writes_the_same_file() {
    let mut file = IndexMap::new();
    let mut cells = IndexMap::new();
    cells.insert("en".to_string(), "a-en".to_string());
    file.insert("a".to_string(), cells);
    let mut cells = IndexMap::new();
    cells.insert("fr".to_string(), "b-fr".to_string());
    cells.insert("de".to_string(), "b-de".to_string());
    file.insert("b".to_string(), cells);
    let mut cells = IndexMap::new();
    cells.insert("de".to_string(), "c-de".to_string());
    file.insert("c".to_string(), cells);

    let mut cfg = Config::new();
    cfg.default_locale = "de".to_string();
    let found = vec![Found {
        text: "a".to_string(),
        location: SourceLocation { file: "a.rs".to_string(), line: 1, column: 1 },
    }];

    let run = |file: &IndexMap<String, IndexMap<String, String>>| {
        let mut store = LocaleStore::new();
        import_table(&mut store, file);
        extract_into(&mut store, &found, &Vec::new(), &cfg);
        i18n_core::layout::layout(&store, "de")
    };
    let first = run(&file);
    assert_eq!(
        rows(&first),
        vec![
            row("b", &[("de", "b-de"), ("fr", "b-fr")]),
            row("c", &[("de", "c-de")]),
            row("a", &[("de", "a"), ("en", "a-en")]),
        ]
    );
    let second = run(&first);
    assert_eq!(rows(&second), rows(&first));
    for format in ["yml", "json", "toml"] {
        assert_eq!(
            i18n_core::convert::convert_text(&second, format).unwrap(),
            i18n_core::convert::convert_text(&first, format).unwrap()
        );
    }
    let third = run(&second);
    assert_eq!(rows(&third), rows(&first));
}

fn table_of_value(value: &serde_json::Value) -> IndexMap<String, IndexMap<String, String>> {
    let mut table = IndexMap::new();
    for (key, cells) in value.as_object().unwrap() {
        if key == "_version" {
            assert_eq!(cells.as_u64(), Some(2));
            continue;
        }
        let mut cells_of_key = IndexMap::new();
        for (locale, text) in cells.as_object().unwrap() {
            cells_of_key.insert(locale.clone(), text.as_str().unwrap().to_string());
        }
        table.insert(key.clone(), cells_of_key);
    }
    table
}

#[test]
fn structured_text_round_trips() {
    let mut store = sample_store();
    store.insert("zh-Hant", "quote \"x\"".to_string(), "多行\n文字: [ok]".to_string());
    let exported = export(&store, &Vec::new(), &Vec::new(), MissedBehavior::Empty, "en");
    for format in ["json", "yaml", "yml", "toml"] {
        let text = i18n_core::convert::convert_text(&exported, format).unwrap();
        let value: serde_json::Value = match format {
            "json" => serde_json::from_str(&text).unwrap(),
            "toml" => toml::from_str(&text).unwrap(),
            _ => serde_yaml::from_str(&text).unwrap(),
        };
        let table = table_of_value(&value);
        assert_eq!(rows(&table), rows(&exported), "format {}", format);
        let mut back = LocaleStore::new();
        import_table(&mut back, &table);
        for locale in ["en", "fr", "zh-Hant"] {
            for key in ["a", "b", "quote \"x\""] {
                let expected = store.translation(locale, key).cloned().unwrap_or_default();
                assert_eq!(back.translation(locale, key), Some(&expected));
            }
        }
    }
}

#[test]
fn sorting_a_sorted_table_changes_nothing() {
    let mut store = sample_store();
    store.insert("zh", "c".to_string(), "c-zh".to_string());
    let declared = strings(&["en", "xx"]);
    for reverse in [false, true] {
        let first = sort(&store, &declared, reverse);
        let mut back = LocaleStore::new();
        import_table(&mut back, &first);
        let second = sort(&back, &declared, reverse);
        assert_eq!(rows(&second), rows(&first));
    }
}

#[test]
fn layout_read_back_is_written_the_same() {
    let mut store = sample_store();
    store.insert("de", "q".to_string(), "q-de".to_string());
    store.insert("de", "a".to_string(), "a-de".to_string());
    for default_locale in ["en", "de", "fr", "xx"] {
        let first = i18n_core::layout::layout(&store, default_locale);
        let mut back = LocaleStore::new();
        import_table(&mut back, &first);
        let second = i18n_core::layout::layout(&back, default_locale);
        assert_eq!(rows(&second), rows(&first));
    }
}
