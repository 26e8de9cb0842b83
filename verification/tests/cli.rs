use i18n_core::cli::{remove_quotes, skips_file, sorted_file_name, translate_value_parser};

#[test]
fn quotes_are_removed_at_both_ends() {
    assert_eq!(remove_quotes("\"hello\""), "hello");
    assert_eq!(remove_quotes("\"hello"), "hello");
    assert_eq!(remove_quotes("hello\""), "hello");
    assert_eq!(remove_quotes("hello"), "hello");
    assert_eq!(remove_quotes("he\"llo"), "he\"llo");
    assert_eq!(remove_quotes("\"\""), "");
    assert_eq!(remove_quotes(""), "");
    assert_eq!(remove_quotes("\"\"a\"\""), "\"a\"");
}

#[test]
fn lone_quote_leaves_nothing() {
    assert_eq!(remove_quotes("\""), "");
}

#[test]
fn translation_with_arrow() {
    let (key, msg) = translate_value_parser("Hello, world! => Hola, world!").unwrap();
    assert_eq!(key, "Hello, world!");
    assert_eq!(msg, "Hola, world!");
}

#[test]
fn translation_with_quotes_and_spaces() {
    let (key, msg) = translate_value_parser("  \"a key\"  =>\t\"a value\" ").unwrap();
    assert_eq!(key, "a key");
    assert_eq!(msg, "a value");
    let (key, msg) = translate_value_parser("\" padded \"=>x").unwrap();
    assert_eq!(key, " padded ");
    assert_eq!(msg, "x");
}

#[test]
fn translation_without_arrow_is_trimmed_too() {
    let (key, msg) = translate_value_parser("  hi  ").unwrap();
    assert_eq!(key, "hi");
    assert_eq!(msg, "hi");
    let (key, msg) = translate_value_parser(" \"Hello\" ").unwrap();
    assert_eq!(key, "Hello");
    assert_eq!(msg, "Hello");
    let (key, msg) = translate_value_parser("Hello, world!").unwrap();
    assert_eq!(key, "Hello, world!");
    assert_eq!(msg, "Hello, world!");
    let (key, msg) = translate_value_parser("").unwrap();
    assert_eq!(key, "");
    assert_eq!(msg, "");
}

#[test]
fn translation_splits_at_first_arrow() {
    let (key, msg) = translate_value_parser("a => b => c").unwrap();
    assert_eq!(key, "a");
    assert_eq!(msg, "b => c");
    let (key, msg) = translate_value_parser("=>").unwrap();
    assert_eq!(key, "");
    assert_eq!(msg, "");
    let (key, msg) = translate_value_parser("  =>  \" ").unwrap();
    assert_eq!(key, "");
    assert_eq!(msg, "");
}

#[test]
fn sorted_name_has_suffix_before_extension() {
    assert_eq!(sorted_file_name("app", "yml"), "app-sorted.yml");
    assert_eq!(sorted_file_name("", "json"), "-sorted.json");
}

#[test]
fn sorted_files_are_skipped_unless_in_place() {
    assert!(skips_file("app-sorted", false));
    assert!(!skips_file("app-sorted", true));
    assert!(!skips_file("app", false));
    assert!(!skips_file("app", true));
    assert!(skips_file("-sorted", false));
    assert!(skips_file("app-sorted-sorted", false));
}

#[test]
fn only_the_end_of_the_stem_counts() {
    assert!(!skips_file("a-sorted-b", false));
    assert!(!skips_file("-sorted.", false));
    assert!(!skips_file("sorted", false));
    assert!(!skips_file("-sorte", false));
    assert!(!skips_file("", false));
}

#[test]
fn sorted_copy_is_skipped_by_the_next_sort() {
    let name = sorted_file_name("app", "yml");
    let stem = std::path::Path::new(&name).file_stem().unwrap().to_str().unwrap().to_string();
    assert!(skips_file(&stem, false));
    let in_directory = std::path::Path::new("a-sorted/b.yml");
    let stem = in_directory.file_stem().unwrap().to_str().unwrap();
    assert!(!skips_file(stem, false));
}
