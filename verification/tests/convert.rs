use i18n_core::convert::{
    convert_csv_text, convert_text, format_of, strip_document_marker, ConvertError, Format,
};
use indexmap::IndexMap;

fn table(rows: &[(&str, &[(&str, &str)])]) -> IndexMap<String, IndexMap<String, String>> {
    let mut t = IndexMap::new();
    for (key, cells) in rows {
        let mut row = IndexMap::new();
        for (locale, text) in cells.iter() {
            row.insert(locale.to_string(), text.to_string());
        }
        t.insert(key.to_string(), row);
    }
    t
}

fn sample() -> IndexMap<String, IndexMap<String, String>> {
    table(&[
        ("hello", &[("en", "Hello"), ("es", "Hola")]),
        ("world", &[("en", "World"), ("es", "Mundo")]),
    ])
}

#[test]
fn formats_are_named_by_extension() {
    assert_eq!(format_of("csv"), Some(Format::Csv));
    assert_eq!(format_of("json"), Some(Format::Json));
    assert_eq!(format_of("yaml"), Some(Format::Yaml));
    assert_eq!(format_of("yml"), Some(Format::Yaml));
    assert_eq!(format_of("toml"), Some(Format::Toml));
    assert_eq!(format_of("CSV"), None);
    assert_eq!(format_of(""), None);
    assert_eq!(format_of("txt"), None);
}

#[test]
fn csv_has_header_and_rows() {
    assert_eq!(
        convert_csv_text(&sample()).unwrap(),
        "key,en,es\nhello,Hello,Hola\nworld,World,Mundo\n"
    );
    assert_eq!(convert_text(&sample(), "csv").unwrap(), convert_csv_text(&sample()).unwrap());
}

#[test]
fn csv_quotes_where_needed() {
    let t = table(&[("a,b", &[("en", "say \"hi\""), ("es", "")])]);
    assert_eq!(
        convert_csv_text(&t).unwrap(),
        "key,en,es\n\"a,b\",\"say \"\"hi\"\"\",\n"
    );
}

#[test]
fn csv_of_empty_table_is_header_only() {
    assert_eq!(convert_csv_text(&IndexMap::new()).unwrap(), "key\n");
}

#[test]
fn csv_refuses_rows_of_unequal_length() {
    let t = table(&[("a", &[("en", "A"), ("es", "A")]), ("b", &[("en", "B")])]);
    assert!(matches!(convert_csv_text(&t), Err(ConvertError::Csv(_))));
}

#[test]
fn json_has_version_and_rows() {
    assert_eq!(
        convert_text(&sample(), "json").unwrap(),
        "{\n  \"_version\": 2,\n  \"hello\": {\n    \"en\": \"Hello\",\n    \"es\": \"Hola\"\n  },\n  \"world\": {\n    \"en\": \"World\",\n    \"es\": \"Mundo\"\n  }\n}"
    );
}

#[test]
fn json_keeps_the_order_of_the_table() {
    let t = table(&[("b", &[("fr", "1"), ("en", "2")]), ("a", &[])]);
    assert_eq!(
        convert_text(&t, "json").unwrap(),
        "{\n  \"_version\": 2,\n  \"b\": {\n    \"fr\": \"1\",\n    \"en\": \"2\"\n  },\n  \"a\": {}\n}"
    );
}

#[test]
fn yaml_has_version_and_rows() {
    let expected = "_version: 2\nhello:\n  en: Hello\n  es: Hola\nworld:\n  en: World\n  es: Mundo\n";
    assert_eq!(convert_text(&sample(), "yaml").unwrap(), expected);
    assert_eq!(convert_text(&sample(), "yml").unwrap(), expected);
}

#[test]
fn toml_has_version_and_rows() {
    assert_eq!(
        convert_text(&sample(), "toml").unwrap(),
        "_version = 2\n\n[hello]\nen = \"Hello\"\nes = \"Hola\"\n\n[world]\nen = \"World\"\nes = \"Mundo\"\n"
    );
}

#[test]
fn unknown_format_is_an_error() {
    match convert_text(&sample(), "txt") {
        Err(ConvertError::UnexpectedFormat(name)) => assert_eq!(name, "txt"),
        other => panic!("unexpected result: {:?}", other),
    }
    assert!(matches!(
        convert_text(&sample(), ""),
        Err(ConvertError::UnexpectedFormat(_))
    ));
}

#[test]
fn document_marker_is_stripped() {
    assert_eq!(strip_document_marker("---\na: 1\n"), "a: 1\n");
    assert_eq!(strip_document_marker("------  \n\ta: 1\n"), "a: 1\n");
    assert_eq!(strip_document_marker("--a"), "--a");
    assert_eq!(strip_document_marker("----a"), "-a");
    assert_eq!(strip_document_marker("  a: 1"), "a: 1");
    assert_eq!(strip_document_marker(""), "");
    for s in ["---", "--- x", "- --", "---\n---\n", " ---"] {
        assert_eq!(strip_document_marker(s), s.trim_start_matches("---").trim_start());
    }
}

#[test]
fn rows_of_equal_length_are_always_written() {
    let t = table(&[
        ("日本語", &[("en", "multi\nline"), ("es", "comma, \"quote\"")]),
        ("", &[("en", ""), ("es", "é")]),
    ]);
    assert_eq!(
        convert_csv_text(&t).unwrap(),
        "key,en,es\n日本語,\"multi\nline\",\"comma, \"\"quote\"\"\"\n,,é\n"
    );
    for format in ["json", "yaml", "yml", "toml"] {
        assert!(convert_text(&t, format).is_ok(), "format {}", format);
    }
}
