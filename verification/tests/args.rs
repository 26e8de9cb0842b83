use i18n_core::args::{ArgError, ArgOption, ArgValue, Args, Metadata};
use i18n_core::config::{Config, ConfigError};

fn option(name: &str, value: ArgValue, source: &str) -> ArgOption {
    ArgOption { name: name.to_string(), value, source: source.to_string() }
}

fn strings(items: &[&str]) -> Vec<String> {
    items.iter().map(|s| s.to_string()).collect()
}

#[test]
fn defaults_without_metadata() {
    let args = Args::parse(Metadata::NoManifestDir, false, None, &Vec::new()).unwrap();
    assert_eq!(args.locales_path, "locales");
    assert_eq!(args.default_locale, None);
    assert_eq!(args.fallback, None);
    assert_eq!(args.extend, None);
    assert!(!args.minify_key);
    assert_eq!(args.minify_key_len, 24);
    assert_eq!(args.minify_key_prefix, "");
    assert_eq!(args.minify_key_thresh, 127);
}

#[test]
fn missing_manifest_dir_is_an_error_in_debug() {
    let r = Args::parse(Metadata::NoManifestDir, true, None, &Vec::new());
    assert_eq!(r.err(), Some(ArgError::ManifestDirRequired));
    let r = Args::parse(Metadata::Unreadable, false, None, &Vec::new());
    assert_eq!(r.err(), Some(ArgError::MetadataUnreadable));
}

#[test]
fn metadata_is_taken_over() {
    let mut cfg = Config::new();
    cfg.load_path = "i18n".to_string();
    cfg.default_locale = "fr".to_string();
    cfg.fallback = strings(&["en", "de"]);
    cfg.minify_key = true;
    cfg.minify_key_len = 12;
    cfg.minify_key_prefix = "t_".to_string();
    cfg.minify_key_thresh = 64;
    let args = Args::parse(Metadata::Found(cfg), false, None, &Vec::new()).unwrap();
    assert_eq!(args.locales_path, "i18n");
    assert_eq!(args.default_locale, Some("fr".to_string()));
    assert_eq!(args.fallback, Some(strings(&["en", "de"])));
    assert!(args.minify_key);
    assert_eq!(args.minify_key_len, 12);
    assert_eq!(args.minify_key_prefix, "t_");
    assert_eq!(args.minify_key_thresh, 64);
}

#[test]
fn metadata_without_fallback_sets_none() {
    let args = Args::parse(Metadata::Found(Config::new()), false, None, &Vec::new()).unwrap();
    assert_eq!(args.locales_path, "./locales");
    assert_eq!(args.default_locale, Some("en".to_string()));
    assert_eq!(args.fallback, None);
}

#[test]
fn path_and_options_override_metadata() {
    let options = vec![
        option("fallback", ArgValue::Array(vec![Some("en".to_string()), Some("es".to_string())]), "[\"en\", \"es\"]"),
        option("minify_key", ArgValue::Bool(true), "true"),
        option("minify_key_len", ArgValue::Int(12), "12"),
        option("minify_key_prefix", ArgValue::Str("t_".to_string()), "\"t_\""),
        option("minify_key_thresh", ArgValue::Int(64), "64"),
        option("backend", ArgValue::Other, "MyBackend::new()"),
        option("unknown", ArgValue::Other, "whatever"),
    ];
    let args = Args::parse(
        Metadata::Found(Config::new()),
        false,
        Some("locales".to_string()),
        &options,
    )
    .unwrap();
    assert_eq!(args.locales_path, "locales");
    assert_eq!(args.fallback, Some(strings(&["en", "es"])));
    assert_eq!(args.extend, Some("MyBackend::new()".to_string()));
    assert!(args.minify_key);
    assert_eq!(args.minify_key_len, 12);
    assert_eq!(args.minify_key_prefix, "t_");
    assert_eq!(args.minify_key_thresh, 64);
}

#[test]
fn fallback_takes_one_string() {
    let options = vec![option("fallback", ArgValue::Str("en".to_string()), "\"en\"")];
    let args = Args::parse(Metadata::NoManifestDir, false, None, &options).unwrap();
    assert_eq!(args.fallback, Some(strings(&["en"])));
}

#[test]
fn later_option_overrides_earlier() {
    let options = vec![
        option("minify_key_len", ArgValue::Int(3), "3"),
        option("minify_key_len", ArgValue::Int(7), "7"),
    ];
    let args = Args::parse(Metadata::NoManifestDir, false, None, &options).unwrap();
    assert_eq!(args.minify_key_len, 7);
}

#[test]
fn wrong_values_are_refused() {
    let cases = vec![
        (option("fallback", ArgValue::Int(1), "1"), ArgError::FallbackNotStrings),
        (
            option("fallback", ArgValue::Array(vec![Some("en".to_string()), None]), "[\"en\", 1]"),
            ArgError::FallbackNotStrings,
        ),
        (option("minify_key", ArgValue::Int(1), "1"), ArgError::ExpectedBool),
        (option("minify_key_len", ArgValue::Bool(true), "true"), ArgError::ExpectedInteger),
        (option("minify_key_prefix", ArgValue::Int(1), "1"), ArgError::ExpectedString),
        (option("minify_key_thresh", ArgValue::Str("x".to_string()), "\"x\""), ArgError::ExpectedInteger),
    ];
    for (opt, expected) in cases {
        let r = Args::parse(Metadata::NoManifestDir, false, None, &vec![opt]);
        assert_eq!(r.err(), Some(expected));
    }
}

#[test]
fn key_length_out_of_range_is_refused() {
    let options = vec![option("minify_key_len", ArgValue::Int(30), "30")];
    let r = Args::parse(Metadata::NoManifestDir, false, None, &options);
    assert_eq!(r.err(), Some(ArgError::KeyLengthOutOfRange));
    let options = vec![option("minify_key_len", ArgValue::Int(25), "25")];
    let r = Args::parse(Metadata::NoManifestDir, false, None, &options);
    assert_eq!(r.err(), Some(ArgError::KeyLengthOutOfRange));
    let options = vec![option("minify_key_len", ArgValue::Int(24), "24")];
    let args = Args::parse(Metadata::NoManifestDir, false, None, &options).unwrap();
    assert_eq!(args.minify_key_len, 24);
    let options = vec![option("minify_key_len", ArgValue::Int(0), "0")];
    let args = Args::parse(Metadata::NoManifestDir, false, None, &options).unwrap();
    assert_eq!(args.minify_key_len, 0);
}

#[test]
fn key_length_of_metadata_is_checked_too() {
    let mut cfg = Config::new();
    cfg.minify_key_len = 30;
    let r = Args::parse(Metadata::Found(cfg), false, None, &Vec::new());
    assert_eq!(r.err(), Some(ArgError::KeyLengthOutOfRange));
    let mut cfg = Config::new();
    cfg.minify_key_len = 30;
    let options = vec![option("minify_key_len", ArgValue::Int(12), "12")];
    let args = Args::parse(Metadata::Found(cfg), false, None, &options).unwrap();
    assert_eq!(args.minify_key_len, 12);
    assert_eq!(
        ArgError::KeyLengthOutOfRange.message(),
        "`minify_key_len` must be at most 24"
    );
}

#[test]
fn first_refused_option_decides() {
    let options = vec![
        option("minify_key_len", ArgValue::Int(3), "3"),
        option("minify_key", ArgValue::Int(1), "1"),
        option("minify_key_prefix", ArgValue::Int(1), "1"),
    ];
    let mut args = Args::new();
    assert_eq!(args.consume_options(&options), Err(ArgError::ExpectedBool));
}

#[test]
fn errors_have_messages() {
    assert_eq!(
        ArgError::FallbackNotStrings.message(),
        "`fallback` must be a string literal or an array of string literals"
    );
    assert_eq!(
        ArgError::MetadataUnreadable.message(),
        "Failed to load config from Cargo.toml for `metadata`"
    );
}

#[test]
fn config_defaults_and_validation() {
    let mut cfg = Config::new();
    assert_eq!(cfg.load_path, "./locales");
    assert_eq!(cfg.default_locale, "en");
    assert_eq!(cfg.available_locales, strings(&["en"]));
    assert!(cfg.fallback.is_empty());
    assert!(!cfg.minify_key);
    assert_eq!(cfg.minify_key_len, 24);
    assert_eq!(cfg.minify_key_prefix, "");
    assert_eq!(cfg.minify_key_thresh, 127);
    assert_eq!(cfg.validate(), Ok(()));
    cfg.minify_key_len = 0;
    assert_eq!(cfg.validate(), Ok(()));
    cfg.minify_key_len = 25;
    assert_eq!(cfg.validate(), Err(ConfigError::KeyLengthOutOfRange));
}
