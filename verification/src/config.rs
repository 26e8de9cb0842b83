//! The settings of a project: where its locale files lie, which locales it
//! has, and how translation keys are made.

use crate::minify::{minified, minify};
use vstd::prelude::*;
use vstd::string::*;

verus! {

/// The longest key body that a configuration may ask for.
pub const MAX_MINIFY_KEY_LEN: usize = 24;

/// Whether keys are minified when nothing says so.
pub const DEFAULT_MINIFY_KEY: bool = false;

/// The length of a minified key when nothing says so.
pub const DEFAULT_MINIFY_KEY_LEN: usize = 24;

/// The longest text, in bytes, that is kept as its own key when nothing says
/// so.
pub const DEFAULT_MINIFY_KEY_THRESH: usize = 127;

/// The settings of one project. They do not change during one run of a
/// tool.
pub struct Config {
    /// The directory that holds the locale files.
    pub load_path: String,
    /// The locale of the texts in the source code.
    pub default_locale: String,
    /// The locales that the project declares.
    pub available_locales: Vec<String>,
    /// The locales to fall back to, in the order in which they are tried.
    pub fallback: Vec<String>,
    /// Whether long texts get a short key.
    pub minify_key: bool,
    /// The number of characters of a short key, the prefix not counted.
    pub minify_key_len: usize,
    /// What a short key starts with.
    pub minify_key_prefix: String,
    /// The longest text, in bytes, that is kept as its own key.
    pub minify_key_thresh: usize,
}

/// Why a configuration is refused.
#[derive(Clone, Copy, Debug, PartialEq, Eq, Structural)]
pub enum ConfigError {
    /// The key length is above `MAX_MINIFY_KEY_LEN`.
    KeyLengthOutOfRange,
}

impl Config {
    /// Whether the settings are in range.
    pub open spec fn valid(&self) -> bool {
        self.minify_key_len <= MAX_MINIFY_KEY_LEN
    }

    /// The settings of a project that declares none: English only, locale
    /// files under `./locales`, no fallback, keys not minified.
    pub fn new() -> (cfg: Self)
        ensures
            cfg.valid(),
            cfg.load_path@ == "./locales"@,
            cfg.default_locale@ == "en"@,
            cfg.available_locales@.len() == 1,
            cfg.available_locales@[0]@ == "en"@,
            cfg.fallback@.len() == 0,
            cfg.minify_key == DEFAULT_MINIFY_KEY,
            cfg.minify_key_len == DEFAULT_MINIFY_KEY_LEN,
            cfg.minify_key_prefix@.len() == 0,
            cfg.minify_key_thresh == DEFAULT_MINIFY_KEY_THRESH,
    {
        let mut available_locales: Vec<String> = Vec::new();
        available_locales.push("en".to_owned());
        Config {
            load_path: "./locales".to_owned(),
            default_locale: "en".to_owned(),
            available_locales,
            fallback: Vec::new(),
            minify_key: DEFAULT_MINIFY_KEY,
            minify_key_len: DEFAULT_MINIFY_KEY_LEN,
            minify_key_prefix: String::new(),
            minify_key_thresh: DEFAULT_MINIFY_KEY_THRESH,
        }
    }

    /// Checks the settings once, before they are used.
    pub fn validate(&self) -> (r: Result<(), ConfigError>)
        ensures
            r is Ok <==> self.valid(),
            r is Err ==> r == Err::<(), ConfigError>(ConfigError::KeyLengthOutOfRange),
    {
        if self.minify_key_len > MAX_MINIFY_KEY_LEN {
            Err(ConfigError::KeyLengthOutOfRange)
        } else {
            Ok(())
        }
    }

    /// The key under which `text` is stored: its minified key where keys are
    /// minified, else the text itself.
    pub open spec fn key_of(&self, text: Seq<char>) -> Seq<char> {
        if self.minify_key {
            minified(text, self.minify_key_len, self.minify_key_prefix@, self.minify_key_thresh)
        } else {
            text
        }
    }

    /// The key under which `text` is stored.
    pub fn key_for(&self, text: &str) -> (key: String)
        ensures
            key@ == self.key_of(text@),
    {
        if self.minify_key {
            minify(
                text,
                self.minify_key_len,
                self.minify_key_prefix.as_str(),
                self.minify_key_thresh,
            )
        } else {
            text.to_owned()
        }
    }
}

} // verus!
