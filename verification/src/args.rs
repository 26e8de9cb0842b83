//! The settings with which translations are embedded into a program: the
//! project's configuration, overridden by the options that the program
//! itself gives. Options come as a list of names and values; what each
//! option may hold is checked here, once, when the settings are built.

use crate::config::{
    Config, DEFAULT_MINIFY_KEY, DEFAULT_MINIFY_KEY_LEN, DEFAULT_MINIFY_KEY_THRESH,
    MAX_MINIFY_KEY_LEN,
};
use crate::text::{str_eq, str_views};
use vstd::prelude::*;
use vstd::string::*;

verus! {

/// The value of an option, as far as the settings read it.
pub enum ArgValue {
    /// A string literal.
    Str(String),
    /// `true` or `false`.
    Bool(bool),
    /// An integer literal.
    Int(usize),
    /// An array; each element that is a string literal is given, any other
    /// element is `None`.
    Array(Vec<Option<String>>),
    /// Any other expression.
    Other,
}

/// What an `ArgValue` holds.
pub ghost enum ArgValueView {
    Str(Seq<char>),
    Bool(bool),
    Int(usize),
    Array(Seq<Option<Seq<char>>>),
    Other,
}

/// What a list of array elements holds.
pub open spec fn element_views(v: Seq<Option<String>>) -> Seq<Option<Seq<char>>> {
    Seq::new(
        v.len(),
        |i: int|
            match v[i] {
                Some(s) => Some(s@),
                None => None,
            },
    )
}

impl View for ArgValue {
    type V = ArgValueView;

    open spec fn view(&self) -> ArgValueView {
        match self {
            ArgValue::Str(s) => ArgValueView::Str(s@),
            ArgValue::Bool(b) => ArgValueView::Bool(*b),
            ArgValue::Int(n) => ArgValueView::Int(*n),
            ArgValue::Array(items) => ArgValueView::Array(element_views(items@)),
            ArgValue::Other => ArgValueView::Other,
        }
    }
}

/// One option: `name = value`.
pub struct ArgOption {
    /// The name before the equals sign.
    pub name: String,
    /// The value behind it.
    pub value: ArgValue,
    /// The value as it is written.
    pub source: String,
}

/// What an `ArgOption` holds.
pub ghost struct ArgOptionView {
    pub name: Seq<char>,
    pub value: ArgValueView,
    pub source: Seq<char>,
}

impl View for ArgOption {
    type V = ArgOptionView;

    open spec fn view(&self) -> ArgOptionView {
        ArgOptionView { name: self.name@, value: self.value@, source: self.source@ }
    }
}

/// What a list of options holds.
pub open spec fn option_views(v: Seq<ArgOption>) -> Seq<ArgOptionView> {
    Seq::new(v.len(), |i: int| v[i]@)
}

/// Why a list of options is refused.
#[derive(Clone, Copy, Debug, PartialEq, Eq, Structural)]
pub enum ArgError {
    /// `fallback` is neither a string literal nor an array of string
    /// literals.
    FallbackNotStrings,
    /// `minify_key` is not `true` or `false`.
    ExpectedBool,
    /// `minify_key_len` or `minify_key_thresh` is not an integer literal.
    ExpectedInteger,
    /// `minify_key_prefix` is not a string literal.
    ExpectedString,
    /// The key length that the settings end with is above
    /// `MAX_MINIFY_KEY_LEN`.
    KeyLengthOutOfRange,
    /// The project's configuration could not be read.
    MetadataUnreadable,
    /// The directory of the project is not known.
    ManifestDirRequired,
}

impl ArgError {
    /// The message that a user is shown.
    pub fn message(&self) -> (text: String)
        ensures
            text@ == match *self {
                ArgError::FallbackNotStrings => "`fallback` must be a string literal or an array of string literals"@,
                ArgError::ExpectedBool => "expected boolean literal"@,
                ArgError::ExpectedInteger => "expected integer literal"@,
                ArgError::ExpectedString => "expected string literal"@,
                ArgError::KeyLengthOutOfRange => "`minify_key_len` must be at most 24"@,
                ArgError::MetadataUnreadable => "Failed to load config from Cargo.toml for `metadata`"@,
                ArgError::ManifestDirRequired => "The CARGO_MANIFEST_DIR is required for `metadata`"@,
            },
    {
        match self {
            ArgError::FallbackNotStrings => "`fallback` must be a string literal or an array of string literals".to_owned(),
            ArgError::ExpectedBool => "expected boolean literal".to_owned(),
            ArgError::ExpectedInteger => "expected integer literal".to_owned(),
            ArgError::ExpectedString => "expected string literal".to_owned(),
            ArgError::KeyLengthOutOfRange => "`minify_key_len` must be at most 24".to_owned(),
            ArgError::MetadataUnreadable => "Failed to load config from Cargo.toml for `metadata`".to_owned(),
            ArgError::ManifestDirRequired => "The CARGO_MANIFEST_DIR is required for `metadata`".to_owned(),
        }
    }
}

/// What is known of the project's configuration when the settings are
/// built.
pub enum Metadata {
    /// The configuration of the project.
    Found(Config),
    /// The project is known, its configuration could not be read.
    Unreadable,
    /// The directory of the project is not known.
    NoManifestDir,
}

/// The settings with which translations are embedded.
pub struct Args {
    /// The directory of the locale files.
    pub locales_path: String,
    /// The locale that a program starts with.
    pub default_locale: Option<String>,
    /// The locales to fall back to, in the order in which they are tried.
    pub fallback: Option<Vec<String>>,
    /// The expression of a backend that extends the built-in one, as it is
    /// written.
    pub extend: Option<String>,
    /// Whether long texts get a short key.
    pub minify_key: bool,
    /// The number of characters of a short key, the prefix not counted.
    pub minify_key_len: usize,
    /// What a short key starts with.
    pub minify_key_prefix: String,
    /// The longest text, in bytes, that is kept as its own key.
    pub minify_key_thresh: usize,
}

/// What an `Args` holds.
pub ghost struct ArgsView {
    pub locales_path: Seq<char>,
    pub default_locale: Option<Seq<char>>,
    pub fallback: Option<Seq<Seq<char>>>,
    pub extend: Option<Seq<char>>,
    pub minify_key: bool,
    pub minify_key_len: usize,
    pub minify_key_prefix: Seq<char>,
    pub minify_key_thresh: usize,
}

impl View for Args {
    type V = ArgsView;

    open spec fn view(&self) -> ArgsView {
        ArgsView {
            locales_path: self.locales_path@,
            default_locale: match self.default_locale {
                Some(l) => Some(l@),
                None => None,
            },
            fallback: match self.fallback {
                Some(f) => Some(str_views(f@)),
                None => None,
            },
            extend: match self.extend {
                Some(e) => Some(e@),
                None => None,
            },
            minify_key: self.minify_key,
            minify_key_len: self.minify_key_len,
            minify_key_prefix: self.minify_key_prefix@,
            minify_key_thresh: self.minify_key_thresh,
        }
    }
}

/// The settings when nothing is configured: locale files under `locales`,
/// no default locale, no fallback, keys not minified.
pub open spec fn default_args() -> ArgsView {
    ArgsView {
        locales_path: "locales"@,
        default_locale: None,
        fallback: None,
        extend: None,
        minify_key: DEFAULT_MINIFY_KEY,
        minify_key_len: DEFAULT_MINIFY_KEY_LEN,
        minify_key_prefix: Seq::empty(),
        minify_key_thresh: DEFAULT_MINIFY_KEY_THRESH,
    }
}

/// Every element is a string literal.
pub open spec fn all_strings(items: Seq<Option<Seq<char>>>) -> bool {
    forall|i: int| 0 <= i < items.len() ==> (#[trigger] items[i]) is Some
}

/// The strings of a list of string literals.
pub open spec fn strings_of(items: Seq<Option<Seq<char>>>) -> Seq<Seq<char>> {
    Seq::new(items.len(), |i: int| items[i].unwrap())
}

/// The fallback list that a value of the option `fallback` gives: one
/// string, or the strings of an array of strings.
pub open spec fn fallback_of(value: ArgValueView) -> Result<Seq<Seq<char>>, ArgError> {
    match value {
        ArgValueView::Str(s) => Ok(seq![s]),
        ArgValueView::Array(items) => if all_strings(items) {
            Ok(strings_of(items))
        } else {
            Err(ArgError::FallbackNotStrings)
        },
        _ => Err(ArgError::FallbackNotStrings),
    }
}

/// The settings after one option. An option with an unknown name changes
/// nothing.
pub open spec fn with_option(args: ArgsView, option: ArgOptionView) -> Result<ArgsView, ArgError> {
    if option.name == "fallback"@ {
        match fallback_of(option.value) {
            Ok(list) => Ok(ArgsView { fallback: Some(list), ..args }),
            Err(e) => Err(e),
        }
    } else if option.name == "backend"@ {
        Ok(ArgsView { extend: Some(option.source), ..args })
    } else if option.name == "minify_key"@ {
        match option.value {
            ArgValueView::Bool(b) => Ok(ArgsView { minify_key: b, ..args }),
            _ => Err(ArgError::ExpectedBool),
        }
    } else if option.name == "minify_key_len"@ {
        match option.value {
            ArgValueView::Int(n) => Ok(ArgsView { minify_key_len: n, ..args }),
            _ => Err(ArgError::ExpectedInteger),
        }
    } else if option.name == "minify_key_prefix"@ {
        match option.value {
            ArgValueView::Str(s) => Ok(ArgsView { minify_key_prefix: s, ..args }),
            _ => Err(ArgError::ExpectedString),
        }
    } else if option.name == "minify_key_thresh"@ {
        match option.value {
            ArgValueView::Int(n) => Ok(ArgsView { minify_key_thresh: n, ..args }),
            _ => Err(ArgError::ExpectedInteger),
        }
    } else {
        Ok(args)
    }
}

/// The settings after a list of options, each applied in turn. The first
/// option that is refused ends it.
pub open spec fn with_options(args: ArgsView, options: Seq<ArgOptionView>) -> Result<
    ArgsView,
    ArgError,
>
    decreases options.len(),
{
    if options.len() == 0 {
        Ok(args)
    } else {
        match with_options(args, options.drop_last()) {
            Ok(before) => with_option(before, options.last()),
            Err(e) => Err(e),
        }
    }
}

/// The settings after the project's configuration was taken over. A
/// configuration without fallback locales leaves the fallback as it is.
/// Where the project is not known, that is an error only in a debug run.
pub open spec fn with_metadata(args: ArgsView, metadata: Metadata, debug: bool) -> Result<
    ArgsView,
    ArgError,
> {
    match metadata {
        Metadata::Found(cfg) => Ok(
            ArgsView {
                locales_path: cfg.load_path@,
                default_locale: Some(cfg.default_locale@),
                fallback: if cfg.fallback@.len() > 0 {
                    Some(str_views(cfg.fallback@))
                } else {
                    args.fallback
                },
                extend: args.extend,
                minify_key: cfg.minify_key,
                minify_key_len: cfg.minify_key_len,
                minify_key_prefix: cfg.minify_key_prefix@,
                minify_key_thresh: cfg.minify_key_thresh,
            },
        ),
        Metadata::Unreadable => Err(ArgError::MetadataUnreadable),
        Metadata::NoManifestDir => if debug {
            Err(ArgError::ManifestDirRequired)
        } else {
            Ok(args)
        },
    }
}

/// The settings as they are checked at the end: a key length above
/// `MAX_MINIFY_KEY_LEN` is refused.
pub open spec fn checked_args(args: ArgsView) -> Result<ArgsView, ArgError> {
    if args.minify_key_len > MAX_MINIFY_KEY_LEN {
        Err(ArgError::KeyLengthOutOfRange)
    } else {
        Ok(args)
    }
}

/// The settings that a program is built with: the defaults, then the
/// project's configuration, then the path if one is given, then the options;
/// what comes out is checked.
pub open spec fn parsed_args(
    metadata: Metadata,
    debug: bool,
    path: Option<Seq<char>>,
    options: Seq<ArgOptionView>,
) -> Result<ArgsView, ArgError> {
    match with_metadata(default_args(), metadata, debug) {
        Ok(loaded) => match with_options(
            match path {
                Some(p) => ArgsView { locales_path: p, ..loaded },
                None => loaded,
            },
            options,
        ) {
            Ok(args) => checked_args(args),
            Err(e) => Err(e),
        },
        Err(e) => Err(e),
    }
}

impl Args {
    /// The settings when nothing is configured.
    pub fn new() -> (args: Self)
        ensures
            args@ == default_args(),
    {
        Args {
            locales_path: "locales".to_owned(),
            default_locale: None,
            fallback: None,
            extend: None,
            minify_key: DEFAULT_MINIFY_KEY,
            minify_key_len: DEFAULT_MINIFY_KEY_LEN,
            minify_key_prefix: String::new(),
            minify_key_thresh: DEFAULT_MINIFY_KEY_THRESH,
        }
    }

    /// Takes the directory of the locale files.
    pub fn consume_path(&mut self, path: String)
        ensures
            final(self)@ == (ArgsView { locales_path: path@, ..old(self)@ }),
    {
        self.locales_path = path;
    }

    /// Takes the value of the option `fallback`: a string, or an array of
    /// strings.
    pub fn consume_fallback(&mut self, value: &ArgValue) -> (r: Result<(), ArgError>)
        ensures
            match fallback_of(value@) {
                Ok(list) => r is Ok && final(self)@ == (ArgsView {
                    fallback: Some(list),
                    ..old(self)@
                }),
                Err(e) => r == Err::<(), ArgError>(e) && final(self)@ == old(self)@,
            },
    {
        match value {
            ArgValue::Str(s) => {
                let mut list: Vec<String> = Vec::new();
                list.push(s.clone());
                assert(str_views(list@) == seq![s@]);
                self.fallback = Some(list);
                Ok(())
            },
            ArgValue::Array(items) => {
                let ghost views = element_views(items@);
                let mut list: Vec<String> = Vec::new();
                let mut i: usize = 0;
                while i < items.len()
                    invariant
                        i <= items@.len(),
                        *self == *old(self),
                        value@ == ArgValueView::Array(views),
                        views == element_views(items@),
                        forall|k: int| 0 <= k < i ==> (#[trigger] views[k]) is Some,
                        str_views(list@) == strings_of(views.take(i as int)),
                    decreases items@.len() - i,
                {
                    match &items[i] {
                        Some(s) => {
                            let ghost before = str_views(list@);
                            list.push(s.clone());
                            assert(views[i as int] == Some(s@));
                            assert(str_views(list@) == before.push(s@));
                            assert(strings_of(views.take(i + 1)) == strings_of(
                                views.take(i as int),
                            ).push(s@));
                        },
                        None => {
                            assert(views[i as int] is None);
                            assert(!all_strings(views));
                            return Err(ArgError::FallbackNotStrings);
                        },
                    }
                    i += 1;
                }
                assert(views.take(i as int) == views);
                self.fallback = Some(list);
                Ok(())
            },
            _ => Err(ArgError::FallbackNotStrings),
        }
    }

    /// Takes the value of the option `minify_key`.
    pub fn consume_minify_key(&mut self, value: &ArgValue) -> (r: Result<(), ArgError>)
        ensures
            match value@ {
                ArgValueView::Bool(b) => r is Ok && final(self)@ == (ArgsView {
                    minify_key: b,
                    ..old(self)@
                }),
                _ => r == Err::<(), ArgError>(ArgError::ExpectedBool) && final(self)@ == old(
                    self,
                )@,
            },
    {
        match value {
            ArgValue::Bool(b) => {
                self.minify_key = *b;
                Ok(())
            },
            _ => Err(ArgError::ExpectedBool),
        }
    }

    /// Takes the value of the option `minify_key_len`.
    pub fn consume_minify_key_len(&mut self, value: &ArgValue) -> (r: Result<(), ArgError>)
        ensures
            match value@ {
                ArgValueView::Int(n) => r is Ok && final(self)@ == (ArgsView {
                    minify_key_len: n,
                    ..old(self)@
                }),
                _ => r == Err::<(), ArgError>(ArgError::ExpectedInteger) && final(self)@ == old(
                    self,
                )@,
            },
    {
        match value {
            ArgValue::Int(n) => {
                self.minify_key_len = *n;
                Ok(())
            },
            _ => Err(ArgError::ExpectedInteger),
        }
    }

    /// Takes the value of the option `minify_key_prefix`.
    pub fn consume_minify_key_prefix(&mut self, value: &ArgValue) -> (r: Result<(), ArgError>)
        ensures
            match value@ {
                ArgValueView::Str(s) => r is Ok && final(self)@ == (ArgsView {
                    minify_key_prefix: s,
                    ..old(self)@
                }),
                _ => r == Err::<(), ArgError>(ArgError::ExpectedString) && final(self)@ == old(
                    self,
                )@,
            },
    {
        match value {
            ArgValue::Str(s) => {
                self.minify_key_prefix = s.clone();
                Ok(())
            },
            _ => Err(ArgError::ExpectedString),
        }
    }

    /// Takes the value of the option `minify_key_thresh`.
    pub fn consume_minify_key_thresh(&mut self, value: &ArgValue) -> (r: Result<(), ArgError>)
        ensures
            match value@ {
                ArgValueView::Int(n) => r is Ok && final(self)@ == (ArgsView {
                    minify_key_thresh: n,
                    ..old(self)@
                }),
                _ => r == Err::<(), ArgError>(ArgError::ExpectedInteger) && final(self)@ == old(
                    self,
                )@,
            },
    {
        match value {
            ArgValue::Int(n) => {
                self.minify_key_thresh = *n;
                Ok(())
            },
            _ => Err(ArgError::ExpectedInteger),
        }
    }

    /// Takes one option.
    pub fn consume_option(&mut self, option: &ArgOption) -> (r: Result<(), ArgError>)
        ensures
            match with_option(old(self)@, option@) {
                Ok(after) => r is Ok && final(self)@ == after,
                Err(e) => r == Err::<(), ArgError>(e) && final(self)@ == old(self)@,
            },
    {
        let name = option.name.as_str();
        if str_eq(name, "fallback") {
            self.consume_fallback(&option.value)
        } else if str_eq(name, "backend") {
            self.extend = Some(option.source.clone());
            Ok(())
        } else if str_eq(name, "minify_key") {
            self.consume_minify_key(&option.value)
        } else if str_eq(name, "minify_key_len") {
            self.consume_minify_key_len(&option.value)
        } else if str_eq(name, "minify_key_prefix") {
            self.consume_minify_key_prefix(&option.value)
        } else if str_eq(name, "minify_key_thresh") {
            self.consume_minify_key_thresh(&option.value)
        } else {
            Ok(())
        }
    }

    /// Takes a list of options, each overriding what was set before. The
    /// first option that is refused ends it.
    pub fn consume_options(&mut self, options: &Vec<ArgOption>) -> (r: Result<(), ArgError>)
        ensures
            match with_options(old(self)@, option_views(options@)) {
                Ok(after) => r is Ok && final(self)@ == after,
                Err(e) => r == Err::<(), ArgError>(e),
            },
    {
        let ghost views = option_views(options@);
        let mut i: usize = 0;
        assert(views.take(0).len() == 0);
        while i < options.len()
            invariant
                i <= options@.len(),
                views == option_views(options@),
                with_options(old(self)@, views.take(i as int)) == Ok::<ArgsView, ArgError>(self@),
            decreases options@.len() - i,
        {
            proof {
                assert(views.take(i + 1).drop_last() == views.take(i as int));
                assert(views.take(i + 1).last() == options@[i as int]@);
            }
            match self.consume_option(&options[i]) {
                Ok(()) => {},
                Err(e) => {
                    proof {
                        lemma_with_options_error(old(self)@, views, i + 1);
                    }
                    return Err(e);
                },
            }
            i += 1;
        }
        assert(views.take(i as int) == views);
        Ok(())
    }

    /// Takes over the project's configuration.
    pub fn load_metadata(&mut self, metadata: Metadata, debug: bool) -> (r: Result<(), ArgError>)
        ensures
            match with_metadata(old(self)@, metadata, debug) {
                Ok(after) => r is Ok && final(self)@ == after,
                Err(e) => r == Err::<(), ArgError>(e) && final(self)@ == old(self)@,
            },
    {
        match metadata {
            Metadata::Found(cfg) => {
                self.locales_path = cfg.load_path;
                self.default_locale = Some(cfg.default_locale);
                if cfg.fallback.len() > 0 {
                    self.fallback = Some(cfg.fallback);
                }
                self.minify_key = cfg.minify_key;
                self.minify_key_len = cfg.minify_key_len;
                self.minify_key_prefix = cfg.minify_key_prefix;
                self.minify_key_thresh = cfg.minify_key_thresh;
                Ok(())
            },
            Metadata::Unreadable => Err(ArgError::MetadataUnreadable),
            Metadata::NoManifestDir => {
                if debug {
                    Err(ArgError::ManifestDirRequired)
                } else {
                    Ok(())
                }
            },
        }
    }

    /// Builds the settings: the defaults, then the project's configuration,
    /// then the path if one is given, then the options. Settings that end
    /// with a key length above `MAX_MINIFY_KEY_LEN` are refused, so the
    /// settings that are handed out have a key length in range.
    pub fn parse(metadata: Metadata, debug: bool, path: Option<String>, options: &Vec<ArgOption>) -> (r:
        Result<Args, ArgError>)
        ensures
            match parsed_args(
                metadata,
                debug,
                match path {
                    Some(p) => Some(p@),
                    None => None,
                },
                option_views(options@),
            ) {
                Ok(args) => r is Ok && r->Ok_0@ == args,
                Err(e) => r is Err && r->Err_0 == e,
            },
            r is Ok ==> r->Ok_0.minify_key_len <= MAX_MINIFY_KEY_LEN,
    {
        let mut result = Args::new();
        match result.load_metadata(metadata, debug) {
            Ok(()) => {},
            Err(e) => {
                return Err(e);
            },
        }
        match path {
            Some(p) => {
                result.consume_path(p);
            },
            None => {},
        }
        match result.consume_options(options) {
            Ok(()) => {
                if result.minify_key_len > MAX_MINIFY_KEY_LEN {
                    Err(ArgError::KeyLengthOutOfRange)
                } else {
                    Ok(result)
                }
            },
            Err(e) => Err(e),
        }
    }
}

/// Once a prefix of the options is refused, the whole list is refused with
/// the same error.
proof fn lemma_with_options_error(args: ArgsView, options: Seq<ArgOptionView>, n: int)
    requires
        0 <= n <= options.len(),
        with_options(args, options.take(n)) is Err,
    ensures
        with_options(args, options) == with_options(args, options.take(n)),
    decreases options.len() - n,
{
    if n < options.len() {
        assert(options.take(n + 1).drop_last() == options.take(n));
        lemma_with_options_error(args, options, n + 1);
    } else {
        assert(options.take(n) == options);
    }
}

} // verus!
