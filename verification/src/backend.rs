//! The runtime backend: a table of translations that is built once and then
//! only read. A lookup that finds nothing under the requested locale goes
//! down the fallback chain of that locale and takes the first translation it
//! meets.

use crate::export::collect_locales;
use crate::locale::{fallback_chain, resolve};
use crate::sorted::{lemma_sorted_seq_of, sorted_seq};
use crate::store::{keys_of, translation_of, LocaleStore};
use crate::text::str_views;
use vstd::prelude::*;
use vstd::string::*;

verus! {

/// The first translation of `key` that the locales of `chain` offer, in the
/// order of the chain.
pub open spec fn first_hit(
    store: Seq<(Seq<char>, Seq<(Seq<char>, Seq<char>)>)>,
    chain: Seq<Seq<char>>,
    key: Seq<char>,
) -> Option<Seq<char>>
    decreases chain.len(),
{
    if chain.len() == 0 {
        None
    } else {
        match translation_of(store, chain[0], key) {
            Some(text) => Some(text),
            None => first_hit(store, chain.drop_first(), key),
        }
    }
}

/// The translation of `key` for `locale`: that of the locale itself, else
/// the first one along its fallback chain.
pub open spec fn translated(
    store: Seq<(Seq<char>, Seq<(Seq<char>, Seq<char>)>)>,
    fallback: Seq<Seq<char>>,
    locale: Seq<char>,
    key: Seq<char>,
) -> Option<Seq<char>> {
    first_hit(store, seq![locale] + fallback_chain(locale, fallback), key)
}

/// What stands in for a translation that is missing: the locale, a dot and
/// the key, or the key alone where the locale is empty.
pub open spec fn placeholder(locale: Seq<char>, key: Seq<char>) -> Seq<char> {
    if locale.len() == 0 {
        key
    } else {
        locale + seq!['.'] + key
    }
}

/// The translations that a program looks up while it runs.
pub struct Backend {
    store: LocaleStore,
    fallback: Vec<String>,
}

impl Backend {
    /// The store and the declared fallback locales are in order.
    pub closed spec fn wf(&self) -> bool {
        self.store.wf()
    }

    /// The translations held.
    pub closed spec fn store(&self) -> Seq<(Seq<char>, Seq<(Seq<char>, Seq<char>)>)> {
        self.store@
    }

    /// The declared fallback locales, in the order in which they are tried.
    pub closed spec fn fallback(&self) -> Seq<Seq<char>> {
        str_views(self.fallback@)
    }

    /// A backend over `store` that falls back to the locales of `fallback`.
    pub fn new(store: LocaleStore, fallback: Vec<String>) -> (b: Self)
        requires
            store.wf(),
        ensures
            b.wf(),
            b.store() == store@,
            b.fallback() == str_views(fallback@),
    {
        Backend { store, fallback }
    }

    /// The translation of `key` for `locale`, if the locale or one of its
    /// fallback chain has one.
    pub fn translate(&self, locale: &str, key: &str) -> (r: Option<String>)
        requires
            self.wf(),
        ensures
            match r {
                Some(text) => translated(self.store(), self.fallback(), locale@, key@) == Some(
                    text@,
                ),
                None => translated(self.store(), self.fallback(), locale@, key@) is None,
            },
    {
        let ghost chain_spec = fallback_chain(locale@, self.fallback());
        assert((seq![locale@] + chain_spec).drop_first() == chain_spec);
        match self.store.translation(locale, key) {
            Some(text) => {
                return Some(text.clone());
            },
            None => {},
        }
        let chain = resolve(locale, &self.fallback);
        let mut i: usize = 0;
        assert(chain_spec.skip(0) == chain_spec);
        while i < chain.len()
            invariant
                i <= chain@.len(),
                self.wf(),
                str_views(chain@) == chain_spec,
                translated(self.store(), self.fallback(), locale@, key@) == first_hit(
                    self.store(),
                    chain_spec.skip(i as int),
                    key@,
                ),
            decreases chain@.len() - i,
        {
            assert(chain_spec.skip(i as int).drop_first() == chain_spec.skip(i + 1));
            assert(chain_spec.skip(i as int)[0] == chain@[i as int]@);
            match self.store.translation(chain[i].as_str(), key) {
                Some(text) => {
                    return Some(text.clone());
                },
                None => {},
            }
            i += 1;
        }
        None
    }

    /// The translation of `key` for `locale`, or a placeholder that shows in
    /// the output which translation is missing.
    pub fn translate_or_default(&self, locale: &str, key: &str) -> (text: String)
        requires
            self.wf(),
        ensures
            text@ == match translated(self.store(), self.fallback(), locale@, key@) {
                Some(t) => t,
                None => placeholder(locale@, key@),
            },
    {
        match self.translate(locale, key) {
            Some(text) => text,
            None => {
                if locale.unicode_len() == 0 {
                    key.to_owned()
                } else {
                    let mut text = locale.to_owned();
                    text.push('.');
                    text.append(key);
                    text
                }
            },
        }
    }

    /// The locales that have a table, in ascending order.
    pub fn available_locales(&self) -> (locales: Vec<String>)
        requires
            self.wf(),
        ensures
            str_views(locales@) == sorted_seq(keys_of(self.store()).to_set()),
    {
        let none: Vec<String> = Vec::new();
        let set = collect_locales(&none, &self.store);
        proof {
            assert(str_views(none@).to_set() =~= Set::<Seq<char>>::empty());
            assert(set.members() =~= keys_of(self.store()).to_set());
            lemma_sorted_seq_of(set@);
        }
        set.to_vec()
    }
}

} // verus!
