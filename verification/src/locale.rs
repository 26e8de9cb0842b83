//! Locale fallback resolution: the ordered list of locales that are probed
//! for a translation when the requested locale has none.
//!
//! The list starts with the requested locale, goes on with its structural
//! parents (the tag cut at its last hyphen, and any private-use marker `-x`
//! left at the end cut too), and ends with the declared fallback locales that
//! did not occur before.

use crate::text::{
    chars_of, lemma_with_missing, push_missing, str_views, string_of_range, with_missing,
};
use vstd::prelude::*;
use vstd::string::*;

verus! {

/// The position of the last hyphen of `s`.
pub open spec fn last_hyphen(s: Seq<char>) -> Option<int>
    decreases s.len(),
{
    if s.len() == 0 {
        None
    } else if s.last() == '-' {
        Some(s.len() - 1)
    } else {
        last_hyphen(s.drop_last())
    }
}

/// Whether `s` ends with the private-use marker `-x`.
pub open spec fn ends_with_marker(s: Seq<char>) -> bool {
    s.len() >= 2 && s[s.len() - 2] == '-' && s[s.len() - 1] == 'x'
}

/// `s` without any private-use markers at its end.
pub open spec fn without_marker(s: Seq<char>) -> Seq<char>
    decreases s.len(),
{
    if ends_with_marker(s) {
        without_marker(s.take(s.len() - 2))
    } else {
        s
    }
}

/// The structural parent of a locale: the tag up to its last hyphen, without
/// private-use markers at the end. A tag without a hyphen has no parent.
pub open spec fn parent_locale(s: Seq<char>) -> Option<Seq<char>> {
    match last_hyphen(s) {
        Some(n) => Some(without_marker(s.take(n))),
        None => None,
    }
}

/// `without_marker` yields a prefix of its argument.
pub proof fn lemma_without_marker_is_prefix(s: Seq<char>)
    ensures
        without_marker(s).len() <= s.len(),
        without_marker(s) == s.take(without_marker(s).len() as int),
        !ends_with_marker(without_marker(s)),
    decreases s.len(),
{
    if ends_with_marker(s) {
        let t = s.take(s.len() - 2);
        lemma_without_marker_is_prefix(t);
        assert(t.take(without_marker(t).len() as int) == s.take(without_marker(t).len() as int));
    } else {
        assert(s.take(s.len() as int) == s);
    }
}

/// The last hyphen, where there is one, is a position of the tag that holds a
/// hyphen and is followed by none.
pub proof fn lemma_last_hyphen(s: Seq<char>)
    ensures
        match last_hyphen(s) {
            Some(n) => 0 <= n < s.len() && s[n] == '-' && forall|j: int|
                n < j < s.len() ==> s[j] != '-',
            None => forall|j: int| 0 <= j < s.len() ==> s[j] != '-',
        },
    decreases s.len(),
{
    if s.len() > 0 && s.last() != '-' {
        let t = s.drop_last();
        lemma_last_hyphen(t);
        assert(forall|j: int| 0 <= j < t.len() ==> t[j] == s[j]);
    }
}

/// A parent is a proper prefix of its locale.
pub proof fn lemma_parent_is_proper_prefix(s: Seq<char>)
    requires
        parent_locale(s) is Some,
    ensures
        parent_locale(s).unwrap().len() < s.len(),
        parent_locale(s).unwrap() == s.take(parent_locale(s).unwrap().len() as int),
{
    lemma_last_hyphen(s);
    let n = last_hyphen(s).unwrap();
    lemma_without_marker_is_prefix(s.take(n));
    let p = without_marker(s.take(n));
    assert(s.take(n).take(p.len() as int) == s.take(p.len() as int));
}

/// The requested locale followed by its structural parents, nearest first.
pub open spec fn structural_chain(s: Seq<char>) -> Seq<Seq<char>>
    decreases s.len(),
{
    match parent_locale(s) {
        Some(p) => {
            proof {
                lemma_parent_is_proper_prefix(s);
            }
            seq![s] + structural_chain(p)
        },
        None => seq![s],
    }
}

/// The locales to probe for `locale`, in order. The empty locale has none:
/// a caller then uses the key itself.
pub open spec fn fallback_chain(locale: Seq<char>, fallback: Seq<Seq<char>>) -> Seq<Seq<char>> {
    if locale.len() == 0 {
        Seq::empty()
    } else {
        with_missing(structural_chain(locale), fallback)
    }
}

/// The structural parent of `locale`, if it has one.
pub fn lookup_fallback(locale: &str) -> (r: Option<String>)
    ensures
        match r {
            Some(p) => parent_locale(locale@) == Some(p@),
            None => parent_locale(locale@) is None,
        },
{
    let v = chars_of(locale);
    let mut j: usize = v.len();
    assert(v@.take(j as int) == v@);
    while j > 0 && v[j - 1] != '-'
        invariant
            j <= v@.len(),
            last_hyphen(v@) == last_hyphen(v@.take(j as int)),
        decreases j,
    {
        assert(v@.take(j as int).drop_last() == v@.take(j - 1));
        j -= 1;
    }
    if j == 0 {
        return None;
    }
    let n: usize = j - 1;
    let mut end: usize = n;
    while end >= 2 && v[end - 2] == '-' && v[end - 1] == 'x'
        invariant
            end <= n < v@.len(),
            without_marker(v@.take(n as int)) == without_marker(v@.take(end as int)),
        decreases end,
    {
        assert(v@.take(end as int).take(end - 2) == v@.take(end - 2));
        end -= 2;
    }
    assert(v@.take(end as int) == v@.subrange(0, end as int));
    Some(string_of_range(&v, 0, end))
}

/// The requested locale and its structural parents.
fn structural(locale: &str) -> (chain: Vec<String>)
    ensures
        str_views(chain@) == structural_chain(locale@),
{
    let mut chain: Vec<String> = Vec::new();
    let mut current: String = locale.to_owned();
    let ghost mut done: Seq<Seq<char>> = Seq::empty();
    loop
        invariant
            str_views(chain@) == done,
            structural_chain(locale@) == done + structural_chain(current@),
        decreases current@.len(),
    {
        let next = lookup_fallback(current.as_str());
        let ghost cur = current@;
        chain.push(current);
        proof {
            assert(str_views(chain@) == done.push(cur));
            done = done.push(cur);
        }
        match next {
            Some(p) => {
                proof {
                    lemma_parent_is_proper_prefix(cur);
                    assert(done + structural_chain(p@) == done.drop_last() + (seq![cur]
                        + structural_chain(p@)));
                }
                current = p;
            },
            None => {
                assert(done == done.drop_last() + seq![cur]);
                return chain;
            },
        }
    }
}

/// The locales to probe for a translation of `locale`, in order: the locale
/// itself, its structural parents, then the declared fallbacks that did not
/// occur before.
pub fn resolve(locale: &str, fallback: &Vec<String>) -> (chain: Vec<String>)
    ensures
        str_views(chain@) == fallback_chain(locale@, str_views(fallback@)),
        locale@.len() == 0 ==> chain@.len() == 0,
        locale@.len() > 0 ==> chain@.len() > 0 && chain@[0]@ == locale@,
{
    if locale.unicode_len() == 0 {
        return Vec::new();
    }
    let mut chain = structural(locale);
    push_missing(&mut chain, fallback);
    proof {
        lemma_chain_starts_with_locale(locale@, str_views(fallback@));
    }
    chain
}

/// A chain for a locale that is not empty starts with that locale.
pub proof fn lemma_chain_starts_with_locale(locale: Seq<char>, fallback: Seq<Seq<char>>)
    ensures
        with_missing(structural_chain(locale), fallback).len() > 0,
        with_missing(structural_chain(locale), fallback)[0] == locale,
    decreases fallback.len(),
{
    if fallback.len() > 0 {
        lemma_chain_starts_with_locale(locale, fallback.drop_last());
    }
}

/// The structural part of a chain descends: it starts with the locale, and
/// each entry after the first is a proper prefix of the entry before it.
pub proof fn lemma_structural_chain_descends(locale: Seq<char>)
    ensures
        structural_chain(locale).len() > 0,
        structural_chain(locale)[0] == locale,
        forall|i: int|
            0 <= i < structural_chain(locale).len() - 1 ==> (#[trigger] structural_chain(
                locale,
            )[i + 1]).len() < structural_chain(locale)[i].len() && structural_chain(locale)[i + 1]
                == structural_chain(locale)[i].take(structural_chain(locale)[i + 1].len() as int),
        forall|i: int|
            0 <= i < structural_chain(locale).len() ==> (#[trigger] structural_chain(
                locale,
            )[i]).len() <= locale.len(),
    decreases locale.len(),
{
    match parent_locale(locale) {
        Some(p) => {
            lemma_parent_is_proper_prefix(locale);
            lemma_structural_chain_descends(p);
            let chain = structural_chain(locale);
            let rest = structural_chain(p);
            assert(chain == seq![locale] + rest);
            assert forall|i: int| 0 <= i < chain.len() - 1 implies (#[trigger] chain[i + 1]).len()
                < chain[i].len() && chain[i + 1] == chain[i].take(chain[i + 1].len() as int) by {
                if i == 0 {
                    assert(chain[1] == rest[0]);
                } else {
                    assert(chain[i] == rest[i - 1]);
                    assert(chain[i + 1] == rest[i - 1 + 1]);
                }
            }
            assert forall|i: int| 0 <= i < chain.len() implies (#[trigger] chain[i]).len()
                <= locale.len() by {
                if i > 0 {
                    assert(chain[i] == rest[i - 1]);
                }
            }
        },
        None => {},
    }
}

/// No locale occurs twice in the structural part of a chain.
pub proof fn lemma_structural_chain_no_duplicates(locale: Seq<char>)
    ensures
        structural_chain(locale).no_duplicates(),
    decreases locale.len(),
{
    match parent_locale(locale) {
        Some(p) => {
            lemma_parent_is_proper_prefix(locale);
            lemma_structural_chain_no_duplicates(p);
            lemma_structural_chain_descends(p);
            let chain = structural_chain(locale);
            let rest = structural_chain(p);
            assert(chain == seq![locale] + rest);
            assert forall|i: int, j: int|
                0 <= i < chain.len() && 0 <= j < chain.len() && i != j implies chain[i]
                != chain[j] by {
                if i > 0 {
                    assert(chain[i] == rest[i - 1]);
                }
                if j > 0 {
                    assert(chain[j] == rest[j - 1]);
                }
            }
        },
        None => {},
    }
}

/// The chain of a locale that is not empty begins with the locale and its
/// structural parents, holds every declared fallback, holds nothing else,
/// and holds nothing twice.
pub proof fn lemma_fallback_chain(locale: Seq<char>, fallback: Seq<Seq<char>>)
    requires
        locale.len() > 0,
    ensures
        fallback_chain(locale, fallback).take(structural_chain(locale).len() as int)
            == structural_chain(locale),
        fallback_chain(locale, fallback).no_duplicates(),
        forall|i: int|
            0 <= i < fallback.len() ==> fallback_chain(locale, fallback).contains(fallback[i]),
        forall|l: Seq<char>| #[trigger]
            fallback_chain(locale, fallback).contains(l) ==> structural_chain(locale).contains(l)
                || fallback.contains(l),
{
    lemma_structural_chain_no_duplicates(locale);
    lemma_with_missing(structural_chain(locale), fallback);
}

} // verus!
