//! Reading what a user types on the command line: a translation supplied by
//! hand, and the names of the files that a sort writes.

use crate::text::{
    chars_of, find, first_occurrence, matches_at, occurs_at, string_of_range, trim, trimmed,
};
use vstd::prelude::*;
use vstd::string::*;

verus! {

/// `s` without a double quote at its start and without one at its end. A
/// lone quote leaves nothing.
pub open spec fn unquoted(s: Seq<char>) -> Seq<char> {
    let start: int = if s.len() > 0 && s[0] == '"' {
        1
    } else {
        0
    };
    let end: int = if s.len() > 0 && s.last() == '"' {
        s.len() - 1
    } else {
        s.len() as int
    };
    if start <= end {
        s.subrange(start, end)
    } else {
        Seq::empty()
    }
}

/// Removes a double quote from the start of a string and one from its end.
pub fn remove_quotes(s: &str) -> (r: &str)
    ensures
        r@ == unquoted(s@),
{
    let n = s.unicode_len();
    let mut start: usize = 0;
    let mut end: usize = n;
    if n > 0 && s.get_char(0) == '"' {
        start = 1;
    }
    if n > 0 && s.get_char(n - 1) == '"' {
        end = n - 1;
    }
    if start <= end {
        s.substring_char(start, end)
    } else {
        assert(s@.subrange(0, 0) == Seq::<char>::empty());
        s.substring_char(0, 0)
    }
}

/// The arrow that parts a text from its translation.
pub open spec fn arrow() -> Seq<char> {
    seq!['=', '>']
}

/// The key and the translation that an argument of the form
/// `key => translation` gives: what stands before the first arrow and what
/// stands after it, each without the whitespace and then without the double
/// quotes around it. An argument without an arrow is both key and
/// translation, trimmed and unquoted in the same way.
pub open spec fn parsed_translation(s: Seq<char>) -> (Seq<char>, Seq<char>) {
    match first_occurrence(s, arrow()) {
        Some(i) => (unquoted(trimmed(s.take(i))), unquoted(trimmed(s.skip(i + 2)))),
        None => (unquoted(trimmed(s)), unquoted(trimmed(s))),
    }
}

/// Reads a translation that was supplied by hand, of the form
/// `key => translation`, into the pair of key and translation.
pub fn translate_value_parser(s: &str) -> (r: Result<(String, String), std::io::Error>)
    ensures
        r matches Ok(pair) && (pair.0@, pair.1@) == parsed_translation(s@),
{
    let v = chars_of(s);
    let mut pat: Vec<char> = Vec::new();
    pat.push('=');
    pat.push('>');
    assert(pat@ == arrow());
    match find(&v, &pat) {
        Some(i) => {
            assert(pat@.len() == 2);
            assert(v@.take(i as int) == v@.subrange(0, i as int));
            assert(v@.skip(i + 2) == v@.subrange(i + 2, v@.len() as int));
            let n = v.len();
            let key = trim(string_of_range(&v, 0, i).as_str());
            let msg = trim(string_of_range(&v, i + 2, n).as_str());
            Ok((remove_quotes(key.as_str()).to_owned(), remove_quotes(msg.as_str()).to_owned()))
        },
        None => {
            let whole = trim(s);
            Ok((remove_quotes(whole.as_str()).to_owned(), remove_quotes(whole.as_str()).to_owned()))
        },
    }
}

/// What a sorted copy of a file is called: the stem of the file's name, the
/// suffix `-sorted`, a dot and the extension.
pub open spec fn sorted_name(stem: Seq<char>, ext: Seq<char>) -> Seq<char> {
    stem + "-sorted."@ + ext
}

/// The name of the file that a sort writes beside the file it read.
pub fn sorted_file_name(stem: &str, ext: &str) -> (name: String)
    ensures
        name@ == sorted_name(stem@, ext@),
{
    let mut name = stem.to_owned();
    name.append("-sorted.");
    name.append(ext);
    name
}

/// The suffix that a sort gives to the stem of the files it writes.
pub open spec fn sorted_suffix() -> Seq<char> {
    "-sorted"@
}

/// Whether the stem of a file's name, the name without its extension, bears
/// the suffix that a sort gives to the files it writes: whether it ends with
/// `-sorted`.
pub open spec fn bears_sorted_suffix(stem: Seq<char>) -> bool {
    occurs_at(stem, sorted_suffix(), stem.len() - sorted_suffix().len())
}

/// The file that a sort writes beside another bears the suffix, whatever the
/// stem of the file it read.
pub proof fn lemma_sorted_name_bears_suffix(stem: Seq<char>)
    ensures
        bears_sorted_suffix(stem + sorted_suffix()),
{
    let whole = stem + sorted_suffix();
    assert(whole.subrange(whole.len() - sorted_suffix().len(), whole.len() as int)
        == sorted_suffix());
}

/// Whether a sort passes a file over, given the stem of the file's name: it
/// does so for a file that bears the suffix of a sorted copy, unless files
/// are sorted in place. The directories in which the file lies play no part.
pub fn skips_file(stem: &str, inplace: bool) -> (skip: bool)
    ensures
        skip == (!inplace && bears_sorted_suffix(stem@)),
{
    if inplace {
        return false;
    }
    let v = chars_of(stem);
    let pat = chars_of("-sorted");
    if pat.len() > v.len() {
        return false;
    }
    matches_at(&v, &pat, v.len() - pat.len())
}

} // verus!
