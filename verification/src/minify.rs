//! Key minification: a long source text is replaced by a short key made of a
//! prefix and a fixed number of base-62 digits of a keyless SipHash-1-3 of
//! the text. Short texts stay as they are, so that keys remain readable.
//!
//! Two different texts may receive the same key: the hash is cut to the key
//! length and nothing detects a collision.

use vstd::prelude::*;
use vstd::slice::*;
use vstd::string::*;
use vstd::utf8::*;

verus! {

/// The 128-bit SipHash-1-3 of `bytes` under the all-zero key.
pub uninterp spec fn sip13_hash128(bytes: Seq<u8>) -> u128;

/// `siphasher::sip128::SipHasher13::hash` on a hasher made by
/// `SipHasher13::new`, which sets both keys to zero. The digest depends on
/// the bytes alone; its two halves are joined with the second one in the
/// high bits.
#[verifier::external_body]
fn sip13_digest(bytes: &[u8]) -> (h: u128)
    ensures
        h == sip13_hash128(bytes@),
{
    u128::from(siphasher::sip128::SipHasher13::new().hash(bytes))
}

/// The base-62 digits in ascending order of value.
pub open spec fn base62_alphabet() -> Seq<char> {
    "0123456789ABCDEFGHIJKLMNOPQRSTUVWXYZabcdefghijklmnopqrstuvwxyz"@
}

/// `n` written in base 62, most significant digit first, without leading
/// zeros; zero is written as one digit.
pub open spec fn base62_repr(n: nat) -> Seq<char>
    decreases n,
{
    if n < 62 {
        seq![base62_alphabet()[n as int]]
    } else {
        base62_repr(n / 62).push(base62_alphabet()[(n % 62) as int])
    }
}

/// `base62::encode`, which writes an unsigned integer in base 62 with the
/// digits 0 to 9, then A to Z, then a to z.
#[verifier::external_body]
fn base62_encode(n: u128) -> (s: String)
    ensures
        s@ == base62_repr(n as nat),
{
    base62::encode(n)
}

/// The character that fills a key when the hash has fewer digits than asked
/// for.
pub open spec fn key_filler() -> char {
    '0'
}

/// The first `len` characters of the base-62 digits of `hash`, followed by
/// as many fillers as are needed to reach `len` characters.
pub open spec fn key_body(hash: u128, len: nat) -> Seq<char> {
    Seq::new(
        len,
        |i: int|
            if i < base62_repr(hash as nat).len() {
                base62_repr(hash as nat)[i]
            } else {
                key_filler()
            },
    )
}

/// The key of `text`: the text itself when `len` is zero or the text takes
/// at most `thresh` bytes in UTF-8, else `prefix` followed by exactly `len`
/// characters drawn from the hash of the text.
pub open spec fn minified(text: Seq<char>, len: usize, prefix: Seq<char>, thresh: usize) -> Seq<
    char,
> {
    if len == 0 || encode_utf8(text).len() <= thresh {
        text
    } else {
        prefix + key_body(sip13_hash128(encode_utf8(text)), len as nat)
    }
}

/// Renders a hash as a key: `prefix`, then exactly `len` characters.
pub fn render_key(hash: u128, len: usize, prefix: &str) -> (key: String)
    ensures
        key@ == prefix@ + key_body(hash, len as nat),
{
    let encoded = base62_encode(hash);
    let digits = crate::text::chars_of(encoded.as_str());
    let mut key = prefix.to_owned();
    let mut i: usize = 0;
    while i < len
        invariant
            i <= len,
            digits@ == base62_repr(hash as nat),
            key@ == prefix@ + key_body(hash, i as nat),
        decreases len - i,
    {
        let c = if i < digits.len() {
            digits[i]
        } else {
            '0'
        };
        key.push(c);
        assert(key_body(hash, (i + 1) as nat) == key_body(hash, i as nat).push(c));
        i += 1;
    }
    key
}

/// The 128-bit content hash from which keys are drawn.
pub fn hash128(text: &str) -> (h: u128)
    ensures
        h == sip13_hash128(encode_utf8(text@)),
{
    sip13_digest(text.as_bytes())
}

/// Maps a source text to its translation key.
///
/// The result is a function of the four arguments alone, so the same text
/// gets the same key in every run and in every process, and the key of one
/// text does not depend on any other text.
pub fn minify(text: &str, len: usize, prefix: &str, thresh: usize) -> (key: String)
    ensures
        key@ == minified(text@, len, prefix@, thresh),
        len == 0 || encode_utf8(text@).len() <= thresh ==> key@ == text@,
        len > 0 && encode_utf8(text@).len() > thresh ==> key@.len() == prefix@.len() + len,
{
    broadcast use vstd::slice::group_slice_axioms;

    if len == 0 || text.as_bytes().len() <= thresh {
        text.to_owned()
    } else {
        render_key(hash128(text), len, prefix)
    }
}

/// A text that takes at most `thresh` bytes is its own key, whatever the
/// length and the prefix.
pub proof fn lemma_minify_bypass(text: Seq<char>, len: usize, prefix: Seq<char>, thresh: usize)
    requires
        encode_utf8(text).len() <= thresh,
    ensures
        minified(text, len, prefix, thresh) == text,
{
}

/// A key that was minified is the prefix followed by exactly `len`
/// characters.
pub proof fn lemma_minified_width(text: Seq<char>, len: usize, prefix: Seq<char>, thresh: usize)
    requires
        len > 0,
        encode_utf8(text).len() > thresh,
    ensures
        minified(text, len, prefix, thresh).len() == prefix.len() + len,
        minified(text, len, prefix, thresh).take(prefix.len() as int) == prefix,
{
    let body = key_body(sip13_hash128(encode_utf8(text)), len as nat);
    assert((prefix + body).take(prefix.len() as int) == prefix);
}

} // verus!
