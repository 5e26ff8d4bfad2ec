//! Strings and UTF-8: `compact_str` strings, `bstr` decoding and std's checks.
use vstd::prelude::*;

use compact_str::CompactString;

verus! {

#[verifier::external_type_specification]
#[verifier::external_body]
pub struct ExCompactString(CompactString);

/// The UTF-8 bytes a `CompactString` holds.
pub uninterp spec fn compact_bytes(s: CompactString) -> Seq<u8>;

/// `CompactString::as_bytes`: the bytes of the string, which (a
/// `CompactString` being a UTF-8 string) are valid UTF-8.
#[verifier::external_body]
pub(crate) fn compact_as_bytes(s: &CompactString) -> (b: &[u8])
    ensures
        b@ == compact_bytes(*s),
        vstd::utf8::valid_utf8(b@),
{
    s.as_bytes()
}

/// The number of UTF-8 bytes that `s` holds, which the parsers' length bound
/// speaks of.
pub fn compact_len(s: &CompactString) -> (n: usize)
    ensures
        n == compact_bytes(*s).len(),
{
    compact_as_bytes(s).len()
}

/// `CompactString::as_str`, copied into a `String`: the same text, whose
/// UTF-8 encoding is the bytes the `CompactString` holds.
#[verifier::external_body]
pub(crate) fn compact_to_string(s: &CompactString) -> (t: String)
    ensures
        vstd::utf8::encode_utf8(t@) == compact_bytes(*s),
{
    String::from(s.as_str())
}

/// What `bstr::decode_utf8` returns for `bytes`: the first UTF-8 scalar value
/// (if the bytes start with a valid one) and the number of bytes it covers.
pub uninterp spec fn utf8_decode_first(bytes: Seq<u8>) -> (Option<char>, usize);

/// `bstr::decode_utf8` on the bytes from `start` on. As its documentation and
/// source say, bytes that start with a well-formed UTF-8 encoding of a scalar
/// value decode to that character (an ASCII byte to itself, in one byte),
/// and an empty slice to `(None, 0)`; what it returns for other bytes is left
/// to the name.
#[verifier::external_body]
pub(crate) fn decode_utf8_at(bytes: &[u8], start: usize) -> (r: (Option<char>, usize))
    requires
        start <= bytes@.len(),
    ensures
        r == utf8_decode_first(bytes@.subrange(start as int, bytes@.len() as int)),
        start == bytes@.len() ==> r == (None::<char>, 0usize),
        start < bytes@.len() && bytes@[start as int] <= 0x7f ==> r == (
            Some(bytes@[start as int] as char),
            1usize,
        ),
        start < bytes@.len() && vstd::utf8::valid_first_scalar(
            bytes@.subrange(start as int, bytes@.len() as int),
        ) ==> r.0 == Some(
            vstd::utf8::decode_first_scalar(bytes@.subrange(start as int, bytes@.len() as int))
                as char,
        ),
{
    bstr::decode_utf8(&bytes[start..])
}

/// `std::str::from_utf8`, asked only whether it succeeds: it does exactly
/// when the bytes are valid UTF-8.
#[verifier::external_body]
pub(crate) fn is_utf8(b: &[u8]) -> (r: bool)
    ensures
        r == vstd::utf8::valid_utf8(b@),
{
    std::str::from_utf8(b).is_ok()
}

/// `String::push`: appends the character `c`.
#[verifier::external_body]
pub(crate) fn string_push(s: &mut String, c: char)
    ensures
        final(s)@ == old(s)@.push(c),
{
    s.push(c)
}

/// A `String` holding `chars`.
pub(crate) fn string_from_chars(chars: &Vec<char>) -> (s: String)
    ensures
        s@ == chars@,
{
    let mut s = String::new();
    let mut i: usize = 0;
    while i < chars.len()
        invariant
            i <= chars@.len(),
            s@ == chars@.take(i as int),
        decreases chars@.len() - i,
    {
        string_push(&mut s, chars[i]);
        assert(chars@.take(i + 1) =~= chars@.take(i as int).push(chars@[i as int]));
        i = i + 1;
    }
    assert(chars@.take(chars@.len() as int) =~= chars@);
    s
}

} // verus!
