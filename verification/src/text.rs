//! Thin, trusted bridges to the `String`, `str` and `char` operations that
//! vstd leaves unspecified, and how optional strings are seen.

use vstd::prelude::*;
use vstd::utf8::{decode_utf8, is_scalar, valid_utf8};

verus! {

/// The characters of an optional string.
pub open spec fn opt_chars(s: Option<&str>) -> Option<Seq<char>> {
    match s {
        Some(t) => Some(t@),
        None => None,
    }
}

/// `String::push`: appends one character to the end of the string.
#[verifier::external_body]
pub(crate) fn push_char(s: &mut String, c: char)
    ensures
        final(s)@ == old(s)@.push(c),
{
    s.push(c);
}

/// `std::str::from_utf8`, with the error dropped: the text that `b` encodes
/// when `b` is valid UTF-8, and `None` exactly when it is not.
#[verifier::external_body]
pub(crate) fn utf8_str(b: &[u8]) -> (r: Option<&str>)
    ensures
        r is Some <==> valid_utf8(b@),
        r matches Some(s) ==> s@ == decode_utf8(b@),
{
    std::str::from_utf8(b).ok()
}

/// What `String::from_utf8_lossy` makes of `b`: invalid sequences replaced
/// by U+FFFD. Only its agreement with strict decoding on valid input is
/// relied on.
pub uninterp spec fn lossy_text(b: Seq<u8>) -> Seq<char>;

/// `String::from_utf8_lossy(b).into_owned()`. The contract names the result
/// and states the documented fact that valid UTF-8 is decoded unchanged; the
/// replacement rule for invalid input is left unstated.
#[verifier::external_body]
pub(crate) fn utf8_lossy(b: &[u8]) -> (r: String)
    ensures
        r@ == lossy_text(b@),
        valid_utf8(b@) ==> r@ == decode_utf8(b@),
{
    String::from_utf8_lossy(b).into_owned()
}

/// `char::from_u32`: the character with scalar value `code`, and `None`
/// exactly for surrogates and values above U+10FFFF.
#[verifier::external_body]
pub(crate) fn char_from_u32(code: u32) -> (r: Option<char>)
    ensures
        is_scalar(code) ==> r == Some(code as char),
        !is_scalar(code) ==> r is None,
{
    char::from_u32(code)
}

/// What `str::to_lowercase` makes of a text: its Unicode lower-case mapping
/// (including the context-dependent final sigma), a function of the text
/// alone.
pub uninterp spec fn lowercase(s: Seq<char>) -> Seq<char>;

/// `str::to_lowercase`. The contract names the mapping; the Unicode tables
/// behind it are not restated.
#[verifier::external_body]
pub(crate) fn to_lowercase(s: &str) -> (r: String)
    ensures
        r@ == lowercase(s@),
{
    s.to_lowercase()
}

} // verus!
