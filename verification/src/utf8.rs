//! Bytes and UTF-8 text.

use vstd::prelude::*;

verus! {

/// What `String::from_utf8_lossy` makes of bytes: their text, each ill-formed part of them
/// replaced by U+FFFD.
pub uninterp spec fn lossy_text(bytes: Seq<u8>) -> Seq<char>;

/// What the `Debug` form of a string is: the text in quotes, with escapes.
pub uninterp spec fn quoted_text(s: Seq<char>) -> Seq<char>;

/// Calls `String::from_utf8`, which gives the text of well-formed UTF-8 and an error for
/// any other bytes.
#[verifier::external_body]
pub(crate) fn string_from_utf8(bytes: Vec<u8>) -> (r: Option<String>)
    ensures
        match r {
            Some(s) => vstd::utf8::valid_utf8(bytes@) && s@ == vstd::utf8::decode_utf8(bytes@),
            None => !vstd::utf8::valid_utf8(bytes@),
        },
{
    String::from_utf8(bytes).ok()
}

/// Calls `String::from_utf8_lossy`, which gives the text of well-formed UTF-8 as it is and
/// that of other bytes with replacement characters.
#[verifier::external_body]
pub(crate) fn string_from_utf8_lossy(bytes: &Vec<u8>) -> (r: String)
    ensures
        r@ == lossy_text(bytes@),
        vstd::utf8::valid_utf8(bytes@) ==> r@ == vstd::utf8::decode_utf8(bytes@),
{
    String::from_utf8_lossy(bytes).into_owned()
}

/// Formats a string with `{:?}`, which depends on nothing but the string.
#[verifier::external_body]
pub(crate) fn quoted(s: &str) -> (r: String)
    ensures
        r@ == quoted_text(s@),
{
    format!("{:?}", s)
}

} // verus!
