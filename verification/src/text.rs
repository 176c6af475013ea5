//! Trusted contracts for the few pieces of std's text handling that vstd
//! leaves unspecified.

use vstd::prelude::*;

verus! {

/// Relies on `String::push`: appends one character at the end of the string.
pub assume_specification[ String::push ](s: &mut String, c: char)
    ensures
        final(s)@ == old(s)@.push(c),
;

/// What `char::is_alphanumeric` returns: a function of the character alone,
/// given by Unicode's letter and number categories.
pub uninterp spec fn char_alphanumeric(c: char) -> bool;

/// Relies on `char::is_alphanumeric`: the result depends on the character
/// alone.
pub assume_specification[ char::is_alphanumeric ](c: char) -> (b: bool)
    ensures
        b == char_alphanumeric(c),
;

/// What `char::is_whitespace` returns: Unicode's whitespace property.
pub uninterp spec fn char_whitespace(c: char) -> bool;

/// Relies on `char::is_whitespace`: the result depends on the character
/// alone.
pub assume_specification[ char::is_whitespace ](c: char) -> (b: bool)
    ensures
        b == char_whitespace(c),
;

/// Relies on `String::from_utf8`: accepts exactly the valid UTF-8 byte
/// strings and decodes them.
#[verifier::external_body]
pub(crate) fn bytes_to_string(v: Vec<u8>) -> (r: Option<String>)
    ensures
        r is Some <==> vstd::utf8::valid_utf8(v@),
        r matches Some(s) ==> s@ == vstd::utf8::decode_utf8(v@),
{
    match String::from_utf8(v) {
        Ok(s) => Some(s),
        Err(_) => None,
    }
}

/// Relies on `str::from_utf8`: succeeds exactly on valid UTF-8.
#[verifier::external_body]
pub(crate) fn utf8_ok(v: &Vec<u8>) -> (r: bool)
    ensures
        r == vstd::utf8::valid_utf8(v@),
{
    std::str::from_utf8(v.as_slice()).is_ok()
}

} // verus!
