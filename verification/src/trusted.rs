//! Contracts assumed about the handful of outside functions the library
//! calls: UTF-8 decoding and two character/string primitives.

use vstd::prelude::*;
use vstd::utf8::{decode_utf8, valid_utf8};

verus! {

#[verifier::external_type_specification]
#[verifier::external_body]
pub struct ExUtf8Error(core::str::Utf8Error);

/// Relies on str::from_utf8: it succeeds exactly when the bytes are valid
/// UTF-8, and the returned string slice holds those bytes' decoded
/// characters. Both sides are stated against vstd's UTF-8 model.
pub assume_specification[ core::str::from_utf8 ](v: &[u8]) -> (r: Result<
    &str,
    core::str::Utf8Error,
>)
    ensures
        r is Ok <==> valid_utf8(v@),
        r matches Ok(s) ==> s@ == decode_utf8(v@),
;

/// Relies on char::from_u32: it returns a character exactly when the value
/// is a Unicode scalar value (not a surrogate, not above 0x10FFFF), and
/// the returned character has that value.
pub assume_specification[ char::from_u32 ](v: u32) -> (r: Option<char>)
    ensures
        r is Some <==> (v < 0xD800 || (0xE000 <= v && v <= 0x10FFFF)),
        r matches Some(c) ==> c as u32 == v,
;

/// Relies on String::push: it appends the given character to the end of
/// the string and changes nothing else.
#[verifier::external_body]
pub fn push_char(s: &mut String, c: char)
    ensures
        final(s)@ == old(s)@.push(c),
{
    s.push(c);
}

} // verus!
