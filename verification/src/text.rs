//! Small text helpers shared by the renderer and the codec.

use vstd::prelude::*;

verus! {

/// Relies on `String::push`: appends the given character to the string.
#[verifier::external_body]
pub(crate) fn push_char(s: &mut String, c: char)
    ensures
        final(s)@ == old(s)@.push(c),
{
    s.push(c)
}

/// Relies on `char::from_u32`: returns the character with the given code
/// exactly when the code is a Unicode scalar value (not a surrogate, and at
/// most 0x10FFFF), and `None` otherwise.
#[verifier::external_body]
pub(crate) fn char_from_u32(v: u32) -> (r: Option<char>)
    ensures
        r is Some <==> (v < 0xD800 || (0xE000 <= v && v <= 0x10FFFF)),
        r matches Some(c) ==> c == (v as char) && c as u32 == v,
{
    char::from_u32(v)
}

} // verus!
