//! The boundary between the library's character sequences and `String`.

use vstd::prelude::*;

verus! {

/// Relies on str::chars and Iterator::collect for Vec: the characters of the
/// string, in order.
#[verifier::external_body]
pub fn str_chars(s: &str) -> (r: Vec<char>)
    ensures
        r@ == s@,
{
    s.chars().collect()
}

/// Relies on Iterator::collect for String from chars: a string holding exactly
/// the given characters.
#[verifier::external_body]
pub fn chars_string(v: &Vec<char>) -> (r: String)
    ensures
        r@ == v@,
{
    v.iter().collect()
}

/// Relies on char::from_u32: a character for every scalar value, that is every
/// code point up to 0x10FFFF that is not a surrogate, and nothing else.
pub assume_specification[ char::from_u32 ](u: u32) -> (r: Option<char>)
    ensures
        r is Some <==> (u < 0xD800 || (0xE000 <= u && u <= 0x10FFFF)),
        r is Some ==> r->0 as u32 == u,
;

} // verus!
