//! Text conversions between byte payloads and UTF-8 strings.

use vstd::prelude::*;

verus! {

/// Relies on String::from_utf8: it succeeds exactly on valid UTF-8, and the
/// returned string's UTF-8 encoding is the input itself.
#[verifier::external_body]
pub fn string_from_utf8(bytes: Vec<u8>) -> (r: Option<String>)
    ensures
        r matches Some(s) ==> vstd::utf8::encode_utf8(s@) == bytes@ && vstd::utf8::valid_utf8(
            bytes@,
        ),
        r is None ==> !vstd::utf8::valid_utf8(bytes@),
{
    String::from_utf8(bytes).ok()
}

/// Relies on String::push: appends exactly one character.
#[verifier::external_body]
pub fn string_push(s: &mut String, c: char)
    ensures
        final(s)@ == old(s)@.push(c),
{
    s.push(c)
}

} // verus!
