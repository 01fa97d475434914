//! UTF-8 checks and string building from `std`, stated over vstd's
//! model of UTF-8 (`valid_utf8`, `encode_utf8`).
use vstd::prelude::*;
use vstd::utf8::{encode_utf8, valid_utf8};

verus! {

/// `std::str::from_utf8`: the string whose UTF-8 form is `b`, when `b` is
/// well-formed UTF-8, and `None` otherwise. The error's details are dropped.
#[verifier::external_body]
pub(crate) fn str_from_utf8(b: &[u8]) -> (r: Option<&str>)
    ensures
        r is Some <==> valid_utf8(b@),
        r matches Some(s) ==> encode_utf8(s@) == b@,
{
    std::str::from_utf8(b).ok()
}

/// `String::from_utf8`: the string whose UTF-8 form is `v`, when `v` is
/// well-formed UTF-8, and `None` otherwise. The error, which would hand the
/// bytes back, is dropped.
#[verifier::external_body]
pub(crate) fn string_from_utf8(v: Vec<u8>) -> (r: Option<String>)
    ensures
        r is Some <==> valid_utf8(v@),
        r matches Some(s) ==> encode_utf8(s@) == v@,
{
    String::from_utf8(v).ok()
}

/// `String::push`: appends one character.
#[verifier::external_body]
pub(crate) fn string_push(s: &mut String, c: char)
    ensures
        final(s)@ == old(s)@.push(c),
{
    s.push(c)
}

} // verus!
