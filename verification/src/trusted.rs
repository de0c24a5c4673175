//! The two places where the library hands bytes it has proven to be valid
//! UTF-8 to the standard library for reinterpretation as string types.

use vstd::prelude::*;
use vstd::utf8::*;

verus! {

/// Relies on `String::from_utf8`: on bytes that are valid UTF-8 it
/// returns `Ok` of the string those bytes encode, so the unwrap cannot
/// panic and the result's UTF-8 form is the input.
#[verifier::external_body]
pub(crate) fn string_from_utf8(v: Vec<u8>) -> (r: String)
    requires
        valid_utf8(v@),
    ensures
        encode_utf8(r@) == v@,
{
    String::from_utf8(v).unwrap()
}

/// Relies on `str::from_utf8`: on bytes that are valid UTF-8 it returns
/// `Ok` of the string slice over those same bytes, so the unwrap cannot
/// panic and the result's UTF-8 form is the input.
#[verifier::external_body]
pub(crate) fn str_from_utf8(v: &[u8]) -> (r: &str)
    requires
        valid_utf8(v@),
    ensures
        encode_utf8(r@) == v@,
{
    core::str::from_utf8(v).unwrap()
}

} // verus!
