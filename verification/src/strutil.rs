//! Conversions between `String`/`&str` and their character buffers.
//!
//! The store core works on `Vec<char>` buffers; these two helpers move
//! between that representation and the string types of the public API.

use vstd::prelude::*;

verus! {

/// Relies on `str::chars` and `Iterator::collect`: the collected vector
/// holds exactly the characters of the string, in order.
#[verifier::external_body]
pub(crate) fn str_chars(s: &str) -> (r: Vec<char>)
    ensures
        r@ == s@,
{
    s.chars().collect()
}

/// Relies on `String`'s `FromIterator<char>` impl: the collected string
/// holds exactly the characters of the slice, in order.
#[verifier::external_body]
pub(crate) fn chars_string(v: &[char]) -> (r: String)
    ensures
        r@ == v@,
{
    v.iter().collect()
}

} // verus!
