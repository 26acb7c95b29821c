//! Validity of a key as text. The pipeline only ever asks whether a byte
//! span decodes as UTF-8; the answer is a function of the bytes alone.

use vstd::prelude::*;

verus! {

/// Whether `s` is a well-formed UTF-8 encoding.
pub uninterp spec fn is_utf8(s: Seq<u8>) -> bool;

/// Relies on `std::str::from_utf8`: it succeeds exactly on well-formed
/// UTF-8 input, a property of the bytes alone.
#[verifier::external_body]
pub(crate) fn key_is_utf8(b: &[u8]) -> (r: bool)
    ensures
        r == is_utf8(b@),
{
    std::str::from_utf8(b).is_ok()
}

} // verus!
