use vstd::prelude::*;

verus! {

/// How many bytes of `s` the `strtod` crate reads as a floating point
/// number, or `None` when it finds none (or `s` is not UTF-8).
pub uninterp spec fn spec_strtod_len(s: Seq<u8>) -> Option<usize>;

/// Calls `strtod::strtod` on `s` (as text) and keeps how many bytes it read.
/// The contract claims only that the result is a function of the bytes of
/// `s`, named `spec_strtod_len`; which inputs the crate accepts is not stated.
#[verifier::external_body]
pub(crate) fn strtod_len(s: &[u8]) -> (r: Option<usize>)
    ensures
        r == spec_strtod_len(s@),
{
    match std::str::from_utf8(s) {
        Ok(text) => strtod::strtod(text).map(|(_, n)| n),
        Err(_) => None,
    }
}

} // verus!
