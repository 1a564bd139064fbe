//! Draws of fresh randomness for the update rules.
//!
//! Every rule consumes its draws through the two functions here, and the
//! verified code that receives a draw is checked for every value the
//! contract allows, so nothing downstream depends on the distribution.

use vstd::prelude::*;

verus! {

/// Relies on rand::random_range: a uniform draw from `lo..hi`, which lies
/// in that range and panics only when the range is empty.
#[verifier::external_body]
pub(crate) fn random_in(lo: i32, hi: i32) -> (r: i32)
    requires
        lo < hi,
    ensures
        lo <= r < hi,
{
    rand::random_range(lo..hi)
}

/// Relies on rand::random with the standard distribution on bool: a coin
/// flip deciding which of two mirror-image candidate orderings a rule
/// prefers this invocation.
#[verifier::external_body]
pub(crate) fn random_pref() -> bool {
    rand::random::<bool>()
}

} // verus!
