//! Randomness for the randomized initializers, drawn through the `rand`
//! crate. Nothing can be promised of which value comes back, only that it
//! lies in the requested range.

use vstd::prelude::*;

verus! {

/// Relies on rand::random_range: a uniform sample from the non-empty range
/// `lo..hi` lies in `[lo, hi)`. The call panics only on an empty range,
/// which the contract rules out.
#[verifier::external_body]
pub(crate) fn rand_range(lo: usize, hi: usize) -> (r: usize)
    requires
        lo < hi,
    ensures
        lo <= r < hi,
{
    rand::random_range(lo..hi)
}

} // verus!
