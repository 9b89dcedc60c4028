//! Random draws, from the thread-local generator of the `rand` crate.
//!
//! Nothing is known of a draw but its range: two draws with the same
//! arguments may differ.
use vstd::prelude::*;

verus! {

/// `rand::random_range` over `0..n`: some index below `n`. The range must not
/// be empty, or the generator panics.
#[verifier::external_body]
pub(crate) fn random_index(n: usize) -> (r: usize)
    requires
        n > 0,
    ensures
        r < n,
{
    rand::random_range(0..n)
}

/// `rand::random_ratio`: true with probability `numerator / denominator`.
/// It is always true when the two are equal and always false when the
/// numerator is zero. A zero denominator, or a numerator above it, panics.
pub assume_specification[ rand::random_ratio ](numerator: u32, denominator: u32) -> (r: bool)
    requires
        denominator > 0,
        numerator <= denominator,
    ensures
        numerator == denominator ==> r,
        numerator == 0 ==> !r,
;

} // verus!
