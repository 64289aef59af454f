use vstd::prelude::*;

use rand::Rng;

verus! {

/// Relies on rand's `rng().random_range(0..bound)`: a uniformly drawn value
/// in `0..bound` (it panics on an empty range, which `requires` rules out).
#[verifier::external_body]
pub(crate) fn random_below(bound: usize) -> (r: usize)
    requires
        bound > 0,
    ensures
        r < bound,
{
    rand::rng().random_range(0..bound)
}

} // verus!
