use vstd::prelude::*;

use rand::RngExt;
use rand::rngs::StdRng;

verus! {

/// The standard random number generator of `rand`, which the library draws its choices from.
#[verifier::external_type_specification]
#[verifier::external_body]
pub struct ExStdRng(StdRng);

/// Draws a number below `bound` with `rand::RngExt::random_range` on the range `0..bound`.
/// Which number comes out depends on the generator's state; the contract says only that it lies in
/// the range, as the documentation promises (the range is not empty, so the call does not panic).
#[verifier::external_body]
pub(crate) fn random_below(rng: &mut StdRng, bound: u64) -> (r: u64)
    requires
        bound > 0,
    ensures
        r < bound,
{
    rng.random_range(0..bound)
}

} // verus!
