//! Random draws, taken from the thread-local generator of `rand`.

use rand::rngs::ThreadRng;
use rand::Rng;
use vstd::prelude::*;

verus! {

#[verifier::external_type_specification]
#[verifier::external_body]
pub struct ExThreadRng(ThreadRng);

/// `rand::rng`: a handle on the generator of the current thread. Nothing is
/// stated of it.
#[verifier::external_body]
pub(crate) fn thread_rng() -> ThreadRng {
    rand::rng()
}

/// `Rng::random_range` over the inclusive range `low..=high`. rand panics on an
/// empty range, hence `low <= high`; on a non-empty range it returns one of its
/// values. Which one is left to chance.
#[verifier::external_body]
pub(crate) fn random_between(rng: &mut ThreadRng, low: u64, high: u64) -> (r: u64)
    requires
        low <= high,
    ensures
        low <= r <= high,
{
    rng.random_range(low..=high)
}

/// `Rng::random_ratio`: `true` with probability `numerator / denominator`.
/// rand panics when `denominator == 0` or `numerator > denominator`; its
/// documentation and source guarantee `false` for a zero numerator and `true`
/// when both are equal. Otherwise the result is left to chance.
#[verifier::external_body]
pub(crate) fn random_ratio(rng: &mut ThreadRng, numerator: u32, denominator: u32) -> (r: bool)
    requires
        0 < denominator,
        numerator <= denominator,
    ensures
        numerator == 0 ==> !r,
        numerator == denominator ==> r,
{
    rng.random_ratio(numerator, denominator)
}

} // verus!
