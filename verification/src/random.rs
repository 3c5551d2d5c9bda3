use rand::Rng;
use rand::RngCore;
use vstd::prelude::*;

verus! {

// The three functions below draw from `rand::thread_rng()`, the generator
// that `rand` keeps per thread and seeds from the system.  What they state
// holds of every draw; which value is drawn is not stated anywhere.

/// Calls `RngCore::next_u32` on `rand::thread_rng()`.  Nothing is claimed of
/// the word that comes back: every 32-bit value is possible.
#[verifier::external_body]
pub(crate) fn random_priority() -> (priority: u32) {
    rand::thread_rng().next_u32()
}

/// Calls `Rng::gen_range` on `rand::thread_rng()` with the half-open range
/// `0..count`.  The call panics on an empty range, which the precondition
/// rules out; the value that comes back lies in the range.
#[verifier::external_body]
pub(crate) fn random_below(count: usize) -> (pick: usize)
    requires
        count > 0,
    ensures
        pick < count,
{
    rand::thread_rng().gen_range(0..count)
}

/// Calls `Rng::gen_ratio` on `rand::thread_rng()`, which answers `true` with
/// probability `numerator / denominator`.  The call panics on a zero
/// denominator and on a numerator above the denominator, which the
/// precondition rules out.  Nothing is claimed of the answer.
#[verifier::external_body]
pub(crate) fn random_chance(numerator: u32, denominator: u32) -> (hit: bool)
    requires
        denominator > 0,
        numerator <= denominator,
{
    rand::thread_rng().gen_ratio(numerator, denominator)
}

} // verus!
