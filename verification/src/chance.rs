use vstd::prelude::*;
use rand::rngs::StdRng;
use rand::Rng;

verus! {

/// The random number generator of the `rand` crate that the strategies draw
/// from. Nothing is known of its state.
#[verifier::external_type_specification]
#[verifier::external_body]
pub struct ExStdRng(StdRng);

/// Calls `rand::Rng::random_range` on the half-open range `0..len`. The
/// documentation promises a value inside the range, and a panic on an empty
/// one, which the precondition leaves out. Which value comes is not stated.
#[verifier::external_body]
pub(crate) fn draw_index(rng: &mut StdRng, len: usize) -> (index: usize)
    requires
        len > 0,
    ensures
        index < len,
{
    rng.random_range(0..len)
}

/// Calls `rand::Rng::random_range` on the half-open range `0..bound` of
/// `i32`. The documentation promises a value inside the range, and a panic on
/// an empty one, which the precondition leaves out.
#[verifier::external_body]
pub(crate) fn draw_below(rng: &mut StdRng, bound: i32) -> (roll: i32)
    requires
        bound > 0,
    ensures
        0 <= roll < bound,
{
    rng.random_range(0..bound)
}

/// Calls `rand::Rng::random_range` on the closed range `0..=max` of `u8`,
/// which is never empty. The documentation promises a value inside the range.
#[verifier::external_body]
pub(crate) fn draw_up_to(rng: &mut StdRng, max: u8) -> (roll: u8)
    ensures
        roll <= max,
{
    rng.random_range(0..=max)
}

/// Calls `rand::Rng::random` for a `u8`: any byte may come.
#[verifier::external_body]
pub(crate) fn draw_byte(rng: &mut StdRng) -> u8 {
    rng.random::<u8>()
}

} // verus!
