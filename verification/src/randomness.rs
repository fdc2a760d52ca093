//! Random numbers from the `rand` crate. Nothing about the values drawn is
//! proved: the items here state only the ranges they fall in.

use rand::rngs::ThreadRng;
use rand::Rng;
use vstd::prelude::*;

verus! {

/// `rand::rngs::ThreadRng`, the handle to the thread-local generator.
#[verifier::external_type_specification]
#[verifier::external_body]
pub struct ExThreadRng(ThreadRng);

/// `rand::thread_rng` hands out the generator of the current thread;
/// nothing is known of its state.
pub assume_specification[ rand::thread_rng ]() -> ThreadRng;

/// Draws a number with `Rng::gen_range` on the half-open range
/// `low..high`. `gen_range` panics on an empty range, hence the `requires`;
/// its documentation promises a value inside the range.
#[verifier::external_body]
pub(crate) fn random_in_range(rng: &mut ThreadRng, low: usize, high: usize) -> (r: usize)
    requires
        low < high,
    ensures
        low <= r < high,
{
    rng.gen_range(low..high)
}

/// Draws any `usize` with `rand::random`; every value can come back.
#[verifier::external_body]
pub(crate) fn random_usize() -> usize {
    rand::random::<usize>()
}

} // verus!
