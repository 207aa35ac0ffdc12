//! The source of randomness: the thread-local generator of the `rand` crate.

use vstd::prelude::*;
use rand::Rng;
use rand::rngs::ThreadRng;

verus! {

/// `rand::rngs::ThreadRng`, the handle to a thread's generator, carried
/// through as an opaque value.
#[verifier::external_type_specification]
#[verifier::external_body]
pub struct ExThreadRng(ThreadRng);

/// Calls `rand::rng`, which hands out a handle to the generator of the
/// calling thread. Nothing is claimed of the handle. The call fails only
/// where the operating system cannot seed the generator.
#[verifier::external_body]
pub(crate) fn thread_rng() -> ThreadRng {
    rand::rng()
}

/// Calls `rand::Rng::random_range` with the range `0..bound`, which samples
/// an integer of that range. The range must not be empty. Of the sample only
/// its range is claimed: which number comes is left open.
#[verifier::external_body]
pub(crate) fn draw_below(rng: &mut ThreadRng, bound: u64) -> (r: u64)
    requires
        bound > 0,
    ensures
        r < bound,
{
    rng.random_range(0..bound)
}

} // verus!
