use vstd::prelude::*;
use rand::rngs::ThreadRng;
use rand::seq::SliceRandom;
use rand::Rng;

verus! {

/// The handle to the thread-local generator of the `rand` crate. Nothing is known of its state.
#[verifier::external_type_specification]
#[verifier::external_body]
pub struct ExThreadRng(ThreadRng);

/// `rand::thread_rng`: hands out the handle to the calling thread's generator. Nothing is
/// claimed of the handle.
pub assume_specification[ rand::thread_rng ]() -> ThreadRng;

/// `SliceRandom::shuffle` on the vector's slice: the outside function only swaps elements, so
/// the vector afterwards holds the same values, each as often as before, in some order.
#[verifier::external_body]
pub(crate) fn shuffle(values: &mut Vec<u8>, rng: &mut ThreadRng)
    ensures
        final(values)@.to_multiset() == old(values)@.to_multiset(),
{
    values.shuffle(rng);
}

/// `Rng::gen_range` on `0..bound`: some index below `bound`. The outside function panics on
/// an empty range, which `bound > 0` leaves out.
#[verifier::external_body]
pub(crate) fn pick_index(rng: &mut ThreadRng, bound: usize) -> (index: usize)
    requires
        bound > 0,
    ensures
        index < bound,
{
    rng.gen_range(0..bound)
}

} // verus!
