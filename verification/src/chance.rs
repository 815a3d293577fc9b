//! The one source of randomness: the thread-local generator of the `rand`
//! crate. Nothing here is proved; each item says what it takes on trust.

use rand::rngs::ThreadRng;
use rand::Rng;
use vstd::prelude::*;

verus! {

/// `rand::rngs::ThreadRng`, a handle to the generator of the current thread.
/// Nothing is known of what it holds.
#[verifier::external_type_specification]
#[verifier::external_body]
pub struct ExThreadRng(ThreadRng);

/// `rand::thread_rng` hands out the handle. Nothing is claimed of the result.
/// The first call on a thread seeds the generator from the operating system
/// and panics if the system gives no entropy or takes no fork handler.
pub assume_specification[ rand::thread_rng ]() -> ThreadRng;

/// `Rng::gen::<usize>` on the thread's generator: some `usize`, of which
/// nothing is claimed. The generator seeds itself anew from the operating
/// system from time to time, and the call panics if the system then gives no
/// entropy; no argument can rule that out.
#[verifier::external_body]
pub(crate) fn draw(rng: &mut ThreadRng) -> usize {
    rng.gen()
}

/// `Rng::gen_range(0..bound)` on the thread's generator. The call panics on
/// an empty range, so `bound` must be positive; the result then lies below
/// `bound`, as the sampler for integers takes it from the half-open range.
/// Like every draw it panics if the generator seeds itself anew and the
/// operating system gives no entropy; no argument can rule that out.
#[verifier::external_body]
pub(crate) fn draw_below(rng: &mut ThreadRng, bound: usize) -> (drawn: usize)
    requires
        bound > 0,
    ensures
        drawn < bound,
{
    rng.gen_range(0..bound)
}

} // verus!
