//! Random numbers drawn from the thread-local generator of `rand`.
use vstd::prelude::*;
use rand::Rng;

verus! {

/// rand's handle to the generator of the calling thread, carried through as
/// an opaque value.
#[verifier::external_type_specification]
#[verifier::external_body]
pub struct ExThreadRng(rand::rngs::ThreadRng);

/// Relies on rand::thread_rng: a handle to the generator of the calling thread.
#[verifier::external_body]
pub(crate) fn thread_rng() -> (r: rand::rngs::ThreadRng) {
    rand::thread_rng()
}

/// Relies on rand::Rng::gen_range: on a half-open range it returns a value at
/// least the start and below the end, and panics only on an empty range.
#[verifier::external_body]
pub(crate) fn gen_below(rng: &mut rand::rngs::ThreadRng, bound: u32) -> (r: u32)
    requires
        bound > 0,
    ensures
        r < bound,
{
    rng.gen_range(0..bound)
}

} // verus!
