//! The random source. Nothing is promised of what it hands out: every
//! function of the library that draws from it is verified for every
//! value that may come back.

use rand::RngCore;
use vstd::prelude::*;

verus! {

/// The thread-local generator of the `rand` crate. Its state is hidden
/// from the verifier.
#[verifier::external_type_specification]
#[verifier::external_body]
pub struct ExThreadRng(rand::rngs::ThreadRng);

/// Hands out `rand::thread_rng()`, the handle to the generator of the
/// calling thread. Nothing is claimed of it.
#[verifier::external_body]
pub(crate) fn thread_rng() -> rand::rngs::ThreadRng {
    rand::thread_rng()
}

/// Draws the next 64 bits with `RngCore::next_u64`. Nothing is claimed of
/// the value drawn.
#[verifier::external_body]
pub(crate) fn next_u64(rng: &mut rand::rngs::ThreadRng) -> u64 {
    rng.next_u64()
}

/// Draws one boolean with `rand::random::<bool>()`. Nothing is claimed of
/// the value drawn.
#[verifier::external_body]
pub(crate) fn coin_flip() -> bool {
    rand::random()
}

} // verus!
