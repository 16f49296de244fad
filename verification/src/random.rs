//! The only source of chance in the crate: fair coin flips for the first
//! generation.

use rand::rngs::ThreadRng;
use rand::RngExt;
use vstd::prelude::*;

verus! {

/// `rand::rngs::ThreadRng`, the handle to rand's thread-local generator.
/// Nothing inside it is visible to proofs.
#[verifier::external_type_specification]
#[verifier::external_body]
pub struct ExThreadRng(ThreadRng);

/// `rand::rng`: a handle to the thread-local generator. Nothing is claimed of
/// the handle. rand seeds the generator from the operating system on first
/// use in a thread and panics if the system's random source fails.
#[verifier::external_body]
fn thread_generator() -> (generator: ThreadRng) {
    rand::rng()
}

/// `RngExt::random::<bool>` on the thread-local generator: one coin flip.
/// Nothing is claimed of the outcome. The generator reseeds itself from the
/// operating system after every 64 KiB of output and panics if the system's
/// random source fails then.
#[verifier::external_body]
fn flip(generator: &mut ThreadRng) -> (coin: bool) {
    generator.random()
}

/// `count` independent coin flips. Which booleans come back is left open;
/// how many is not.
///
/// The flips come from rand's thread-local generator, which seeds itself
/// from the operating system when a thread first uses it and again after
/// every 64 KiB of output. If the system's random source fails at either
/// moment, rand panics and the process ends; nothing in `count` can cause or
/// prevent that.
pub fn random_state(count: usize) -> (state: Vec<bool>)
    ensures
        state@.len() == count,
{
    let mut generator = thread_generator();
    let mut state: Vec<bool> = Vec::with_capacity(count);
    while state.len() < count
        invariant
            state@.len() <= count,
        decreases count - state@.len(),
    {
        let coin = flip(&mut generator);
        state.push(coin);
    }
    state
}

} // verus!
