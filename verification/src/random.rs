//! Where the generators get their random numbers from.

use vstd::prelude::*;

verus! {

/// A source of random numbers. Nothing is promised of the numbers it hands
/// out: the generators build a perfect maze whatever it returns.
pub trait RandomSource {
    /// The next number.
    fn next_value(&mut self) -> usize;
}

/// `rand::rngs::ThreadRng`, the handle to a thread's generator, as a type
/// of which nothing is known.
#[verifier::external_type_specification]
#[verifier::external_body]
pub struct ExThreadRng(rand::rngs::ThreadRng);

/// `rand::thread_rng`: a handle to the generator of the current thread.
/// Nothing is claimed of it.
#[verifier::external_body]
fn thread_rng_handle() -> (rng: rand::rngs::ThreadRng) {
    rand::thread_rng()
}

/// `rand::Rng::gen::<usize>` on the thread's generator: a number of which
/// nothing is claimed. The call panics if the operating system cannot seed
/// the generator; there is no maze without random numbers.
#[verifier::external_body]
fn thread_rng_draw(rng: &mut rand::rngs::ThreadRng) -> (n: usize) {
    rand::Rng::gen::<usize>(rng)
}

/// The random number generator of the current thread.
pub struct ThreadSource {
    rng: rand::rngs::ThreadRng,
}

impl ThreadSource {
    /// A source that draws from the generator of the current thread.
    pub fn new() -> (s: ThreadSource) {
        ThreadSource { rng: thread_rng_handle() }
    }
}

impl RandomSource for ThreadSource {
    fn next_value(&mut self) -> usize {
        thread_rng_draw(&mut self.rng)
    }
}

/// A source that hands out the same number every time.
pub struct FixedSource {
    pub value: usize,
}

impl FixedSource {
    /// A source that always hands out `value`.
    pub fn new(value: usize) -> (s: FixedSource)
        ensures
            s.value == value,
    {
        FixedSource { value }
    }
}

impl RandomSource for FixedSource {
    fn next_value(&mut self) -> (n: usize)
        ensures
            n == old(self).value,
            final(self).value == old(self).value,
    {
        self.value
    }
}

} // verus!
