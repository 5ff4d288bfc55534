//! The random draws of the search, made by the `rand` crate.
use rand::rngs::ThreadRng;
use rand::seq::SliceRandom;
use rand::Rng;
use vstd::prelude::*;

verus! {

/// `rand`'s thread-local generator, carried through as an opaque value.
#[verifier::external_type_specification]
#[verifier::external_body]
pub struct ExThreadRng(rand::rngs::ThreadRng);

/// Calls `rand::rng()`: a handle on the thread-local generator.
/// Nothing is promised of the handle.
#[verifier::external_body]
pub(crate) fn thread_rng() -> ThreadRng {
    rand::rng()
}

/// Calls `Rng::random_range(0..n)`. rand asserts that the range is not empty
/// (so `n > 0` is required) and samples a value of the range: the result is
/// below `n`. Which value comes out is left open.
#[verifier::external_body]
pub(crate) fn random_below(rng: &mut ThreadRng, n: usize) -> (r: usize)
    requires
        n > 0,
    ensures
        r < n,
{
    rng.random_range(0..n)
}

/// Calls `SliceRandom::shuffle` on the vector's elements. rand permutes the
/// slice in place by swaps, so the result holds the same elements, each as
/// often as before. Which permutation comes out is left open.
#[verifier::external_body]
pub(crate) fn shuffle_in_place(rng: &mut ThreadRng, v: &mut Vec<usize>)
    ensures
        final(v)@.len() == old(v)@.len(),
        final(v)@.to_multiset() == old(v)@.to_multiset(),
{
    v.as_mut_slice().shuffle(rng)
}

} // verus!
