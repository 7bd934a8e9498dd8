//! Random choices, from the `rand` crate.
use vstd::prelude::*;
use rand::seq::SliceRandom;
use rand::Rng;

verus! {

/// Shuffles `v` in place with `rand`'s `SliceRandom::shuffle` on the thread-local generator.
/// Claimed: the result is a permutation of `v` (the shuffle only swaps elements). Which
/// permutation comes out depends on chance and is not stated; nor is the panic of
/// `thread_rng` when the operating system cannot seed it.
#[verifier::external_body]
pub(crate) fn shuffle<T>(v: &mut Vec<T>)
    ensures
        final(v)@.to_multiset() == old(v)@.to_multiset(),
{
    v.shuffle(&mut rand::thread_rng());
}

/// Returns a number drawn with `rand`'s `Rng::gen_range(0, n)` on the thread-local
/// generator. Claimed: it is below `n` (the range is half-open); `gen_range` panics when the
/// range is empty, so `n` must be positive. Which number comes out is not stated; nor is the
/// panic of `thread_rng` when the operating system cannot seed it.
#[verifier::external_body]
pub(crate) fn random_below(n: usize) -> (r: usize)
    requires
        0 < n,
    ensures
        r < n,
{
    rand::thread_rng().gen_range(0, n)
}

} // verus!
