//! Draws from `rand`'s standard generator. What a draw returns depends on the generator's
//! state, so each wrapper states only what holds of every outcome.

use vstd::prelude::*;
use rand::Rng;
use rand::rngs::StdRng;
use rand::seq::SliceRandom;

verus! {

/// The standard seeded generator of `rand`.
#[verifier::external_type_specification]
#[verifier::external_body]
pub struct ExStdRng(rand::rngs::StdRng);

/// `rand::Rng::random_range` over `lo..=hi` for `i32`: rand documents a value in the given
/// range (and a panic on an empty one, excluded here). Which value comes out is not stated.
#[verifier::external_body]
pub(crate) fn random_i32_inclusive(rng: &mut StdRng, lo: i32, hi: i32) -> (v: i32)
    requires
        lo <= hi,
    ensures
        lo <= v <= hi,
{
    rng.random_range(lo..=hi)
}

/// `rand::Rng::random_range` over `lo..=hi` for `u32`; as [`random_i32_inclusive`].
#[verifier::external_body]
pub(crate) fn random_u32_inclusive(rng: &mut StdRng, lo: u32, hi: u32) -> (v: u32)
    requires
        lo <= hi,
    ensures
        lo <= v <= hi,
{
    rng.random_range(lo..=hi)
}

/// `rand::Rng::random_range` over `0..n` for `usize`: a value below `n` (the range must not be
/// empty). Which value comes out is not stated.
#[verifier::external_body]
pub(crate) fn random_index_below(rng: &mut StdRng, n: usize) -> (v: usize)
    requires
        n > 0,
    ensures
        v < n,
{
    rng.random_range(0..n)
}

/// `rand::seq::SliceRandom::shuffle`: the slice ends up a permutation of what it held (rand
/// swaps entries in place). Which permutation is not stated.
#[verifier::external_body]
pub(crate) fn shuffle_ids(ids: &mut Vec<usize>, rng: &mut StdRng)
    ensures
        final(ids)@.len() == old(ids)@.len(),
        final(ids)@.to_multiset() == old(ids)@.to_multiset(),
{
    ids.as_mut_slice().shuffle(rng)
}

} // verus!
