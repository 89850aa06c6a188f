//! The seeded random source of a run, and the draws the library makes from it.

use vstd::prelude::*;
use rand::rngs::StdRng;
use rand::Rng;
use rand::seq::SliceRandom;
use crate::color::ColorBase;

verus! {

/// rand's `StdRng`, carried through the library as an opaque value.
#[verifier::external_type_specification]
#[verifier::external_body]
pub struct ExStdRng(StdRng);

/// Relies on rand's `Rng::gen_range` over `0..n`: a value drawn uniformly from
/// `[0, n)`. It panics on an empty range, hence `n > 0`.
#[verifier::external_body]
pub(crate) fn draw_index(rng: &mut StdRng, n: usize) -> (r: usize)
    requires
        n > 0,
    ensures
        r < n,
{
    rng.gen_range(0..n)
}

/// Relies on rand's `SliceRandom::shuffle`: a Fisher-Yates shuffle made of
/// swaps, so the result is a permutation of the input.
#[verifier::external_body]
pub(crate) fn shuffle_bases(v: &mut Vec<ColorBase>, rng: &mut StdRng)
    ensures
        final(v)@.to_multiset() == old(v)@.to_multiset(),
        final(v)@.len() == old(v)@.len(),
{
    v.shuffle(rng)
}

} // verus!
