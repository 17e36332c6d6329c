//! The random source. Everything the solver leaves to chance it draws here,
//! from a generator of the `rand` crate that the caller hands in, so that a
//! caller who seeds the generator decides every draw.
//!
//! Nothing in this file is proved: each function states what the `rand`
//! crate's own code shows of the call it makes.

use rand::rngs::StdRng;
use rand::seq::SliceRandom;
use rand::Rng;
use vstd::prelude::*;

verus! {

/// `rand::rngs::StdRng`, the generator that the solver draws from. Its state
/// is hidden: a draw may come out as any value the call in question allows.
#[verifier::external_type_specification]
#[verifier::external_body]
pub struct ExStdRng(rand::rngs::StdRng);

/// `Rng::gen_range` on the range `0..bound`: a number below `bound`. The call
/// panics on an empty range, so `bound` is positive.
#[verifier::external_body]
pub(crate) fn draw_below(rng: &mut StdRng, bound: u128) -> (r: u128)
    requires
        bound > 0,
    ensures
        r < bound,
{
    rng.gen_range(0..bound)
}

/// `Rng::gen_ratio`: `true` with probability `numerator / denominator`. It is
/// always `false` where the numerator is 0 and always `true` where the two are
/// equal. The call panics on a denominator of 0 and on a numerator above the
/// denominator.
#[verifier::external_body]
pub(crate) fn draw_chance(rng: &mut StdRng, numerator: u32, denominator: u32) -> (hit: bool)
    requires
        denominator > 0,
        numerator <= denominator,
    ensures
        numerator == 0 ==> !hit,
        numerator == denominator ==> hit,
{
    rng.gen_ratio(numerator, denominator)
}

/// `SliceRandom::shuffle`: reorders `route` in place by exchanging entries, so
/// that it holds afterwards what it held before.
#[verifier::external_body]
pub(crate) fn shuffle(route: &mut Vec<usize>, rng: &mut StdRng)
    ensures
        final(route)@.to_multiset() == old(route)@.to_multiset(),
{
    route.shuffle(rng)
}

} // verus!
