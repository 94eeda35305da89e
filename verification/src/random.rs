//! The source of randomness of the generators: a seeded `rand::rngs::StdRng`.
//!
//! Nothing is proved of the functions in this file. Each one makes a single call into the
//! `rand` crate, and its contract says what that call promises of every outcome.

use crate::grid::{Dir, Pos};
use rand::rngs::StdRng;
use rand::seq::SliceRandom;
use rand::{Rng, SeedableRng};
use vstd::prelude::*;

verus! {

/// `rand::rngs::StdRng`, the generator that the library draws from. Nothing is claimed of
/// its state.
#[verifier::external_type_specification]
#[verifier::external_body]
pub struct ExStdRng(rand::rngs::StdRng);

/// `SeedableRng::seed_from_u64` of `rand`, for `StdRng`: a generator whose state is
/// derived from the seed. Nothing is claimed of the state.
#[verifier::external_body]
pub(crate) fn seeded(seed: u64) -> StdRng {
    StdRng::seed_from_u64(seed)
}

/// `Rng::gen_range` of `rand` on the range `0..bound`. It panics on an empty range, which
/// the precondition rules out, and returns a member of the range otherwise.
#[verifier::external_body]
pub(crate) fn random_index(rng: &mut StdRng, bound: usize) -> (index: usize)
    requires
        bound > 0,
    ensures
        index < bound,
{
    rng.gen_range(0..bound)
}

/// `Rng::gen_ratio` of `rand` with the odds 1 in 2: a fair coin. Nothing is claimed of the
/// outcome.
#[verifier::external_body]
pub(crate) fn coin_flip(rng: &mut StdRng) -> bool {
    rng.gen_ratio(1, 2)
}

/// `SliceRandom::shuffle` of `rand`: it reorders the slice in place by swapping pairs of
/// its items, so the items after the call are those before it, each as often as before.
#[verifier::external_body]
pub(crate) fn shuffle(rng: &mut StdRng, items: &mut Vec<(Pos, Dir)>)
    ensures
        final(items)@.to_multiset() == old(items)@.to_multiset(),
{
    items.shuffle(rng)
}

} // verus!
