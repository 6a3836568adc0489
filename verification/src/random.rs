//! The random source: draws and shuffles, of which only what holds of every
//! outcome is stated.

use vstd::prelude::*;
use libafl_bolts::rands::{Rand, RomuDuoJrRand};
use rand::seq::SliceRandom;
use crate::grid::Position;

verus! {

/// The random number generator of the fuzzer host
/// (`libafl_bolts::rands::RomuDuoJrRand`), carried through as it is.
#[verifier::external_type_specification]
#[verifier::external_body]
pub struct ExRomuDuoJrRand(RomuDuoJrRand);

/// `libafl_bolts::rands::Rand::below`: a draw below the bound; zero where the
/// bound is zero.
#[verifier::external_body]
pub(crate) fn draw_below(rand: &mut RomuDuoJrRand, bound: u64) -> (draw: u64)
    ensures
        bound > 0 ==> draw < bound,
        bound == 0 ==> draw == 0,
{
    rand.below(bound)
}

/// `rand::seq::SliceRandom::shuffle`: the list is permuted by swaps, so it
/// holds the same positions as before, each as often as before.
#[verifier::external_body]
pub(crate) fn shuffle_positions(positions: &mut Vec<Position>, rand: &mut RomuDuoJrRand)
    ensures
        final(positions)@.to_multiset() == old(positions)@.to_multiset(),
{
    positions.shuffle(rand);
}

} // verus!
