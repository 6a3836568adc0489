//! A stable hash of where the crates, and optionally the player, stand.

use vstd::prelude::*;
use vstd::bytes::{spec_u64_to_le_bytes, u64_to_le_bytes};
use vstd::std_specs::hash::DefaultHasherAdditionalSpecFns;
use std::collections::hash_map::DefaultHasher;
use std::hash::Hasher;
use crate::grid::Position;
use crate::puzzle::{find_crates, Board, Puzzle};

verus! {

/// The words that a list of positions feeds to the hasher: row, then column,
/// each as eight little-endian bytes.
pub open spec fn position_words(positions: Seq<Position>) -> Seq<Seq<u8>>
    decreases positions.len(),
{
    if positions.len() == 0 {
        Seq::empty()
    } else {
        position_words(positions.drop_last()).push(
            spec_u64_to_le_bytes(positions.last().0 as u64),
        ).push(spec_u64_to_le_bytes(positions.last().1 as u64))
    }
}

/// The words hashed for a board: the crate positions in row-major order,
/// then the player's position if it is to count.
pub open spec fn hashed_words(board: Board, include_player: bool) -> Seq<Seq<u8>> {
    if include_player {
        position_words(board.crates().push(board.player))
    } else {
        position_words(board.crates())
    }
}

fn feed(hasher: &mut DefaultHasher, pos: Position, Ghost(fed): Ghost<Seq<Position>>)
    requires
        old(hasher)@ == position_words(fed),
    ensures
        final(hasher)@ == position_words(fed.push(pos)),
{
    let row = u64_to_le_bytes(pos.0 as u64);
    hasher.write(row.as_slice());
    let col = u64_to_le_bytes(pos.1 as u64);
    hasher.write(col.as_slice());
    assert(fed.push(pos).drop_last() =~= fed);
}

/// The hash of a state: of the crate positions in row-major order and, if
/// `include_player` is set, of the player's position after them. Two states
/// with the same crates (and player) have the same hash.
pub fn hash_sokoban_state(state: &Puzzle, include_player: bool) -> (hash: u64)
    requires
        state@.shaped(),
    ensures
        hash == DefaultHasher::spec_finish(hashed_words(state@, include_player)),
{
    let crates = find_crates(state);
    let mut hasher = DefaultHasher::new();
    let mut i: usize = 0;
    while i < crates.len()
        invariant
            0 <= i <= crates.len(),
            hasher@ == position_words(crates@.take(i as int)),
        decreases crates.len() - i,
    {
        feed(&mut hasher, crates[i], Ghost(crates@.take(i as int)));
        assert(crates@.take(i as int).push(crates@[i as int]) =~= crates@.take(i + 1));
        i += 1;
    }
    assert(crates@.take(i as int) =~= crates@);
    if include_player {
        feed(&mut hasher, state.player(), Ghost(crates@));
    }
    hasher.finish()
}

} // verus!
