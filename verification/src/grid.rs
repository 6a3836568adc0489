//! Tiles, directions and positions.

use vstd::prelude::*;
use std::collections::VecDeque;
use sokoban::{Direction, Tile};

verus! {

/// The tile kinds of the rules engine (`sokoban::Tile`), known to the verifier
/// by their variants.
#[verifier::external_type_specification]
pub struct ExTile(Tile);

/// The four unit moves of the rules engine (`sokoban::Direction`), known to the
/// verifier by their variants.
#[verifier::external_type_specification]
pub struct ExDirection(Direction);

/// A grid position as `(row, column)`.
pub type Position = (usize, usize);

/// The position one step away from `pos` in direction `dir`, if the
/// coordinate does not leave the machine range.
pub open spec fn step(dir: Direction, pos: Position) -> Option<Position> {
    match dir {
        Direction::Up => if pos.0 >= 1 { Some(((pos.0 - 1) as usize, pos.1)) } else { None },
        Direction::Down => if pos.0 < usize::MAX { Some(((pos.0 + 1) as usize, pos.1)) } else { None },
        Direction::Left => if pos.1 >= 1 { Some((pos.0, (pos.1 - 1) as usize)) } else { None },
        Direction::Right => if pos.1 < usize::MAX { Some((pos.0, (pos.1 + 1) as usize)) } else { None },
    }
}

/// `sokoban::Direction::go`: a checked step of one cell; `None` exactly where
/// the coordinate would leave the range of `usize`.
pub assume_specification[ Direction::go ](dir: &Direction, orig: (usize, usize)) -> (next: Option<(usize, usize)>)
    ensures
        next == step(*dir, orig),
;

/// The place of a direction in the order in which neighbours are tried: up,
/// down, left, right.
pub open spec fn rank(dir: Direction) -> nat {
    match dir {
        Direction::Up => 0,
        Direction::Down => 1,
        Direction::Left => 2,
        Direction::Right => 3,
    }
}

/// The direction that undoes `dir`.
pub open spec fn spec_opposite(dir: Direction) -> Direction {
    match dir {
        Direction::Up => Direction::Down,
        Direction::Down => Direction::Up,
        Direction::Left => Direction::Right,
        Direction::Right => Direction::Left,
    }
}

/// The four directions in the order in which neighbours are tried.
pub fn possible_moves() -> (moves: [Direction; 4])
    ensures
        moves@ == seq![Direction::Up, Direction::Down, Direction::Left, Direction::Right],
{
    let moves = [Direction::Up, Direction::Down, Direction::Left, Direction::Right];
    assert(moves@ =~= seq![Direction::Up, Direction::Down, Direction::Left, Direction::Right]);
    moves
}

/// The direction that undoes `dir`.
pub fn opposite(dir: Direction) -> (back: Direction)
    ensures
        back == spec_opposite(dir),
{
    match dir {
        Direction::Up => Direction::Down,
        Direction::Down => Direction::Up,
        Direction::Left => Direction::Right,
        Direction::Right => Direction::Left,
    }
}

/// A copy of a list of tiles.
pub fn copy_tiles(tiles: &Vec<Tile>) -> (copy: Vec<Tile>)
    ensures
        copy@ == tiles@,
{
    let mut copy: Vec<Tile> = Vec::new();
    let mut i: usize = 0;
    while i < tiles.len()
        invariant
            0 <= i <= tiles.len(),
            copy@ == tiles@.take(i as int),
        decreases tiles.len() - i,
    {
        copy.push(tiles[i]);
        assert(copy@ =~= tiles@.take(i + 1));
        i += 1;
    }
    assert(tiles@.take(i as int) =~= tiles@);
    copy
}

/// A copy of a list of positions.
pub fn copy_positions(positions: &Vec<Position>) -> (copy: Vec<Position>)
    ensures
        copy@ == positions@,
{
    let mut copy: Vec<Position> = Vec::new();
    let mut i: usize = 0;
    while i < positions.len()
        invariant
            0 <= i <= positions.len(),
            copy@ == positions@.take(i as int),
        decreases positions.len() - i,
    {
        copy.push(positions[i]);
        assert(copy@ =~= positions@.take(i + 1));
        i += 1;
    }
    assert(positions@.take(i as int) =~= positions@);
    copy
}

/// A copy of a list of moves.
pub fn copy_moves(moves: &Vec<Direction>) -> (copy: Vec<Direction>)
    ensures
        copy@ == moves@,
{
    let mut copy: Vec<Direction> = Vec::new();
    let mut i: usize = 0;
    while i < moves.len()
        invariant
            0 <= i <= moves.len(),
            copy@ == moves@.take(i as int),
        decreases moves.len() - i,
    {
        copy.push(moves[i]);
        assert(copy@ =~= moves@.take(i + 1));
        i += 1;
    }
    assert(moves@.take(i as int) =~= moves@);
    copy
}

/// The moves of a queue as a list.
pub fn list_moves(moves: &VecDeque<Direction>) -> (list: Vec<Direction>)
    ensures
        list@ == moves@,
{
    let mut list: Vec<Direction> = Vec::new();
    let mut i: usize = 0;
    while i < moves.len()
        invariant
            0 <= i <= moves@.len(),
            list@ == moves@.take(i as int),
        decreases moves@.len() - i,
    {
        list.push(moves[i]);
        assert(list@ =~= moves@.take(i + 1));
        i += 1;
    }
    assert(moves@.take(i as int) =~= moves@);
    list
}

/// Appends `more` to `moves`.
pub fn append_moves(moves: &mut Vec<Direction>, more: &Vec<Direction>)
    ensures
        final(moves)@ == old(moves)@ + more@,
{
    let ghost before = moves@;
    let mut i: usize = 0;
    while i < more.len()
        invariant
            0 <= i <= more.len(),
            moves@ == before + more@.take(i as int),
        decreases more.len() - i,
    {
        moves.push(more[i]);
        assert(moves@ =~= before + more@.take(i + 1));
        i += 1;
    }
    assert(more@.take(i as int) =~= more@);
}

/// Whether two positions are the same.
pub fn same_position(a: Position, b: Position) -> (same: bool)
    ensures
        same == (a == b),
{
    a.0 == b.0 && a.1 == b.1
}

} // verus!
