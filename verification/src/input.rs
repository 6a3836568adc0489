//! Inputs: a list of moves, alone or together with the state it leads to.

use vstd::prelude::*;
use sokoban::Direction;
use crate::grid::copy_moves;
use crate::puzzle::{Board, Puzzle};

verus! {

/// The letter that names a move.
pub open spec fn letter(dir: Direction) -> u8 {
    match dir {
        Direction::Up => 85u8,
        Direction::Down => 68u8,
        Direction::Left => 76u8,
        Direction::Right => 82u8,
    }
}

/// The letters of a list of moves.
pub open spec fn letters(moves: Seq<Direction>) -> Seq<u8> {
    Seq::new(moves.len(), |i: int| letter(moves[i]))
}

/// The text whose characters are the given ASCII bytes.
pub open spec fn ascii_text(bytes: Seq<u8>) -> Seq<char> {
    Seq::new(bytes.len(), |i: int| bytes[i] as char)
}

/// `String::from_utf8` on ASCII bytes: it succeeds, and the text has one
/// character for each byte, with the byte's code.
#[verifier::external_body]
fn ascii_string(bytes: Vec<u8>) -> (text: String)
    requires
        forall|i: int| 0 <= i < bytes@.len() ==> bytes@[i] < 128,
    ensures
        text@ == ascii_text(bytes@),
{
    String::from_utf8(bytes).unwrap()
}

/// An input of the solver: the player's moves in order.
#[derive(Debug, Hash)]
pub struct SokobanInput {
    moves: Vec<Direction>,
}

impl View for SokobanInput {
    type V = Seq<Direction>;

    closed spec fn view(&self) -> Seq<Direction> {
        self.moves@
    }
}

impl Clone for SokobanInput {
    fn clone(&self) -> (copy: SokobanInput)
        ensures
            copy@ == self@,
    {
        SokobanInput { moves: copy_moves(&self.moves) }
    }
}

impl SokobanInput {
    pub fn new(moves: Vec<Direction>) -> (input: SokobanInput)
        ensures
            input@ == moves@,
    {
        SokobanInput { moves }
    }

    pub fn moves(&self) -> (moves: &[Direction])
        ensures
            moves@ == self@,
    {
        self.moves.as_slice()
    }

    /// The moves as a list.
    pub fn move_list(&self) -> (moves: &Vec<Direction>)
        ensures
            moves@ == self@,
    {
        &self.moves
    }

    /// The letters `U`, `D`, `L`, `R` of the moves, in order.
    pub fn name_bytes(&self) -> (bytes: Vec<u8>)
        ensures
            bytes@ == letters(self@),
    {
        let mut bytes: Vec<u8> = Vec::new();
        let mut i: usize = 0;
        while i < self.moves.len()
            invariant
                0 <= i <= self.moves.len(),
                bytes@ == letters(self.moves@.take(i as int)),
            decreases self.moves.len() - i,
        {
            let byte = match self.moves[i] {
                Direction::Up => 85u8,
                Direction::Down => 68u8,
                Direction::Left => 76u8,
                Direction::Right => 82u8,
            };
            bytes.push(byte);
            assert(bytes@ =~= letters(self.moves@.take(i + 1)));
            i += 1;
        }
        assert(self.moves@.take(i as int) =~= self.moves@);
        bytes
    }

    /// The canonical name of the input: one letter for each move. The index
    /// plays no part in it.
    pub fn generate_name(&self, _idx: usize) -> (name: String)
        ensures
            name@ == ascii_text(letters(self@)),
    {
        let bytes = self.name_bytes();
        ascii_string(bytes)
    }

    /// Whether two inputs hold the same moves.
    pub fn same_moves(&self, other: &SokobanInput) -> (same: bool)
        ensures
            same == (self@ == other@),
    {
        if self.moves.len() != other.moves.len() {
            return false;
        }
        let mut i: usize = 0;
        while i < self.moves.len()
            invariant
                self.moves@.len() == other.moves@.len(),
                0 <= i <= self.moves.len(),
                forall|j: int| 0 <= j < i ==> self.moves@[j] == other.moves@[j],
            decreases self.moves.len() - i,
        {
            let same = match (self.moves[i], other.moves[i]) {
                (Direction::Up, Direction::Up) => true,
                (Direction::Down, Direction::Down) => true,
                (Direction::Left, Direction::Left) => true,
                (Direction::Right, Direction::Right) => true,
                _ => false,
            };
            if !same {
                return false;
            }
            i += 1;
        }
        assert(self.moves@ =~= other.moves@);
        true
    }
}

/// The model of an input under mutation: the moves and, when present, the
/// state that they lead to.
pub struct Hallucinated {
    pub hallucinated: Option<Board>,
    pub moves: Seq<Direction>,
}

/// An input under mutation: the moves together with the state that
/// replaying them on the initial puzzle gives.
pub struct HallucinatedSokobanInput {
    pub hallucinated: Option<Puzzle>,
    pub moves: Vec<Direction>,
}

impl View for HallucinatedSokobanInput {
    type V = Hallucinated;

    open spec fn view(&self) -> Hallucinated {
        Hallucinated {
            hallucinated: match self.hallucinated {
                Some(puzzle) => Some(puzzle@),
                None => None,
            },
            moves: self.moves@,
        }
    }
}

impl HallucinatedSokobanInput {
    pub fn moves(&self) -> (moves: &Vec<Direction>)
        ensures
            moves@ == self@.moves,
    {
        &self.moves
    }

    pub fn hallucinated_mut(&mut self) -> (slot: &mut Option<Puzzle>)
        ensures
            *slot == old(self).hallucinated,
            final(self).hallucinated == *final(slot),
            final(self).moves == old(self).moves,
    {
        &mut self.hallucinated
    }

    pub fn moves_mut(&mut self) -> (moves: &mut Vec<Direction>)
        ensures
            *moves == old(self).moves,
            final(self).moves == *final(moves),
            final(self).hallucinated == old(self).hallucinated,
    {
        &mut self.moves
    }

    /// A copy of the state that the moves lead to.
    pub fn state(&self) -> (state: Puzzle)
        requires
            self@.hallucinated.is_some(),
        ensures
            Some(state@) == self@.hallucinated,
    {
        let held = self.hallucinated.as_ref().unwrap();
        held.clone()
    }

    /// Wraps an input for mutation: replays its moves on the initial puzzle
    /// and keeps the state that they lead to. The moves must be legal.
    pub fn try_transform_from(base: &SokobanInput, initial: &Puzzle) -> (wrapped:
        HallucinatedSokobanInput)
        requires
            initial@.wf(),
            initial@.replay(base@).is_some(),
        ensures
            wrapped@.moves == base@,
            wrapped@.hallucinated == initial@.replay(base@),
            wrapped@.hallucinated.unwrap().wf(),
    {
        let hallucinated = initial.replay(&base.moves);
        HallucinatedSokobanInput { hallucinated, moves: copy_moves(&base.moves) }
    }

    /// Drops the state and keeps the moves.
    pub fn try_transform_into(self) -> (input: SokobanInput)
        ensures
            input@ == self@.moves,
    {
        SokobanInput::new(self.moves)
    }
}

} // verus!
