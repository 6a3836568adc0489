//! The mutation budget of a testcase and the mutators that spend it.

use vstd::prelude::*;
use sokoban::Direction;
use libafl_bolts::rands::RomuDuoJrRand;
use crate::grid::{
    append_moves, copy_positions, list_moves, opposite, spec_opposite, step, Position,
};
use crate::random::shuffle_positions;
use crate::input::{Hallucinated, HallucinatedSokobanInput};
use crate::puzzle::{find_crates, lemma_replay_concat, lemma_replay_push, Board};
use crate::push::{crate_moved, planned, push_to};
use crate::walk::{connected, go_to, least_walk, lemma_walk_replay};

verus! {

/// What a mutator did to its input.
#[derive(Clone, Copy, Debug, PartialEq, Eq, Structural)]
pub enum MutationResult {
    /// The input was extended.
    Mutated,
    /// The input is as it was.
    Skipped,
}

/// The model of a mutation budget: the crate pushes and the crate-to-target
/// plans that have not been tried.
pub struct Budget {
    pub moves: Seq<(Position, Direction)>,
    pub targets: Seq<(Position, Position)>,
}

/// Every crate paired with every direction: crate by crate, the directions
/// in the order up, down, left, right.
pub open spec fn move_pairs(crates: Seq<Position>) -> Seq<(Position, Direction)>
    decreases crates.len(),
{
    if crates.len() == 0 {
        Seq::empty()
    } else {
        move_pairs(crates.drop_last()) + seq![
            (crates.last(), Direction::Up),
            (crates.last(), Direction::Down),
            (crates.last(), Direction::Left),
            (crates.last(), Direction::Right),
        ]
    }
}

/// Every crate paired with every target: crate by crate, the targets in
/// their order.
pub open spec fn target_pairs(crates: Seq<Position>, targets: Seq<Position>) -> Seq<
    (Position, Position),
>
    decreases crates.len(),
{
    if crates.len() == 0 {
        Seq::empty()
    } else {
        target_pairs(crates.drop_last(), targets) + Seq::new(
            targets.len(),
            |j: int| (crates.last(), targets[j]),
        )
    }
}

/// A fresh budget holds four pushes for each crate, and one plan for each
/// crate and target.
pub proof fn law_budget_sizes(crates: Seq<Position>, targets: Seq<Position>)
    ensures
        move_pairs(crates).len() == 4 * crates.len(),
        target_pairs(crates, targets).len() == crates.len() * targets.len(),
    decreases crates.len(),
{
    if crates.len() > 0 {
        law_budget_sizes(crates.drop_last(), targets);
        let n = crates.len() as int;
        let t = targets.len() as int;
        assert((n - 1) * t + t == n * t) by (nonlinear_arith);
    } else {
        assert(0 * targets.len() == 0) by (nonlinear_arith);
    }
}

/// The mutation budget of a testcase.
#[derive(Debug)]
pub struct SokobanRemainingMutationsMetadata {
    moves_remaining: Vec<(Position, Direction)>,
    move_to_targets_remaining: Vec<(Position, Position)>,
}

impl View for SokobanRemainingMutationsMetadata {
    type V = Budget;

    closed spec fn view(&self) -> Budget {
        Budget { moves: self.moves_remaining@, targets: self.move_to_targets_remaining@ }
    }
}

impl SokobanRemainingMutationsMetadata {
    /// The number of entries fits the machine.
    pub open spec fn wf(&self) -> bool {
        self@.moves.len() + self@.targets.len() <= usize::MAX
    }

    /// The budget of a fresh testcase with the given crates and targets.
    pub fn new(crates: &[Position], targets: &[Position]) -> (budget: Self)
        requires
            4 * crates@.len() + crates@.len() * targets@.len() <= usize::MAX,
        ensures
            budget@.moves == move_pairs(crates@),
            budget@.targets == target_pairs(crates@, targets@),
            budget@.moves.len() == 4 * crates@.len(),
            budget@.targets.len() == crates@.len() * targets@.len(),
            budget.wf(),
    {
        let mut moves_remaining: Vec<(Position, Direction)> = Vec::new();
        let mut move_to_targets_remaining: Vec<(Position, Position)> = Vec::new();
        let mut a: usize = 0;
        while a < crates.len()
            invariant
                0 <= a <= crates@.len(),
                moves_remaining@ == move_pairs(crates@.take(a as int)),
                move_to_targets_remaining@ == target_pairs(crates@.take(a as int), targets@),
            decreases crates@.len() - a,
        {
            let moved = crates[a];
            let ghost before = move_to_targets_remaining@;
            proof {
                assert(crates@.take(a + 1).drop_last() =~= crates@.take(a as int));
                assert(crates@.take(a + 1).last() == moved);
            }
            moves_remaining.push((moved, Direction::Up));
            moves_remaining.push((moved, Direction::Down));
            moves_remaining.push((moved, Direction::Left));
            moves_remaining.push((moved, Direction::Right));
            assert(moves_remaining@ =~= move_pairs(crates@.take(a + 1)));
            let mut b: usize = 0;
            while b < targets.len()
                invariant
                    0 <= b <= targets@.len(),
                    move_to_targets_remaining@ == before + Seq::new(
                        b as nat,
                        |j: int| (moved, targets@[j]),
                    ),
                decreases targets@.len() - b,
            {
                move_to_targets_remaining.push((moved, targets[b]));
                assert(move_to_targets_remaining@ =~= before + Seq::new(
                    (b + 1) as nat,
                    |j: int| (moved, targets@[j]),
                ));
                b += 1;
            }
            assert(move_to_targets_remaining@ =~= target_pairs(crates@.take(a + 1), targets@));
            a += 1;
        }
        proof {
            assert(crates@.take(a as int) =~= crates@);
            law_budget_sizes(crates@, targets@);
        }
        SokobanRemainingMutationsMetadata { moves_remaining, move_to_targets_remaining }
    }

    /// A budget of the given entries.
    pub fn from_parts(
        moves_remaining: Vec<(Position, Direction)>,
        move_to_targets_remaining: Vec<(Position, Position)>,
    ) -> (budget: Self)
        requires
            moves_remaining@.len() + move_to_targets_remaining@.len() <= usize::MAX,
        ensures
            budget@.moves == moves_remaining@,
            budget@.targets == move_to_targets_remaining@,
            budget.wf(),
    {
        SokobanRemainingMutationsMetadata { moves_remaining, move_to_targets_remaining }
    }

    /// The crate pushes that have not been tried.
    pub fn moves_remaining(&self) -> (pairs: &Vec<(Position, Direction)>)
        ensures
            pairs@ == self@.moves,
    {
        &self.moves_remaining
    }

    /// The crate-to-target plans that have not been tried.
    pub fn move_to_targets_remaining(&self) -> (pairs: &Vec<(Position, Position)>)
        ensures
            pairs@ == self@.targets,
    {
        &self.move_to_targets_remaining
    }

    /// The number of entries left.
    pub fn remaining(&self) -> (left: usize)
        requires
            self.wf(),
        ensures
            left == self@.moves.len() + self@.targets.len(),
    {
        self.moves_remaining.len() + self.move_to_targets_remaining.len()
    }
}

/// `after` is `before` with legal moves appended, and holds the state that
/// they lead to.
pub open spec fn extends_legally(before: Hallucinated, after: Hallucinated) -> bool {
    &&& before.hallucinated.is_some()
    &&& after.moves.len() >= before.moves.len()
    &&& after.moves.take(before.moves.len() as int) == before.moves
    &&& after.hallucinated.is_some()
    &&& before.hallucinated.unwrap().replay(after.moves.skip(before.moves.len() as int))
        == after.hallucinated
    &&& after.hallucinated.unwrap().wf()
}

/// A mutation keeps the hallucination true: where the state was the replay
/// of the moves before, it is the replay of the moves after.
pub proof fn law_hallucination_kept(initial: Board, before: Hallucinated, after: Hallucinated)
    requires
        initial.replay(before.moves) == before.hallucinated,
        extends_legally(before, after),
    ensures
        initial.replay(after.moves) == after.hallucinated,
{
    let n = before.moves.len() as int;
    lemma_replay_concat(initial, before.moves, after.moves.skip(n));
    assert(after.moves.take(n) + after.moves.skip(n) =~= after.moves);
}

/// The push point of a crate push: the tile behind the crate.
pub open spec fn push_point(pair: (Position, Direction)) -> Option<Position> {
    step(spec_opposite(pair.1), pair.0)
}

/// The push of a crate can be made on `board`: the tile ahead is floor, the
/// player can walk to the push point, and the move from there is legal.
pub open spec fn shovable(board: Board, pair: (Position, Direction)) -> bool {
    match (step(pair.1, pair.0), push_point(pair)) {
        (Some(ahead), Some(point)) => board.floor_at(ahead) && connected(
            board,
            board.player,
            point,
        ) && board.with_player(point).moved(pair.1).is_some(),
        _ => false,
    }
}

/// The board after the push was made.
pub open spec fn shoved(board: Board, pair: (Position, Direction)) -> Board {
    board.with_player(push_point(pair).unwrap()).moved(pair.1).unwrap()
}

/// The moves that make the push: the least walk to the push point, then the
/// push.
pub open spec fn shove_moves(board: Board, pair: (Position, Direction)) -> Seq<Direction> {
    least_walk(board, board.player, push_point(pair).unwrap()).push(pair.1)
}

/// What `MoveCrateMutator` does on an input below the size limit: `pairs` is
/// the budget before, `left` the number of entries after. The entries are
/// taken from the end; the first push among them that can be made is made if
/// its moves fit the size limit, and ends the call if they do not.
pub open spec fn move_crate_outcome(
    before: Hallucinated,
    pairs: Seq<(Position, Direction)>,
    max_size: int,
    after: Hallucinated,
    left: int,
    result: MutationResult,
) -> bool {
    let board = before.hallucinated.unwrap();
    &&& 0 <= left <= pairs.len()
    &&& forall|j: int| left < j < pairs.len() ==> !shovable(board, #[trigger] pairs[j])
    &&& match result {
        MutationResult::Mutated => {
            &&& left < pairs.len()
            &&& shovable(board, pairs[left])
            &&& after.moves == before.moves + shove_moves(board, pairs[left])
            &&& after.moves.len() <= max_size
            &&& after.hallucinated == Some(shoved(board, pairs[left]))
            &&& extends_legally(before, after)
        },
        MutationResult::Skipped => {
            &&& after == before
            &&& left > 0 ==> left < pairs.len() && shovable(board, pairs[left])
            &&& left < pairs.len() && shovable(board, pairs[left]) ==> before.moves.len()
                + shove_moves(board, pairs[left]).len() > max_size
        },
    }
}

/// What one call of `MoveCrateMutator` does to the input and the budget.
pub open spec fn move_crate_step(
    before: Hallucinated,
    budget: Budget,
    max_size: int,
    after: Hallucinated,
    left: Budget,
    result: MutationResult,
) -> bool {
    &&& left.targets == budget.targets
    &&& left.moves.len() <= budget.moves.len()
    &&& left.moves == budget.moves.take(left.moves.len() as int)
    &&& max_size <= before.moves.len() ==> result == MutationResult::Skipped && left.moves.len()
        == 0 && after == before
    &&& before.moves.len() < max_size ==> move_crate_outcome(
        before,
        budget.moves,
        max_size,
        after,
        left.moves.len() as int,
        result,
    )
}

/// Pushes one crate by one step.
pub struct MoveCrateMutator;

impl MoveCrateMutator {
    pub fn name(&self) -> (name: &'static str)
        ensures
            name@ == "move_crate"@,
    {
        "move_crate"
    }

    /// Takes pushes from the end of the budget until one can be made, and
    /// makes it: the walk to the push point and the push are appended, and
    /// the state follows. A push that would pass the size limit is dropped
    /// and ends the call. On an input at the size limit the pushes left are
    /// dropped.
    pub fn mutate(
        &mut self,
        budget: &mut SokobanRemainingMutationsMetadata,
        max_size: usize,
        input: &mut HallucinatedSokobanInput,
    ) -> (result: MutationResult)
        requires
            old(input)@.moves.len() < max_size ==> old(input)@.hallucinated.is_some()
                && old(input)@.hallucinated.unwrap().wf(),
        ensures
            move_crate_step(
                old(input)@,
                old(budget)@,
                max_size as int,
                final(input)@,
                final(budget)@,
                result,
            ),
    {
        let ghost pairs = budget@.moves;
        let ghost before = input@;
        if max_size <= input.moves.len() {
            budget.moves_remaining.clear();
            assert(budget@.moves =~= pairs.take(0));
            return MutationResult::Skipped;
        }
        let current = input.state();
        let ghost board = current@;
        assert(pairs.take(pairs.len() as int) =~= pairs);
        while budget.moves_remaining.len() > 0
            invariant
                board == current@,
                board.wf(),
                before.hallucinated == Some(board),
                input@ == before,
                before.moves.len() < max_size,
                budget@.targets == old(budget)@.targets,
                pairs == old(budget)@.moves,
                before == old(input)@,
                budget@.moves.len() <= pairs.len(),
                budget@.moves == pairs.take(budget@.moves.len() as int),
                forall|j: int|
                    budget@.moves.len() <= j < pairs.len() ==> !shovable(board, #[trigger] pairs[j]),
            decreases budget@.moves.len(),
        {
            let ghost left = budget@.moves.len() - 1;
            let (target, direction) = budget.moves_remaining.pop().unwrap();
            proof {
                assert(budget@.moves =~= pairs.take(left));
                assert((target, direction) == pairs[left]);
            }
            let ahead = direction.go(target);
            let point = opposite(direction).go(target);
            if ahead.is_some() && point.is_some() && current.is_floor(ahead.unwrap()) {
                let destination = point.unwrap();
                match go_to(current.player(), destination, &current) {
                    Some(path) => {
                        let walked = list_moves(&path);
                        proof {
                            lemma_walk_replay(board, board, walked@, destination);
                        }
                        let standing = current.replay(&walked).unwrap();
                        match standing.move_player(direction) {
                            Ok(next) => {
                                if walked.len() >= max_size - input.moves.len() {
                                    return MutationResult::Skipped;
                                }
                                append_moves(&mut input.moves, &walked);
                                input.moves.push(direction);
                                input.hallucinated = Some(next);
                                proof {
                                    let n = before.moves.len() as int;
                                    let after = input@;
                                    assert(after.moves =~= before.moves + walked@.push(direction));
                                    assert(after.moves.take(n) =~= before.moves);
                                    assert(after.moves.skip(n) =~= walked@.push(direction));
                                    lemma_replay_push(board, walked@, direction);
                                }
                                return MutationResult::Mutated;
                            },
                            Err(_) => {},
                        }
                    },
                    None => {},
                }
            }
        }
        MutationResult::Skipped
    }
}

/// With the last entry of the budget a push that can be made, a successful
/// call of `MoveCrateMutator` takes exactly that entry from the budget.
pub proof fn law_move_crate_takes_one(
    before: Hallucinated,
    pairs: Seq<(Position, Direction)>,
    max_size: int,
    after: Hallucinated,
    left: int,
)
    requires
        pairs.len() > 0,
        shovable(before.hallucinated.unwrap(), pairs.last()),
        move_crate_outcome(before, pairs, max_size, after, left, MutationResult::Mutated),
    ensures
        left == pairs.len() - 1,
{
    if left < pairs.len() - 1 {
        assert(!shovable(before.hallucinated.unwrap(), pairs[pairs.len() - 1]));
    }
}

/// What `MoveCrateToTargetMutator` does on an input below the size limit:
/// `pairs` is the budget before, `left` the number of entries after. The
/// entries are taken from the end; the first among them for which the push
/// search finds a plan is played if its moves fit the size limit, and ends
/// the call if they do not.
pub open spec fn move_to_target_outcome(
    before: Hallucinated,
    pairs: Seq<(Position, Position)>,
    max_size: int,
    after: Hallucinated,
    left: int,
    result: MutationResult,
) -> bool {
    let board = before.hallucinated.unwrap();
    &&& 0 <= left <= pairs.len()
    &&& forall|j: int|
        left < j < pairs.len() ==> planned(board, (#[trigger] pairs[j]).0, pairs[j].1).is_none()
    &&& match result {
        MutationResult::Mutated => {
            &&& left < pairs.len()
            &&& planned(board, pairs[left].0, pairs[left].1).is_some()
            &&& after.moves == before.moves + planned(board, pairs[left].0, pairs[left].1).unwrap()
            &&& after.moves.len() <= max_size
            &&& after.hallucinated == board.replay(
                planned(board, pairs[left].0, pairs[left].1).unwrap(),
            )
            &&& extends_legally(before, after)
            &&& pairs[left].0 != pairs[left].1 ==> crate_moved(
                board,
                pairs[left].0,
                pairs[left].1,
                after.hallucinated.unwrap(),
            )
        },
        MutationResult::Skipped => {
            &&& after == before
            &&& left > 0 ==> left < pairs.len() && planned(
                board,
                pairs[left].0,
                pairs[left].1,
            ).is_some()
            &&& left < pairs.len() && planned(board, pairs[left].0, pairs[left].1).is_some()
                ==> before.moves.len() + planned(board, pairs[left].0, pairs[left].1).unwrap().len()
                > max_size
        },
    }
}

/// With the last entry of the budget one for which the push search finds a
/// plan, a successful call of `MoveCrateToTargetMutator` takes exactly that
/// entry from the budget.
pub proof fn law_move_to_target_takes_one(
    before: Hallucinated,
    pairs: Seq<(Position, Position)>,
    max_size: int,
    after: Hallucinated,
    left: int,
)
    requires
        pairs.len() > 0,
        planned(before.hallucinated.unwrap(), pairs.last().0, pairs.last().1).is_some(),
        move_to_target_outcome(before, pairs, max_size, after, left, MutationResult::Mutated),
    ensures
        left == pairs.len() - 1,
{
    if left < pairs.len() - 1 {
        let last = pairs[pairs.len() - 1];
        assert(planned(before.hallucinated.unwrap(), last.0, last.1).is_none());
    }
}

/// What one call of `MoveCrateToTargetMutator` does to the input and the
/// budget.
pub open spec fn move_to_target_step(
    before: Hallucinated,
    budget: Budget,
    max_size: int,
    after: Hallucinated,
    left: Budget,
    result: MutationResult,
) -> bool {
    &&& left.moves == budget.moves
    &&& left.targets.len() <= budget.targets.len()
    &&& left.targets == budget.targets.take(left.targets.len() as int)
    &&& max_size <= before.moves.len() ==> result == MutationResult::Skipped
        && left.targets.len() == 0 && after == before
    &&& before.moves.len() < max_size ==> move_to_target_outcome(
        before,
        budget.targets,
        max_size,
        after,
        left.targets.len() as int,
        result,
    )
}

/// Pushes one crate all the way to one target.
pub struct MoveCrateToTargetMutator;

impl MoveCrateToTargetMutator {
    pub fn name(&self) -> (name: &'static str)
        ensures
            name@ == "move_crate_to_target"@,
    {
        "move_crate_to_target"
    }

    /// Takes crate-to-target plans from the end of the budget until the push
    /// search finds one, and plays it: the moves are appended and the state
    /// follows. A plan that would pass the size limit is dropped and ends
    /// the call. On an input at the size limit the plans left are dropped.
    pub fn mutate(
        &mut self,
        budget: &mut SokobanRemainingMutationsMetadata,
        max_size: usize,
        input: &mut HallucinatedSokobanInput,
    ) -> (result: MutationResult)
        requires
            old(input)@.moves.len() < max_size ==> old(input)@.hallucinated.is_some()
                && old(input)@.hallucinated.unwrap().wf(),
        ensures
            move_to_target_step(
                old(input)@,
                old(budget)@,
                max_size as int,
                final(input)@,
                final(budget)@,
                result,
            ),
    {
        let ghost pairs = budget@.targets;
        let ghost before = input@;
        if max_size <= input.moves.len() {
            budget.move_to_targets_remaining.clear();
            assert(budget@.targets =~= pairs.take(0));
            return MutationResult::Skipped;
        }
        let current = input.state();
        let ghost board = current@;
        assert(pairs.take(pairs.len() as int) =~= pairs);
        while budget.move_to_targets_remaining.len() > 0
            invariant
                board == current@,
                board.wf(),
                before.hallucinated == Some(board),
                input@ == before,
                before.moves.len() < max_size,
                budget@.moves == old(budget)@.moves,
                pairs == old(budget)@.targets,
                before == old(input)@,
                budget@.targets.len() <= pairs.len(),
                budget@.targets == pairs.take(budget@.targets.len() as int),
                forall|j: int|
                    budget@.targets.len() <= j < pairs.len() ==> planned(
                        board,
                        (#[trigger] pairs[j]).0,
                        pairs[j].1,
                    ).is_none(),
            decreases budget@.targets.len(),
        {
            let ghost left = budget@.targets.len() - 1;
            let (moved, target) = budget.move_to_targets_remaining.pop().unwrap();
            proof {
                assert(budget@.targets =~= pairs.take(left));
                assert((moved, target) == pairs[left]);
            }
            match push_to(moved, target, &current) {
                Some(moves) => {
                    if moves.len() > max_size - input.moves.len() {
                        return MutationResult::Skipped;
                    }
                    let next = current.replay(&moves).unwrap();
                    append_moves(&mut input.moves, &moves);
                    input.hallucinated = Some(next);
                    proof {
                        let n = before.moves.len() as int;
                        let after = input@;
                        assert(after.moves.take(n) =~= before.moves);
                        assert(after.moves.skip(n) =~= moves@);
                        if moved == target {
                            assert(after.moves =~= before.moves);
                        }
                    }
                    return MutationResult::Mutated;
                },
                None => {},
            }
        }
        MutationResult::Skipped
    }
}

/// What every mutation of `OneShotMutator` keeps to.
pub open spec fn one_shot_outcome(
    before: Hallucinated,
    max_size: int,
    after: Hallucinated,
    result: MutationResult,
) -> bool {
    match result {
        MutationResult::Mutated => {
            &&& extends_legally(before, after)
            &&& before.moves.len() < max_size
            &&& after.moves.len() <= max_size
            &&& !before.hallucinated.unwrap().solved()
        },
        MutationResult::Skipped => after == before,
    }
}

/// The moves of the one-shot pairing from pair `i` on, with `room` moves
/// left to the size limit: the plan that brings `crates[i]` to `targets[i]`,
/// then the same for the next pair on the board that the plan leaves; it
/// ends where no plan is found, where a plan does not fit, where the puzzle
/// is solved and where the shorter list ends.
pub open spec fn paired(
    board: Board,
    room: int,
    targets: Seq<Position>,
    crates: Seq<Position>,
    i: int,
) -> Seq<Direction>
    decreases targets.len() - i,
{
    if i < 0 || i >= targets.len() || i >= crates.len() {
        Seq::empty()
    } else {
        match planned(board, crates[i], targets[i]) {
            Some(moves) => if moves.len() > room {
                Seq::empty()
            } else if board.replay(moves).unwrap().solved() {
                moves
            } else {
                moves + paired(
                    board.replay(moves).unwrap(),
                    room - moves.len(),
                    targets,
                    crates,
                    i + 1,
                )
            },
            None => Seq::empty(),
        }
    }
}

/// The first pair has a plan that fits into `room` moves.
pub open spec fn first_pair_planned(
    board: Board,
    room: int,
    targets: Seq<Position>,
    crates: Seq<Position>,
) -> bool {
    targets.len() > 0 && crates.len() > 0 && planned(board, crates[0], targets[0]).is_some()
        && planned(board, crates[0], targets[0]).unwrap().len() <= room
}

/// What the one-shot pairing does with the given order of targets and
/// crates: an input at the size limit or with a solved state stays as it
/// is; else the moves of the pairing are appended, and the input counts as
/// mutated where the first pair had a plan that fits.
pub open spec fn pairing_outcome(
    before: Hallucinated,
    max_size: int,
    targets: Seq<Position>,
    crates: Seq<Position>,
    after: Hallucinated,
    result: MutationResult,
) -> bool {
    if max_size <= before.moves.len() || before.hallucinated.unwrap().solved() {
        result == MutationResult::Skipped && after == before
    } else {
        let board = before.hallucinated.unwrap();
        let room = max_size - before.moves.len();
        &&& after.moves == before.moves + paired(board, room, targets, crates, 0)
        &&& result == MutationResult::Mutated <==> first_pair_planned(board, room, targets, crates)
        &&& result == MutationResult::Mutated ==> after.hallucinated == board.replay(
            paired(board, room, targets, crates, 0),
        )
        &&& result == MutationResult::Skipped ==> after == before
    }
}

/// Tries to push every crate onto some target in one go.
pub struct OneShotMutator;

impl OneShotMutator {
    pub fn name(&self) -> (name: &'static str)
        ensures
            name@ == "move_many_crates_to_targets"@,
    {
        "move_many_crates_to_targets"
    }

    /// Shuffles the targets and the crates, pairs them in order and pushes
    /// each crate to its target until a push fails, the size limit is met or
    /// the puzzle is solved. An input at the size limit, or one that is
    /// solved already, is left as it is.
    pub fn mutate(
        &mut self,
        rand: &mut RomuDuoJrRand,
        max_size: usize,
        input: &mut HallucinatedSokobanInput,
    ) -> (result: MutationResult)
        requires
            old(input)@.moves.len() < max_size ==> old(input)@.hallucinated.is_some()
                && old(input)@.hallucinated.unwrap().wf(),
        ensures
            one_shot_outcome(old(input)@, max_size as int, final(input)@, result),
            exists|targets: Seq<Position>, crates: Seq<Position>|
                targets.to_multiset() == old(input)@.hallucinated.unwrap().targets.to_multiset()
                    && crates.to_multiset() == old(
                    input,
                )@.hallucinated.unwrap().crates().to_multiset() && #[trigger] pairing_outcome(
                    old(input)@,
                    max_size as int,
                    targets,
                    crates,
                    final(input)@,
                    result,
                ),
    {
        let ghost before = input@;
        if max_size <= input.moves.len() {
            assert(pairing_outcome(
                before,
                max_size as int,
                before.hallucinated.unwrap().targets,
                before.hallucinated.unwrap().crates(),
                input@,
                MutationResult::Skipped,
            ));
            return MutationResult::Skipped;
        }
        let current = input.state();
        if current.in_solution_state() {
            assert(pairing_outcome(
                before,
                max_size as int,
                before.hallucinated.unwrap().targets,
                before.hallucinated.unwrap().crates(),
                input@,
                MutationResult::Skipped,
            ));
            return MutationResult::Skipped;
        }
        let mut targets = copy_positions(current.targets());
        shuffle_positions(&mut targets, rand);
        let mut crates = find_crates(&current);
        shuffle_positions(&mut crates, rand);
        let result = OneShotMutator::pair_up(max_size, input, &targets, &crates);
        assert(pairing_outcome(before, max_size as int, targets@, crates@, input@, result));
        result
    }

    /// Pushes `crates[0]` to `targets[0]`, then `crates[1]` to `targets[1]`
    /// and so on, each on the state that the pushes before it left, until a
    /// push fails, the size limit is met or the puzzle is solved.
    pub fn pair_up(
        max_size: usize,
        input: &mut HallucinatedSokobanInput,
        targets: &Vec<Position>,
        crates: &Vec<Position>,
    ) -> (result: MutationResult)
        requires
            old(input)@.moves.len() < max_size ==> old(input)@.hallucinated.is_some()
                && old(input)@.hallucinated.unwrap().wf(),
        ensures
            one_shot_outcome(old(input)@, max_size as int, final(input)@, result),
            pairing_outcome(
                old(input)@,
                max_size as int,
                targets@,
                crates@,
                final(input)@,
                result,
            ),
    {
        let ghost before = input@;
        if max_size <= input.moves.len() {
            return MutationResult::Skipped;
        }
        let mut current = input.state();
        if current.in_solution_state() {
            return MutationResult::Skipped;
        }
        let ghost board = current@;
        let ghost n = before.moves.len() as int;
        let ghost total = paired(board, max_size - n, targets@, crates@, 0);
        let mut going = true;
        let mut i: usize = 0;
        assert(input@.moves.skip(n) + total =~= total);
        while going && i < targets.len() && i < crates.len()
            invariant
                before == old(input)@,
                before.hallucinated == Some(board),
                !board.solved(),
                n == before.moves.len(),
                n < max_size,
                total == paired(board, max_size - n, targets@, crates@, 0),
                input@.hallucinated == before.hallucinated,
                n <= input@.moves.len() <= max_size,
                input@.moves.take(n) == before.moves,
                board.replay(input@.moves.skip(n)) == Some(current@),
                current@.wf(),
                i == 0 ==> input@ == before && current@ == board,
                i > 0 ==> first_pair_planned(board, max_size - n, targets@, crates@),
                i == 0 && !going ==> !first_pair_planned(board, max_size - n, targets@, crates@),
                total == input@.moves.skip(n) + if going {
                    paired(current@, max_size - input@.moves.len(), targets@, crates@, i as int)
                } else {
                    Seq::<Direction>::empty()
                },
            decreases targets.len() - i, (if going { 1nat } else { 0nat }),
        {
            let ghost ext = input@.moves.skip(n);
            match push_to(crates[i], targets[i], &current) {
                Some(moves) => {
                    if moves.len() > max_size - input.moves.len() {
                        going = false;
                        assert(ext + Seq::<Direction>::empty() =~= ext);
                    } else {
                        let next = current.replay(&moves).unwrap();
                        append_moves(&mut input.moves, &moves);
                        proof {
                            lemma_replay_concat(board, ext, moves@);
                            assert(input@.moves.skip(n) =~= ext + moves@);
                            assert(input@.moves.take(n) =~= before.moves);
                        }
                        current = next;
                        if current.in_solution_state() {
                            going = false;
                            assert(ext + moves@ + Seq::<Direction>::empty() =~= ext + moves@);
                        } else {
                            assert(ext + (moves@ + paired(
                                current@,
                                max_size - input@.moves.len(),
                                targets@,
                                crates@,
                                i + 1,
                            )) =~= ext + moves@ + paired(
                                current@,
                                max_size - input@.moves.len(),
                                targets@,
                                crates@,
                                i + 1,
                            ));
                        }
                        i += 1;
                    }
                },
                None => {
                    going = false;
                    assert(ext + Seq::<Direction>::empty() =~= ext);
                },
            }
        }
        proof {
            assert(total =~= input@.moves.skip(n));
            assert(input@.moves =~= before.moves + total);
        }
        if i > 0 {
            input.hallucinated = Some(current);
            MutationResult::Mutated
        } else {
            MutationResult::Skipped
        }
    }
}

} // verus!
