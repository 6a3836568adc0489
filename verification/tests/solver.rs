use libafl_bolts::rands::RomuDuoJrRand;
use sokoban::Direction::{Down, Left, Right, Up};
use sokoban::{Direction, State as SokobanState, Tile};
use sokoban_fuzz::executor::{ExitKind, SokobanExecutor};
use sokoban_fuzz::feedback::{
    SokobanSolvableFeedback, SokobanSolvedFeedback, SokobanStatisticsFeedback,
};
use sokoban_fuzz::hash::hash_sokoban_state;
use sokoban_fuzz::input::{HallucinatedSokobanInput, SokobanInput};
use sokoban_fuzz::mutators::{
    MoveCrateMutator, MoveCrateToTargetMutator, MutationResult, OneShotMutator,
    SokobanRemainingMutationsMetadata,
};
use sokoban_fuzz::observer::{SokobanObserversTuple, SokobanStateObserver};
use sokoban_fuzz::preference::{
    RandomPreferenceMutator, StackedMutator, REWEIGHT_FREQUENCY, WEIGHT_PRECISION,
};
use sokoban_fuzz::puzzle::{find_crates, Puzzle};
use sokoban_fuzz::scheduler::{SchedulerError, SokobanWeightScheduler};
use sokoban_fuzz::state::{InitialPuzzleMetadata, LastHallucinationMetadata};
use sokoban_fuzz::walk::go_to;
use std::collections::hash_map::DefaultHasher;
use std::collections::{HashMap, HashSet};
use std::hash::{Hash, Hasher};

fn puzzle_of(state: &SokobanState) -> Puzzle {
    Puzzle::new(
        state.iter().map(|item| item.tile()).collect(),
        state.player(),
        state.targets().to_vec(),
        state.rows(),
        state.cols(),
    )
    .expect("a parsed state is valid")
}

fn same_state(puzzle: &Puzzle, state: &SokobanState) -> bool {
    puzzle.rows() == state.rows()
        && puzzle.cols() == state.cols()
        && puzzle.player() == state.player()
        && puzzle.targets().as_slice() == state.targets()
        && state.iter().all(|item| puzzle.tile(item.position()) == item.tile())
}

fn field(marks: &[((usize, usize), char)]) -> SokobanState {
    let mut text = String::new();
    for r in 0..20 {
        for c in 0..20 {
            let border = r == 0 || r == 19 || c == 0 || c == 19;
            let mut ch = if border { '#' } else { '_' };
            for &(pos, mark) in marks {
                if pos == (r, c) {
                    ch = mark;
                }
            }
            text.push(ch);
        }
        text.push('\n');
    }
    SokobanState::parse(text.as_bytes()).unwrap()
}

fn walled(last_row: usize, marks: &[((usize, usize), char)]) -> SokobanState {
    let mut all = Vec::new();
    for r in 1..=last_row {
        all.push(((r, 9), '#'));
    }
    all.extend_from_slice(marks);
    field(&all)
}

fn engine_replay(state: &SokobanState, moves: &[Direction]) -> Option<SokobanState> {
    moves
        .iter()
        .copied()
        .try_fold(state.clone(), |s, d| s.move_player(d))
        .ok()
}

fn wrap(initial: &Puzzle, moves: Vec<Direction>) -> HallucinatedSokobanInput {
    HallucinatedSokobanInput::try_transform_from(&SokobanInput::new(moves), initial)
}

/// A small driver around the library: one corpus, the stages in their order.
fn solve(state: &SokobanState, max_size: usize, step_cap: usize, seed: u64) -> Option<Vec<Direction>> {
    let initial = puzzle_of(state);
    let mut rand = RomuDuoJrRand::with_seed(seed);
    let mut observer = SokobanStateObserver::new("sokoban_state", true);
    let mut solvable = SokobanSolvableFeedback::new(&observer);
    let mut stats = SokobanStatisticsFeedback::new(&observer);
    let mut solved = SokobanSolvedFeedback::new(&observer);
    let executor = SokobanExecutor::new(
        initial.clone(),
        &(SokobanStateObserver::new("sokoban_state", true), ()),
    );
    let mut slot = LastHallucinationMetadata::default();
    let mut scheduler = SokobanWeightScheduler::new();
    let mut seen: HashSet<u64> = HashSet::new();
    let mut corpus: HashMap<usize, (SokobanInput, SokobanRemainingMutationsMetadata)> =
        HashMap::new();
    let mut next_id = 0usize;
    let mut pending = vec![SokobanInput::new(Vec::new())];
    let one_shot = &mut OneShotMutator;
    let move_crate = &mut MoveCrateMutator;
    let to_target = &mut MoveCrateToTargetMutator;

    for _ in 0..step_cap {
        while let Some(input) = pending.pop() {
            observer.pre_exec();
            if executor.run_target(&mut slot, &mut observer, &input) == ExitKind::Crash {
                continue;
            }
            assert!(same_state(
                observer.last_state().unwrap(),
                &engine_replay(state, input.moves()).unwrap()
            ));
            if solved.is_interesting(&observer) {
                return Some(input.moves().to_vec());
            }
            let fresh = seen.insert(observer.hash().unwrap());
            if fresh && solvable.is_interesting(&observer) && stats.is_interesting(&observer, &input) {
                let budget = scheduler.on_add(next_id, &initial, &input);
                corpus.insert(next_id, (input, budget));
                next_id += 1;
            }
            if let Some(current) = scheduler.current() {
                if let Some((_, budget)) = corpus.get(&current) {
                    scheduler.on_evaluation(budget.remaining());
                }
            }
            let total: usize = scheduler.entries().iter().map(|e| e.1).sum();
            assert_eq!(total, scheduler.total_weight());
        }
        for id in scheduler.pruneable().clone() {
            corpus.remove(&id);
        }
        let id = match scheduler.next(&mut rand) {
            Ok(id) => id,
            Err(SchedulerError::KeyNotFound) => return None,
        };
        for stage in 0..3 {
            let (input, budget) = corpus.get_mut(&id).unwrap();
            let before = budget.remaining();
            let mut wrapped = HallucinatedSokobanInput::try_transform_from(input, &initial);
            let result = match stage {
                0 => one_shot.mutate(&mut rand, max_size, &mut wrapped),
                1 => move_crate.mutate(budget, max_size, &mut wrapped),
                _ => to_target.mutate(budget, max_size, &mut wrapped),
            };
            assert!(budget.remaining() <= before);
            if result == MutationResult::Mutated {
                assert!(wrapped.moves().len() <= max_size);
                *slot.hallucination_mut() = wrapped.hallucinated_mut().take();
                pending.push(wrapped.try_transform_into());
            }
        }
    }
    None
}

#[test]
fn solver_pushes_the_crate_onto_the_target() {
    let state = field(&[((3, 14), 'x'), ((4, 13), 'm'), ((11, 4), '.')]);
    let moves = solve(&state, 1000, 200, 7).expect("a solution");
    let end = engine_replay(&state, &moves).unwrap();
    assert_eq!(end[(11, 4)], Tile::Crate);
    assert!(end.in_solution_state());
}

#[test]
fn solver_detours_through_the_gap() {
    let state = walled(16, &[((3, 14), 'x'), ((4, 13), 'm'), ((3, 3), '.')]);
    let moves = solve(&state, 1000, 200, 11).expect("a solution");
    let mut current = state.clone();
    let mut crate_in_gap = false;
    for m in moves {
        current = current.move_player(m).unwrap();
        if current[(17, 9)] == Tile::Crate {
            crate_in_gap = true;
        }
    }
    assert!(crate_in_gap);
    assert_eq!(current[(3, 3)], Tile::Crate);
}

#[test]
fn solver_gives_up_behind_a_closed_wall() {
    let state = walled(18, &[((3, 14), 'x'), ((4, 13), 'm'), ((3, 3), '.')]);
    assert_eq!(solve(&state, 1000, 60, 3), None);
}

#[test]
fn cornered_crate_is_not_interesting() {
    let state = field(&[((1, 1), 'm'), ((3, 14), 'x'), ((11, 4), '.')]);
    let puzzle = puzzle_of(&state);
    let mut observer = SokobanStateObserver::new("sokoban_state", true);
    let mut solvable = SokobanSolvableFeedback::new(&observer);
    let mut solved = SokobanSolvedFeedback::new(&observer);
    assert!(!solvable.is_interesting(&observer));
    assert!(!solved.is_interesting(&observer));
    observer.replace(puzzle);
    assert!(!solvable.is_interesting(&observer));
    assert!(!solved.is_interesting(&observer));
    assert_eq!(solve(&state, 1000, 50, 5), None);
}

#[test]
fn cornered_crate_on_a_target_is_fine() {
    let state = field(&[((1, 1), 'M'), ((3, 14), 'x'), ((5, 5), 'm'), ((11, 4), '.')]);
    let mut observer = SokobanStateObserver::new("obs", false);
    observer.replace(puzzle_of(&state));
    let mut solvable = SokobanSolvableFeedback::new(&observer);
    assert!(solvable.is_interesting(&observer));
    assert_eq!(solvable.name(), "cornered_obs");
    assert_eq!(solvable.observer_name(), "obs");
}

#[test]
fn one_shot_solves_two_crates_in_one_go() {
    let state = field(&[
        ((5, 5), 'x'),
        ((5, 7), 'm'),
        ((5, 9), '.'),
        ((8, 7), 'm'),
        ((8, 9), '.'),
    ]);
    let initial = puzzle_of(&state);
    let mut input = wrap(&initial, vec![]);
    let result = OneShotMutator::pair_up(
        100,
        &mut input,
        &vec![(5, 9), (8, 9)],
        &vec![(5, 7), (8, 7)],
    );
    assert_eq!(result, MutationResult::Mutated);
    // walk 1, push 2, walk 5, push 2
    assert_eq!(input.moves().len(), 1 + 2 + 5 + 2);
    let end = engine_replay(&state, input.moves()).unwrap();
    assert!(end.in_solution_state());
    assert!(same_state(input.hallucinated_mut().as_ref().unwrap(), &end));
    let walk = go_to((5, 8), (8, 6), &puzzle_of(&engine_replay(&state, &input.moves()[..3]).unwrap()));
    assert_eq!(walk.unwrap().len(), 5);
}

#[test]
fn one_shot_leaves_solved_and_full_inputs_alone() {
    let state = field(&[((5, 5), 'x'), ((5, 7), 'M'), ((8, 7), 'm')]);
    let initial = puzzle_of(&state);
    let mut rand = RomuDuoJrRand::with_seed(1);
    let mut input = wrap(&initial, vec![Left]);
    assert_eq!(OneShotMutator.mutate(&mut rand, 100, &mut input), MutationResult::Skipped);
    assert_eq!(input.moves(), &vec![Left]);
    let open = field(&[((5, 5), 'x'), ((5, 7), 'm'), ((5, 9), '.')]);
    let initial = puzzle_of(&open);
    let mut input = wrap(&initial, vec![Left]);
    assert_eq!(OneShotMutator.mutate(&mut rand, 1, &mut input), MutationResult::Skipped);
    assert_eq!(input.moves(), &vec![Left]);
    // the plan needs four moves: three do not hold it
    assert_eq!(OneShotMutator.mutate(&mut rand, 4, &mut input), MutationResult::Skipped);
    assert_eq!(OneShotMutator.mutate(&mut rand, 5, &mut input), MutationResult::Mutated);
    assert_eq!(input.moves(), &vec![Left, Right, Right, Right, Right]);
    assert_eq!(OneShotMutator.name(), "move_many_crates_to_targets");
}

#[test]
fn one_shot_stops_at_the_first_failure() {
    let state = field(&[((5, 5), 'x'), ((1, 1), 'm'), ((5, 7), 'm'), ((5, 9), '.'), ((9, 9), '.')]);
    let initial = puzzle_of(&state);
    let mut input = wrap(&initial, vec![]);
    let result = OneShotMutator::pair_up(100, &mut input, &vec![(9, 9), (5, 9)], &vec![(1, 1), (5, 7)]);
    assert_eq!(result, MutationResult::Skipped);
    assert!(input.moves().is_empty());
    let result = OneShotMutator::pair_up(100, &mut input, &vec![(5, 9), (9, 9)], &vec![(5, 7), (1, 1)]);
    assert_eq!(result, MutationResult::Mutated);
    assert_eq!(input.moves(), &vec![Right, Right, Right]);
    let result = OneShotMutator::pair_up(100, &mut input, &vec![], &vec![(5, 7)]);
    assert_eq!(result, MutationResult::Skipped);
}

#[test]
fn budget_holds_every_pair_in_order() {
    let budget = SokobanRemainingMutationsMetadata::new(&[(2, 3), (4, 5)], &[(7, 7), (8, 8), (9, 9)]);
    assert_eq!(
        budget.moves_remaining(),
        &vec![
            ((2, 3), Up),
            ((2, 3), Down),
            ((2, 3), Left),
            ((2, 3), Right),
            ((4, 5), Up),
            ((4, 5), Down),
            ((4, 5), Left),
            ((4, 5), Right),
        ]
    );
    assert_eq!(
        budget.move_to_targets_remaining(),
        &vec![
            ((2, 3), (7, 7)),
            ((2, 3), (8, 8)),
            ((2, 3), (9, 9)),
            ((4, 5), (7, 7)),
            ((4, 5), (8, 8)),
            ((4, 5), (9, 9)),
        ]
    );
    assert_eq!(budget.remaining(), 4 * 2 + 2 * 3);
    let empty = SokobanRemainingMutationsMetadata::new(&[], &[(1, 1)]);
    assert_eq!(empty.remaining(), 0);
    let no_targets = SokobanRemainingMutationsMetadata::new(&[(1, 1)], &[]);
    assert_eq!(no_targets.remaining(), 4);
}

#[test]
fn move_crate_takes_the_last_push_first() {
    let state = field(&[((5, 5), 'x'), ((5, 7), 'm'), ((5, 9), '.')]);
    let initial = puzzle_of(&state);
    let mut budget = SokobanRemainingMutationsMetadata::new(&find_crates(&initial), initial.targets());
    let mut input = wrap(&initial, vec![]);
    // the last entry is the push to the right: one step to the push point, then the push
    let result = MoveCrateMutator.mutate(&mut budget, 100, &mut input);
    assert_eq!(result, MutationResult::Mutated);
    assert_eq!(input.moves(), &vec![Right, Right]);
    assert_eq!(budget.moves_remaining().len(), 3);
    assert_eq!(budget.move_to_targets_remaining().len(), 1);
    let end = engine_replay(&state, input.moves()).unwrap();
    assert_eq!(end[(5, 8)], Tile::Crate);
    assert!(same_state(input.hallucinated_mut().as_ref().unwrap(), &end));
    assert_eq!(MoveCrateMutator.name(), "move_crate");
}

#[test]
fn move_crate_skips_what_cannot_be_pushed() {
    // the crate stands in the upper left corner: it can be pushed right or down
    // only from a wall
    let state = field(&[((5, 5), 'x'), ((1, 1), 'm'), ((5, 9), '.')]);
    let initial = puzzle_of(&state);
    let mut budget = SokobanRemainingMutationsMetadata::new(&find_crates(&initial), initial.targets());
    let mut input = wrap(&initial, vec![]);
    let result = MoveCrateMutator.mutate(&mut budget, 100, &mut input);
    assert_eq!(result, MutationResult::Skipped);
    assert!(input.moves().is_empty());
    assert_eq!(budget.moves_remaining().len(), 0);
    assert_eq!(budget.move_to_targets_remaining().len(), 1);
    assert!(same_state(input.hallucinated_mut().as_ref().unwrap(), &state));
}

#[test]
fn move_crate_keeps_the_size_limit() {
    let state = field(&[((5, 5), 'x'), ((5, 7), 'm'), ((5, 9), '.')]);
    let initial = puzzle_of(&state);
    let mut budget = SokobanRemainingMutationsMetadata::new(&find_crates(&initial), initial.targets());
    let mut input = wrap(&initial, vec![Up]);
    // from (4, 5) the push to the right needs two steps and the push: four moves in all
    let result = MoveCrateMutator.mutate(&mut budget, 3, &mut input);
    assert_eq!(result, MutationResult::Skipped);
    assert_eq!(input.moves(), &vec![Up]);
    assert_eq!(budget.moves_remaining().len(), 3);
    let mut budget = SokobanRemainingMutationsMetadata::new(&find_crates(&initial), initial.targets());
    let result = MoveCrateMutator.mutate(&mut budget, 4, &mut input);
    assert_eq!(result, MutationResult::Mutated);
    assert_eq!(input.moves().len(), 4);
    // at the limit the pushes left are dropped
    let result = MoveCrateMutator.mutate(&mut budget, 4, &mut input);
    assert_eq!(result, MutationResult::Skipped);
    assert_eq!(budget.moves_remaining().len(), 0);
    assert_eq!(budget.move_to_targets_remaining().len(), 1);
    assert_eq!(input.moves().len(), 4);
}

#[test]
fn move_crate_to_target_plays_the_plan() {
    let state = field(&[((5, 5), 'x'), ((5, 7), 'm'), ((5, 9), '.'), ((1, 1), 'm')]);
    let initial = puzzle_of(&state);
    let mut budget = SokobanRemainingMutationsMetadata::new(&find_crates(&initial), initial.targets());
    assert_eq!(budget.move_to_targets_remaining(), &vec![((1, 1), (5, 9)), ((5, 7), (5, 9))]);
    let mut input = wrap(&initial, vec![]);
    let result = MoveCrateToTargetMutator.mutate(&mut budget, 100, &mut input);
    assert_eq!(result, MutationResult::Mutated);
    assert_eq!(input.moves(), &vec![Right, Right, Right]);
    assert_eq!(budget.move_to_targets_remaining().len(), 1);
    assert_eq!(budget.moves_remaining().len(), 8);
    let end = engine_replay(&state, input.moves()).unwrap();
    assert!(same_state(input.hallucinated_mut().as_ref().unwrap(), &end));
    // the crate in the corner cannot be brought anywhere
    let mut input = wrap(&initial, vec![]);
    let result = MoveCrateToTargetMutator.mutate(&mut budget, 100, &mut input);
    assert_eq!(result, MutationResult::Skipped);
    assert_eq!(budget.move_to_targets_remaining().len(), 0);
    assert!(input.moves().is_empty());
    assert_eq!(MoveCrateToTargetMutator.name(), "move_crate_to_target");
}

#[test]
fn move_crate_to_target_keeps_the_size_limit() {
    let state = field(&[((5, 5), 'x'), ((5, 7), 'm'), ((5, 9), '.')]);
    let initial = puzzle_of(&state);
    let mut budget = SokobanRemainingMutationsMetadata::new(&find_crates(&initial), initial.targets());
    let mut input = wrap(&initial, vec![]);
    assert_eq!(MoveCrateToTargetMutator.mutate(&mut budget, 2, &mut input), MutationResult::Skipped);
    assert_eq!(budget.move_to_targets_remaining().len(), 0);
    let mut budget = SokobanRemainingMutationsMetadata::new(&find_crates(&initial), initial.targets());
    assert_eq!(MoveCrateToTargetMutator.mutate(&mut budget, 3, &mut input), MutationResult::Mutated);
    assert_eq!(input.moves().len(), 3);
    let mut budget = SokobanRemainingMutationsMetadata::new(&find_crates(&initial), initial.targets());
    assert_eq!(MoveCrateToTargetMutator.mutate(&mut budget, 3, &mut input), MutationResult::Skipped);
    assert_eq!(budget.move_to_targets_remaining().len(), 0);
    assert_eq!(budget.moves_remaining().len(), 4);
}

#[test]
fn random_preference_draws_weights_and_forwards() {
    let state = field(&[((5, 5), 'x'), ((5, 7), 'm'), ((5, 9), '.')]);
    let initial = puzzle_of(&state);
    let mut rand = RomuDuoJrRand::with_seed(99);
    let mut mutator = RandomPreferenceMutator::new(vec![
        StackedMutator::OneShot(OneShotMutator),
        StackedMutator::MoveCrate(MoveCrateMutator),
        StackedMutator::MoveCrateToTarget(MoveCrateToTargetMutator),
    ]);
    assert_eq!(mutator.name(), "random_preference");
    assert_eq!(mutator.total_weight(), 0);
    assert_eq!(mutator.until_reweight(), 0);
    let mut budget = SokobanRemainingMutationsMetadata::new(&find_crates(&initial), initial.targets());
    let mut input = wrap(&initial, vec![]);
    let result = mutator.mutate(&mut rand, &mut budget, 100, &mut input);
    assert_eq!(mutator.until_reweight(), REWEIGHT_FREQUENCY);
    assert_eq!(mutator.weights().len(), mutator.total_weight());
    for child in 0..3 {
        let weight = mutator.weights().iter().filter(|c| **c == child).count();
        assert!(1 <= weight && weight as u64 <= WEIGHT_PRECISION);
    }
    let mut sorted = mutator.weights().clone();
    sorted.sort();
    assert_eq!(&sorted, mutator.weights());
    if result == MutationResult::Mutated {
        let end = engine_replay(&state, input.moves()).unwrap();
        assert!(same_state(input.hallucinated_mut().as_ref().unwrap(), &end));
    } else {
        assert!(input.moves().is_empty());
    }
    let table = mutator.weights().clone();
    let _ = mutator.mutate(&mut rand, &mut budget, 100, &mut input);
    assert_eq!(mutator.until_reweight(), REWEIGHT_FREQUENCY - 1);
    assert_eq!(&table, mutator.weights());
    assert_eq!(StackedMutator::MoveCrate(MoveCrateMutator).name(), "move_crate");
}

#[test]
fn scheduler_weighs_adds_and_evaluations() {
    let state = field(&[((5, 5), 'x'), ((5, 7), 'm'), ((8, 7), 'm'), ((5, 9), '.'), ((8, 9), '.'), ((9, 9), '.')]);
    let initial = puzzle_of(&state);
    let mut rand = RomuDuoJrRand::with_seed(5);
    let mut scheduler = SokobanWeightScheduler::new();
    assert_eq!(scheduler.next(&mut rand), Err(SchedulerError::KeyNotFound));
    assert_eq!(scheduler.current(), None);
    let budget = scheduler.on_add(0, &initial, &SokobanInput::new(vec![]));
    assert_eq!(budget.moves_remaining().len(), 4 * 2);
    assert_eq!(budget.move_to_targets_remaining().len(), 2 * 3);
    assert_eq!(scheduler.entries(), &vec![(0, 14)]);
    assert_eq!(scheduler.total_weight(), 14);
    assert_eq!(scheduler.max_weight(), 14);
    assert_eq!(scheduler.weight(0), Some(14));
    assert_eq!(scheduler.weight(1), None);
    // nothing is selected: an evaluation changes nothing
    scheduler.on_evaluation(3);
    assert_eq!(scheduler.entries(), &vec![(0, 14)]);
    assert_eq!(scheduler.next(&mut rand), Ok(0));
    assert_eq!(scheduler.current(), Some(0));
    scheduler.on_evaluation(10);
    assert_eq!(scheduler.entries(), &vec![(0, 1 + 14 - 10)]);
    assert_eq!(scheduler.total_weight(), 5);
    let _ = scheduler.on_add(7, &initial, &SokobanInput::new(vec![Right]));
    assert_eq!(scheduler.entries(), &vec![(0, 5), (7, 14)]);
    assert_eq!(scheduler.total_weight(), 19);
    assert_eq!(scheduler.select(0), 0);
    assert_eq!(scheduler.select(4), 0);
    assert_eq!(scheduler.select(5), 7);
    assert_eq!(scheduler.select(18), 7);
    // a budget above the largest seen raises it
    scheduler.on_evaluation(20);
    assert_eq!(scheduler.max_weight(), 20);
    assert_eq!(scheduler.entries(), &vec![(0, 1), (7, 14)]);
    assert_eq!(scheduler.total_weight(), 15);
    scheduler.on_evaluation(0);
    assert_eq!(scheduler.entries(), &vec![(7, 14)]);
    assert_eq!(scheduler.pruneable(), &vec![0]);
    assert_eq!(scheduler.total_weight(), 14);
    // the entry selected is gone: an evaluation changes nothing
    scheduler.on_evaluation(0);
    assert_eq!(scheduler.pruneable(), &vec![0]);
    assert_eq!(scheduler.next(&mut rand), Ok(7));
    assert!(scheduler.pruneable().is_empty());
    scheduler.on_evaluation(0);
    assert_eq!(scheduler.total_weight(), 0);
    assert_eq!(scheduler.next(&mut rand), Err(SchedulerError::KeyNotFound));
    assert_eq!(scheduler.current(), None);
}

#[test]
fn scheduler_draws_by_weight() {
    let state = field(&[((5, 5), 'x'), ((5, 7), 'm'), ((5, 9), '.')]);
    let initial = puzzle_of(&state);
    let mut rand = RomuDuoJrRand::with_seed(17);
    let mut scheduler = SokobanWeightScheduler::new();
    for id in 0..4 {
        let _ = scheduler.on_add(id, &initial, &SokobanInput::new(vec![]));
    }
    assert_eq!(scheduler.total_weight(), 20);
    let mut hits = [0usize; 4];
    for _ in 0..400 {
        hits[scheduler.next(&mut rand).unwrap()] += 1;
    }
    assert!(hits.iter().all(|h| *h > 40));
}

#[test]
fn executor_replays_or_takes_the_slot() {
    let state = field(&[((5, 5), 'x'), ((5, 7), 'm'), ((5, 9), '.')]);
    let initial = puzzle_of(&state);
    let executor = SokobanExecutor::new(initial.clone(), &(SokobanStateObserver::new("seen", true), 0u8));
    assert_eq!(executor.state_observer_name(), "seen");
    let mut observer = SokobanStateObserver::new("seen", true);
    let mut slot = LastHallucinationMetadata::default();
    let kind = executor.run_target(&mut slot, &mut observer, &SokobanInput::new(vec![Right, Right]));
    assert_eq!(kind, ExitKind::Normal);
    let end = engine_replay(&state, &[Right, Right]).unwrap();
    assert!(same_state(observer.last_state().unwrap(), &end));
    // an illegal move: the crate cannot pass the wall
    observer.pre_exec();
    let kind = executor.run_target(&mut slot, &mut observer, &SokobanInput::new(vec![Right; 13]));
    assert_eq!(kind, ExitKind::Crash);
    assert!(observer.last_state().is_none());
    // a state in the slot is taken as it is
    *slot.hallucination_mut() = Some(puzzle_of(&end));
    assert!(executor.hallucination_holds(&slot, &SokobanInput::new(vec![Right, Right])));
    assert!(!executor.hallucination_holds(&slot, &SokobanInput::new(vec![Up])));
    assert!(!executor.hallucination_holds(&slot, &SokobanInput::new(vec![Right; 13])));
    assert!(puzzle_of(&end).same_state(&puzzle_of(&end)));
    assert!(!puzzle_of(&end).same_state(&initial));
    let kind = executor.run_target(&mut slot, &mut observer, &SokobanInput::new(vec![Up]));
    assert_eq!(kind, ExitKind::Normal);
    assert!(slot.hallucination_mut().is_none());
    assert!(executor.hallucination_holds(&slot, &SokobanInput::new(vec![Up])));
    assert!(same_state(observer.last_state().unwrap(), &end));
}

#[test]
fn observer_holds_and_hashes_the_last_state() {
    let state = field(&[((5, 5), 'x'), ((5, 7), 'm'), ((5, 9), '.')]);
    let mut observer = SokobanStateObserver::new("watch", true);
    assert_eq!(observer.name(), "watch");
    assert_eq!(observer.hash(), None);
    assert!(observer.replace(puzzle_of(&state)).is_none());
    let first = observer.hash().unwrap();
    assert_eq!(first, hash_sokoban_state(&puzzle_of(&state), true));
    let moved = engine_replay(&state, &[Up]).unwrap();
    let previous = observer.replace(puzzle_of(&moved)).unwrap();
    assert!(same_state(&previous, &state));
    assert_ne!(observer.hash().unwrap(), first);
    observer.flush();
    assert!(observer.last_state().is_none());
    let tuple = (SokobanStateObserver::new("named", false), ());
    assert_eq!(tuple.sokoban_observer_name(), "named");
}

#[test]
fn hash_follows_crates_and_player() {
    let state = field(&[((5, 5), 'x'), ((5, 7), 'm'), ((9, 2), 'm'), ((5, 9), '.')]);
    let puzzle = puzzle_of(&state);
    let walked = puzzle_of(&engine_replay(&state, &[Up, Up]).unwrap());
    let pushed = puzzle_of(&engine_replay(&state, &[Right, Right]).unwrap());
    assert_eq!(hash_sokoban_state(&puzzle, false), hash_sokoban_state(&walked, false));
    assert_ne!(hash_sokoban_state(&puzzle, true), hash_sokoban_state(&walked, true));
    assert_ne!(hash_sokoban_state(&puzzle, false), hash_sokoban_state(&pushed, false));
    assert_ne!(hash_sokoban_state(&puzzle, false), hash_sokoban_state(&puzzle, true));
    for include_player in [false, true] {
        let mut hasher = DefaultHasher::new();
        for item in state.iter().filter(|item| item.tile() == Tile::Crate) {
            item.position().hash(&mut hasher);
        }
        if include_player {
            state.player().hash(&mut hasher);
        }
        assert_eq!(hash_sokoban_state(&puzzle, include_player), hasher.finish());
    }
}

#[test]
fn statistics_keep_the_records() {
    let state = field(&[((5, 5), 'x'), ((5, 7), 'M'), ((8, 7), 'm'), ((8, 9), '.'), ((9, 9), '.')]);
    let mut observer = SokobanStateObserver::new("obs", true);
    let mut stats = SokobanStatisticsFeedback::new(&observer);
    assert_eq!(stats.name(), "stats_obs");
    assert!(stats.is_interesting(&observer, &SokobanInput::new(vec![Up, Up])));
    assert_eq!((stats.most_set(), stats.most_moves()), (0, 0));
    observer.replace(puzzle_of(&state));
    assert_eq!(puzzle_of(&state).covered_targets(), 1);
    assert!(stats.is_interesting(&observer, &SokobanInput::new(vec![Up, Up])));
    assert_eq!((stats.most_set(), stats.most_moves()), (1, 2));
    assert!(stats.is_interesting(&observer, &SokobanInput::new(vec![Up])));
    assert_eq!((stats.most_set(), stats.most_moves()), (1, 2));
    let open = field(&[((5, 5), 'x'), ((5, 7), 'm'), ((8, 9), '.')]);
    observer.replace(puzzle_of(&open));
    assert!(stats.is_interesting(&observer, &SokobanInput::new(vec![Up, Up, Up])));
    assert_eq!((stats.most_set(), stats.most_moves()), (1, 3));
}

#[test]
fn solved_feedback_follows_the_targets() {
    let mut observer = SokobanStateObserver::new("obs", true);
    let mut solved = SokobanSolvedFeedback::new(&observer);
    assert_eq!(solved.name(), "solved_obs");
    let open = field(&[((5, 5), 'x'), ((5, 7), 'M'), ((8, 7), 'm'), ((8, 9), '.')]);
    observer.replace(puzzle_of(&open));
    assert!(!solved.is_interesting(&observer));
    let done = field(&[((5, 5), 'x'), ((5, 7), 'M'), ((8, 7), 'M'), ((9, 9), 'm')]);
    observer.replace(puzzle_of(&done));
    assert!(solved.is_interesting(&observer));
    assert!(puzzle_of(&done).in_solution_state());
    let no_targets = field(&[((5, 5), 'x'), ((5, 7), 'm')]);
    assert!(puzzle_of(&no_targets).in_solution_state());
}

#[test]
fn input_is_named_by_its_moves() {
    let input = SokobanInput::new(vec![Up, Down, Left, Right, Right]);
    assert_eq!(input.generate_name(0), "UDLRR");
    assert_eq!(input.generate_name(42), "UDLRR");
    assert_eq!(input.name_bytes(), b"UDLRR".to_vec());
    assert_eq!(SokobanInput::new(vec![]).generate_name(1), "");
    assert_eq!(input.moves(), &[Up, Down, Left, Right, Right]);
    assert!(input.same_moves(&input.clone()));
    let digest = |input: &SokobanInput| {
        let mut hasher = DefaultHasher::new();
        input.hash(&mut hasher);
        hasher.finish()
    };
    assert_eq!(digest(&input), digest(&input.clone()));
    assert_ne!(digest(&input), digest(&SokobanInput::new(vec![Up, Down, Left, Right])));
    assert!(!input.same_moves(&SokobanInput::new(vec![Up, Down, Left, Right])));
    assert!(!input.same_moves(&SokobanInput::new(vec![Up, Down, Left, Right, Left])));
}

#[test]
fn transform_wraps_and_unwraps() {
    let state = field(&[((5, 5), 'x'), ((5, 7), 'm'), ((5, 9), '.')]);
    let initial = InitialPuzzleMetadata::new(puzzle_of(&state));
    let input = SokobanInput::new(vec![Right, Right, Up]);
    let mut wrapped = HallucinatedSokobanInput::try_transform_from(&input, initial.initial());
    assert_eq!(wrapped.moves(), &vec![Right, Right, Up]);
    let end = engine_replay(&state, &[Right, Right, Up]).unwrap();
    assert!(same_state(&wrapped.state(), &end));
    wrapped.moves_mut().push(Down);
    let back = wrapped.try_transform_into();
    assert_eq!(back.moves(), &[Right, Right, Up, Down]);
}

#[test]
fn replay_follows_the_engine() {
    let state = field(&[((5, 5), 'x'), ((5, 7), 'm'), ((5, 8), 'm'), ((3, 5), 'm'), ((5, 9), '.')]);
    let puzzle = puzzle_of(&state);
    let lists: Vec<Vec<Direction>> = vec![
        vec![],
        vec![Up],
        vec![Up, Up],
        vec![Up, Up, Up, Up],
        vec![Right],
        vec![Right, Right],
        vec![Left, Left, Left, Left],
        vec![Left, Left, Left, Left, Left],
        vec![Down, Right, Right, Up, Up, Left, Down, Down],
    ];
    for moves in lists {
        let expected = engine_replay(&state, &moves);
        let got = puzzle.replay(&moves);
        assert_eq!(got.is_some(), expected.is_some());
        if let (Some(got), Some(expected)) = (got, expected) {
            assert!(same_state(&got, &expected));
        }
    }
    // two crates in a row cannot be pushed
    assert!(puzzle.replay(&vec![Right, Right]).is_none());
    let stuck = puzzle.replay(&vec![Right]).unwrap().move_player(Right);
    assert!(same_state(&stuck.unwrap_err(), &engine_replay(&state, &[Right]).unwrap()));
    let pushed = puzzle.clone().move_player(Up).unwrap().move_player(Up).unwrap();
    assert_eq!(pushed.tile((2, 5)), Tile::Crate);
    assert_eq!(pushed.tile((3, 5)), Tile::Floor);
    assert_eq!(pushed.player(), (3, 5));
}

#[test]
fn new_refuses_what_is_no_state() {
    let floor = vec![Tile::Floor; 6];
    assert!(Puzzle::new(floor.clone(), (0, 0), vec![(1, 2)], 2, 3).is_some());
    assert!(Puzzle::new(floor.clone(), (0, 0), vec![], 3, 3).is_none());
    assert!(Puzzle::new(floor.clone(), (2, 0), vec![], 2, 3).is_none());
    assert!(Puzzle::new(floor.clone(), (0, 3), vec![], 2, 3).is_none());
    assert!(Puzzle::new(floor.clone(), (0, 0), vec![(2, 0)], 2, 3).is_none());
    assert!(Puzzle::new(floor.clone(), (0, 0), vec![], usize::MAX, 2).is_none());
    let mut tiles = floor.clone();
    tiles[4] = Tile::Wall;
    tiles[5] = Tile::Crate;
    assert!(Puzzle::new(tiles.clone(), (1, 1), vec![], 2, 3).is_none());
    assert!(Puzzle::new(tiles.clone(), (1, 2), vec![], 2, 3).is_none());
    assert!(Puzzle::new(tiles.clone(), (0, 0), vec![(1, 1)], 2, 3).is_none());
    let made = Puzzle::new(tiles.clone(), (0, 0), vec![(1, 2)], 2, 3).unwrap();
    assert_eq!((made.rows(), made.cols(), made.player()), (2, 3, (0, 0)));
    assert!(made.is_target((1, 2)) && !made.is_target((0, 0)));
    assert!(made.is_wall((1, 1)) && made.is_crate((1, 2)) && made.is_floor((0, 2)));
    assert!(!made.is_floor((2, 0)) && !made.contains((0, 3)));
    assert_eq!(made.offset((1, 2)), 5);
    assert!(made.in_solution_state());
    assert_eq!(find_crates(&made), vec![(1, 2)]);
    assert_eq!(made.tiles(), &tiles);
}
