//! The feedbacks: predicates on the state that a run ended in.

use vstd::prelude::*;
use sokoban::Direction;
use crate::grid::Position;
use crate::input::SokobanInput;
use crate::observer::SokobanStateObserver;
use crate::puzzle::{corner_blocked, find_crates, Board};

verus! {

/// `format!` with two texts: the first followed by the second.
#[verifier::external_body]
fn joined(prefix: &str, name: &str) -> (text: String)
    ensures
        text@ == prefix@ + name@,
{
    format!("{}{}", prefix, name)
}

/// The objective: every target carries a crate.
#[derive(Debug)]
pub struct SokobanSolvedFeedback {
    obs_name: String,
    name: String,
}

impl SokobanSolvedFeedback {
    /// The feedback's name.
    pub closed spec fn label(&self) -> Seq<char> {
        self.name@
    }

    /// The name of the observer that it reads.
    pub closed spec fn observer_label(&self) -> Seq<char> {
        self.obs_name@
    }

    pub fn new(obs: &SokobanStateObserver) -> (feedback: Self)
        ensures
            feedback.observer_label() == obs.label(),
            feedback.label() == "solved_"@ + obs.label(),
    {
        SokobanSolvedFeedback {
            obs_name: obs.name().to_owned(),
            name: joined("solved_", obs.name()),
        }
    }

    pub fn name(&self) -> (name: &str)
        ensures
            name@ == self.label(),
    {
        self.name.as_str()
    }

    /// The name of the observer that it reads.
    pub fn observer_name(&self) -> (name: &str)
        ensures
            name@ == self.observer_label(),
    {
        self.obs_name.as_str()
    }

    /// Whether the latest run ended in a solved state; no state is no
    /// solution.
    pub fn is_interesting(&mut self, observer: &SokobanStateObserver) -> (interesting: bool)
        requires
            observer.wf(),
        ensures
            interesting == (observer.last().is_some() && observer.last().unwrap().solved()),
            final(self).label() == old(self).label(),
            final(self).observer_label() == old(self).observer_label(),
    {
        match observer.last_state() {
            Some(last_state) => last_state.in_solution_state(),
            None => false,
        }
    }
}

/// The corner heuristic: a state with a crate off the targets in a corner of
/// walls cannot be solved.
#[derive(Debug)]
pub struct SokobanSolvableFeedback {
    obs_name: String,
    name: String,
}

impl SokobanSolvableFeedback {
    /// The feedback's name.
    pub closed spec fn label(&self) -> Seq<char> {
        self.name@
    }

    /// The name of the observer that it reads.
    pub closed spec fn observer_label(&self) -> Seq<char> {
        self.obs_name@
    }

    pub fn new(obs: &SokobanStateObserver) -> (feedback: Self)
        ensures
            feedback.observer_label() == obs.label(),
            feedback.label() == "cornered_"@ + obs.label(),
    {
        SokobanSolvableFeedback {
            obs_name: obs.name().to_owned(),
            name: joined("cornered_", obs.name()),
        }
    }

    pub fn name(&self) -> (name: &str)
        ensures
            name@ == self.label(),
    {
        self.name.as_str()
    }

    /// The name of the observer that it reads.
    pub fn observer_name(&self) -> (name: &str)
        ensures
            name@ == self.observer_label(),
    {
        self.obs_name.as_str()
    }

    /// Whether the latest run ended in a state in which no crate off the
    /// targets stands in a corner of walls; no state is not interesting.
    pub fn is_interesting(&mut self, observer: &SokobanStateObserver) -> (interesting: bool)
        requires
            observer.wf(),
        ensures
            interesting == (observer.last().is_some()
                && observer.last().unwrap().free_of_corners()),
            final(self).label() == old(self).label(),
            final(self).observer_label() == old(self).observer_label(),
    {
        match observer.last_state() {
            Some(last_state) => {
                let crates = find_crates(last_state);
                let mut i: usize = 0;
                while i < crates.len()
                    invariant
                        observer.last() == Some(last_state@),
                        last_state@.shaped(),
                        0 <= i <= crates.len(),
                        forall|k: int| 0 <= k < crates@.len() ==> last_state@.crate_at(
                            #[trigger] crates@[k],
                        ),
                        forall|k: int|
                            0 <= k < i ==> last_state@.target_at(#[trigger] crates@[k])
                                || !last_state@.cornered(crates@[k]),
                    decreases crates.len() - i,
                {
                    let maybe_cornered = crates[i];
                    if !last_state.is_target(maybe_cornered) && corner_blocked(
                        maybe_cornered,
                        last_state,
                    ) {
                        assert(last_state@.crate_at(crates@[i as int]));
                        return false;
                    }
                    i += 1;
                }
                proof {
                    assert forall|pos: Position| #[trigger]
                        last_state@.crate_at(pos) && !last_state@.target_at(
                            pos,
                        ) implies !last_state@.cornered(pos) by {
                        assert(crates@.contains(pos));
                        let k = choose|k: int| 0 <= k < crates@.len() && crates@[k] == pos;
                        assert(last_state@.target_at(crates@[k]) || !last_state@.cornered(
                            crates@[k],
                        ));
                    }
                }
                true
            },
            None => false,
        }
    }
}

/// Keeps the records that the user is shown: the most targets covered at
/// once, and the longest input.
#[derive(Debug)]
pub struct SokobanStatisticsFeedback {
    most_set: usize,
    most_moves: usize,
    obs_name: String,
    name: String,
}

impl SokobanStatisticsFeedback {
    /// The feedback's name.
    pub closed spec fn label(&self) -> Seq<char> {
        self.name@
    }

    /// The name of the observer that it reads.
    pub closed spec fn observer_label(&self) -> Seq<char> {
        self.obs_name@
    }

    /// The most targets seen covered at once.
    pub closed spec fn record_set(&self) -> nat {
        self.most_set as nat
    }

    /// The length of the longest input seen.
    pub closed spec fn record_moves(&self) -> nat {
        self.most_moves as nat
    }

    pub fn new(obs: &SokobanStateObserver) -> (feedback: Self)
        ensures
            feedback.observer_label() == obs.label(),
            feedback.label() == "stats_"@ + obs.label(),
            feedback.record_set() == 0,
            feedback.record_moves() == 0,
    {
        SokobanStatisticsFeedback {
            most_set: 0,
            most_moves: 0,
            obs_name: obs.name().to_owned(),
            name: joined("stats_", obs.name()),
        }
    }

    pub fn name(&self) -> (name: &str)
        ensures
            name@ == self.label(),
    {
        self.name.as_str()
    }

    /// The name of the observer that it reads.
    pub fn observer_name(&self) -> (name: &str)
        ensures
            name@ == self.observer_label(),
    {
        self.obs_name.as_str()
    }

    /// The most targets seen covered at once.
    pub fn most_set(&self) -> (record: usize)
        ensures
            record == self.record_set(),
    {
        self.most_set
    }

    /// The length of the longest input seen.
    pub fn most_moves(&self) -> (record: usize)
        ensures
            record == self.record_moves(),
    {
        self.most_moves
    }

    /// Raises the records where the latest run beat them, and finds every
    /// run interesting. Without a state the records stay.
    pub fn is_interesting(&mut self, observer: &SokobanStateObserver, input: &SokobanInput) -> (interesting:
        bool)
        requires
            observer.wf(),
        ensures
            interesting,
            final(self).label() == old(self).label(),
            final(self).observer_label() == old(self).observer_label(),
            match observer.last() {
                Some(board) => final(self).record_set() == if board.covered() > old(self).record_set() {
                    board.covered()
                } else {
                    old(self).record_set()
                } && final(self).record_moves() == if input@.len() > old(self).record_moves() {
                    input@.len()
                } else {
                    old(self).record_moves()
                },
                None => final(self).record_set() == old(self).record_set() && final(self).record_moves() == old(self).record_moves(),
            },
    {
        match observer.last_state() {
            Some(last_state) => {
                let most_set = last_state.covered_targets();
                if most_set > self.most_set {
                    self.most_set = most_set;
                }
                if input.moves().len() > self.most_moves {
                    self.most_moves = input.moves().len();
                }
            },
            None => {},
        }
        true
    }
}

/// What a run publishes to an observer that was cleared before it: `held`
/// is what the slot held, `last` what the observer holds after the run.
pub open spec fn published(
    initial: Board,
    moves: Seq<Direction>,
    held: Option<Board>,
    last: Option<Board>,
) -> bool {
    match held {
        Some(state) => last == Some(state),
        None => last == initial.replay(moves),
    }
}

/// Every input that the corpus takes is legal: where the slot was empty or
/// held the replay of the input, and the corner feedback found the run
/// interesting, the input replays without an illegal move.
pub proof fn law_accepted_input_is_legal(
    initial: Board,
    moves: Seq<Direction>,
    held: Option<Board>,
    last: Option<Board>,
    interesting: bool,
)
    requires
        held.is_some() ==> initial.replay(moves) == held,
        published(initial, moves, held, last),
        interesting == (last.is_some() && last.unwrap().free_of_corners()),
        interesting,
    ensures
        initial.replay(moves).is_some(),
{
}

/// Every solution is solved: where the slot was empty or held the replay of
/// the input, and the objective found the run interesting, the input
/// replays to a state in which every target carries a crate.
pub proof fn law_solution_is_solved(
    initial: Board,
    moves: Seq<Direction>,
    held: Option<Board>,
    last: Option<Board>,
    interesting: bool,
)
    requires
        held.is_some() ==> initial.replay(moves) == held,
        published(initial, moves, held, last),
        interesting == (last.is_some() && last.unwrap().solved()),
        interesting,
    ensures
        initial.replay(moves).is_some(),
        initial.replay(moves).unwrap().solved(),
{
}

} // verus!
