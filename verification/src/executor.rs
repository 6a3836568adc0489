//! The executor: replays an input and publishes the state it ends in.

use vstd::prelude::*;
use crate::input::SokobanInput;
use crate::observer::{SokobanObserversTuple, SokobanStateObserver};
use crate::puzzle::{Board, Puzzle};
use crate::state::LastHallucinationMetadata;

verus! {

/// How a run ended.
#[derive(Clone, Copy, Debug, PartialEq, Eq, Structural)]
pub enum ExitKind {
    /// Every move was legal.
    Normal,
    /// Some move was illegal.
    Crash,
}

/// Replays inputs on the initial puzzle.
#[derive(Debug)]
pub struct SokobanExecutor {
    initial: Puzzle,
    state_observer_name: String,
}

impl SokobanExecutor {
    /// The initial puzzle, as a board.
    pub closed spec fn start(&self) -> Board {
        self.initial@
    }

    /// The name of the state observer that the runs publish to.
    pub closed spec fn observer_label(&self) -> Seq<char> {
        self.state_observer_name@
    }

    pub fn new<OT: SokobanObserversTuple>(initial: Puzzle, observers: &OT) -> (executor: Self)
        ensures
            executor.start() == initial@,
            executor.observer_label() == observers.observer_label(),
    {
        SokobanExecutor {
            initial,
            state_observer_name: observers.sokoban_observer_name().to_owned(),
        }
    }

    /// The name of the state observer that the runs publish to.
    pub fn state_observer_name(&self) -> (name: &str)
        ensures
            name@ == self.observer_label(),
    {
        self.state_observer_name.as_str()
    }

    /// Whether the state in the slot, if there is one, is the state that the
    /// input leads to.
    pub fn hallucination_holds(&self, slot: &LastHallucinationMetadata, input: &SokobanInput) -> (holds:
        bool)
        requires
            self.start().wf(),
        ensures
            holds == match slot.hallucination {
                Some(held) => self.start().replay(input@) == Some(held@),
                None => true,
            },
    {
        match &slot.hallucination {
            Some(held) => match self.initial.replay(input.move_list()) {
                Some(end) => end.same_state(held),
                None => false,
            },
            None => true,
        }
    }

    /// One run. The slot is emptied; a state found in it is taken for the
    /// state that the input leads to, else the input is replayed on the
    /// initial puzzle. The state is published to the observer. An illegal
    /// move makes the run a crash and leaves the observer as it was.
    pub fn run_target(
        &self,
        slot: &mut LastHallucinationMetadata,
        observer: &mut SokobanStateObserver,
        input: &SokobanInput,
    ) -> (kind: ExitKind)
        requires
            self.start().wf(),
        ensures
            final(slot).hallucination.is_none(),
            final(observer).counts_player() == old(observer).counts_player(),
            final(observer).label() == old(observer).label(),
            match old(slot).hallucination {
                Some(held) => kind == ExitKind::Normal && final(observer).last() == Some(held@),
                None => match self.start().replay(input@) {
                    Some(end) => kind == ExitKind::Normal && final(observer).last() == Some(end),
                    None => kind == ExitKind::Crash && final(observer).last() == old(observer).last(),
                },
            },
    {
        let hallucinated = slot.hallucination.take();
        let current = match hallucinated {
            Some(held) => Some(held),
            None => self.initial.replay(input.move_list()),
        };
        match current {
            Some(state) => {
                observer.replace(state);
                ExitKind::Normal
            },
            None => ExitKind::Crash,
        }
    }
}

} // verus!
