//! What the solver keeps beside the corpus: the initial puzzle, and the slot
//! that hands the latest state from a mutation stage to the next run.

use vstd::prelude::*;
use crate::puzzle::Puzzle;

verus! {

/// The puzzle from which every input is replayed.
#[derive(Debug)]
pub struct InitialPuzzleMetadata {
    pub initial: Puzzle,
}

impl InitialPuzzleMetadata {
    pub fn new(initial: Puzzle) -> (metadata: Self)
        ensures
            metadata.initial == initial,
    {
        InitialPuzzleMetadata { initial }
    }

    pub fn initial(&self) -> (initial: &Puzzle)
        ensures
            *initial == self.initial,
    {
        &self.initial
    }
}

/// A slot for one state: filled at the end of a mutation stage, emptied by
/// the run that follows.
#[derive(Debug)]
pub struct LastHallucinationMetadata {
    pub hallucination: Option<Puzzle>,
}

impl Default for LastHallucinationMetadata {
    fn default() -> (metadata: Self)
        ensures
            metadata.hallucination.is_none(),
    {
        LastHallucinationMetadata { hallucination: None }
    }
}

impl LastHallucinationMetadata {
    pub fn hallucination_mut(&mut self) -> (slot: &mut Option<Puzzle>)
        ensures
            *slot == old(self).hallucination,
            final(self).hallucination == *final(slot),
    {
        &mut self.hallucination
    }
}

} // verus!
