//! The observer that holds the state of the latest run.

use vstd::prelude::*;
use crate::hash::{hash_sokoban_state, hashed_words};
use crate::puzzle::{Board, Puzzle};
use vstd::std_specs::hash::DefaultHasherAdditionalSpecFns;
use std::collections::hash_map::DefaultHasher;

verus! {

/// Holds the state that the latest run ended in.
#[derive(Debug)]
pub struct SokobanStateObserver {
    last_state: Option<Puzzle>,
    include_player: bool,
    name: String,
}

impl SokobanStateObserver {
    /// The state held, as a board.
    pub closed spec fn last(&self) -> Option<Board> {
        match self.last_state {
            Some(puzzle) => Some(puzzle@),
            None => None,
        }
    }

    /// Whether the player's position counts in the hash.
    pub closed spec fn counts_player(&self) -> bool {
        self.include_player
    }

    /// The observer's name.
    pub closed spec fn label(&self) -> Seq<char> {
        self.name@
    }

    /// The state held, if any, is valid.
    pub open spec fn wf(&self) -> bool {
        self.last().is_some() ==> self.last().unwrap().wf()
    }

    pub fn new(name: &str, include_player: bool) -> (observer: Self)
        ensures
            observer.last().is_none(),
            observer.counts_player() == include_player,
            observer.label() == name@,
            observer.wf(),
    {
        SokobanStateObserver { last_state: None, include_player, name: name.to_owned() }
    }

    pub fn name(&self) -> (name: &str)
        ensures
            name@ == self.label(),
    {
        self.name.as_str()
    }

    /// Whether the player's position counts in the hash.
    pub fn include_player(&self) -> (counts: bool)
        ensures
            counts == self.counts_player(),
    {
        self.include_player
    }

    /// Puts `state` in place of the state held, which is handed back.
    pub fn replace(&mut self, state: Puzzle) -> (previous: Option<Puzzle>)
        ensures
            final(self).last() == Some(state@),
            final(self).counts_player() == old(self).counts_player(),
            final(self).label() == old(self).label(),
            match previous {
                Some(puzzle) => old(self).last() == Some(puzzle@),
                None => old(self).last().is_none(),
            },
    {
        let previous = self.last_state.take();
        self.last_state = Some(state);
        previous
    }

    pub fn last_state(&self) -> (state: Option<&Puzzle>)
        ensures
            match state {
                Some(puzzle) => self.last() == Some(puzzle@),
                None => self.last().is_none(),
            },
    {
        self.last_state.as_ref()
    }

    /// Forgets the state held.
    pub fn flush(&mut self)
        ensures
            final(self).last().is_none(),
            final(self).counts_player() == old(self).counts_player(),
            final(self).label() == old(self).label(),
    {
        self.last_state = None;
    }

    /// Forgets the state held: called before every run.
    pub fn pre_exec(&mut self)
        ensures
            final(self).last().is_none(),
            final(self).counts_player() == old(self).counts_player(),
            final(self).label() == old(self).label(),
    {
        self.last_state = None;
    }

    /// The hash of the state held, if any.
    pub fn hash(&self) -> (hash: Option<u64>)
        requires
            self.wf(),
        ensures
            match self.last() {
                Some(board) => hash == Some(
                    DefaultHasher::spec_finish(hashed_words(board, self.counts_player())),
                ),
                None => hash.is_none(),
            },
    {
        match &self.last_state {
            Some(state) => Some(hash_sokoban_state(state, self.include_player)),
            None => None,
        }
    }
}

/// A collection of observers that holds a state observer and can name it.
pub trait SokobanObserversTuple {
    /// The name of the state observer.
    spec fn observer_label(&self) -> Seq<char>;

    fn sokoban_observer_name(&self) -> (name: &str)
        ensures
            name@ == self.observer_label(),
    ;
}

impl<OT> SokobanObserversTuple for (SokobanStateObserver, OT) {
    open spec fn observer_label(&self) -> Seq<char> {
        self.0.label()
    }

    fn sokoban_observer_name(&self) -> (name: &str) {
        self.0.name()
    }
}

} // verus!
