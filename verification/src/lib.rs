//! A mutation-driven Sokoban solver core: path searches, replay, mutators and
//! corpus scheduling over a plain-value model of the puzzle.

pub mod grid;
pub mod puzzle;
pub mod walk;
pub mod push;
pub mod input;
pub mod random;
pub mod mutators;
pub mod preference;
pub mod hash;
pub mod state;
pub mod observer;
pub mod executor;
pub mod feedback;
pub mod scheduler;
pub mod parse;
