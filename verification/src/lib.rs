//! A verified core for a two-player Yahtzee session: the scoring engine,
//! per-player score book, turn cycle, human roll protocol, greedy AI policy,
//! and the persisted ranking list. The terminal rendering and input shell
//! around this core lives outside the library.

use vstd::prelude::*;

pub mod ai;
pub mod book;
pub mod game;
pub mod ranking;
pub mod roll;
pub mod score;
pub mod turn;

verus! {

/// The failure taxonomy of the game core.
#[derive(Clone, Copy, PartialEq, Eq, Structural, Debug)]
pub enum YahtzeeError {
    /// The scoring engine was given other than five dice in 1..=6.
    InvalidInput,
    /// A commit was requested for an already-used category.
    InvariantViolation,
    /// The ranking destination could not be opened for writing.
    StorageUnavailable,
    /// A ranking record did not parse as `name:integer`.
    MalformedRecord,
}

} // verus!
