//! The session aggregate: the turn cycle and one score book per actor.

use vstd::prelude::*;
use crate::book::PlayerData;
use crate::turn::{PlayerKind, Turn};

verus! {

/// The whole game's state, exclusively owned by the turn loop.
pub struct GameState {
    pub turn: Turn,
    pub player: PlayerData,
    pub ai: PlayerData,
}

impl GameState {
    pub open spec fn wf(&self) -> bool {
        &&& self.player.wf()
        &&& self.ai.wf()
    }
}

impl Default for GameState {
    /// A fresh session: the human opens round 1, both books empty.
    fn default() -> (g: GameState)
        ensures
            g.wf(),
            g.turn == (Turn { player: PlayerKind::Human, n: 1u32 }),
            g.player.score == 0,
            g.ai.score == 0,
            forall|i: int| 0 <= i < 13 ==> !(#[trigger] g.player.combinations_used@[i]),
            forall|i: int| 0 <= i < 13 ==> !(#[trigger] g.ai.combinations_used@[i]),
    {
        GameState {
            turn: Turn::default(),
            player: PlayerData::default(),
            ai: PlayerData::default(),
        }
    }
}

} // verus!
