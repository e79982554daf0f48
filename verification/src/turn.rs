//! The turn cycle: strict alternation between the human and the AI actor,
//! with a round counter that advances when control returns to the human.

use vstd::prelude::*;

verus! {

#[derive(Clone, Copy, PartialEq, Eq, Structural, Debug)]
pub enum PlayerKind {
    Human,
    AI,
}

/// Whose move it is, and the current round (starting at 1).
#[derive(Clone, Copy, PartialEq, Eq, Structural, Debug)]
pub struct Turn {
    pub player: PlayerKind,
    pub n: u32,
}

impl Turn {
    /// The sole transition: the human's commit hands control to the AI in
    /// the same round; the AI's commit returns it to the human and opens
    /// the next round.
    pub open spec fn spec_next(self) -> Turn {
        match self.player {
            PlayerKind::Human => Turn { player: PlayerKind::AI, n: self.n },
            PlayerKind::AI => Turn { player: PlayerKind::Human, n: (self.n + 1) as u32 },
        }
    }

    /// The game ends when the round counter reaches 14, after 13 rounds.
    pub open spec fn spec_is_terminal(self) -> bool {
        self.n == 14
    }

    pub fn is_terminal(&self) -> (r: bool)
        ensures
            r == self.spec_is_terminal(),
    {
        self.n == 14
    }

    /// Advances the cycle by one commit.
    pub fn next(&mut self)
        requires
            old(self).n < 0xffff_ffffu32,
        ensures
            *final(self) == old(self).spec_next(),
    {
        match self.player {
            PlayerKind::Human => {
                self.player = PlayerKind::AI;
            },
            PlayerKind::AI => {
                self.player = PlayerKind::Human;
                self.n = self.n + 1;
            },
        }
    }
}

impl Default for Turn {
    /// The initial state: the human moves first, in round 1.
    fn default() -> (t: Turn)
        ensures
            t == (Turn { player: PlayerKind::Human, n: 1u32 }),
    {
        Turn { player: PlayerKind::Human, n: 1 }
    }
}

/// The state after `k` full rounds (one human commit and one AI commit
/// each) from the initial state.
pub open spec fn spec_cycle(k: nat) -> Turn
    decreases k,
{
    if k == 0 {
        Turn { player: PlayerKind::Human, n: 1u32 }
    } else {
        spec_cycle((k - 1) as nat).spec_next().spec_next()
    }
}

/// Each transition hands control to the other actor, and the round number
/// advances exactly when the AI hands control back to the human.
pub proof fn lemma_turn_alternates(t: Turn)
    requires
        t.n < 0xffff_ffffu32,
    ensures
        t.spec_next().player != t.player,
        t.player == PlayerKind::Human ==> t.spec_next().n == t.n,
        t.player == PlayerKind::AI ==> t.spec_next().n == t.n + 1,
{
}

/// Whatever path the commits take, the cycle visits Human(1+k) after k full
/// rounds, and is terminal exactly after the 13th round.
pub proof fn lemma_turn_cycle(k: nat)
    requires
        k <= 13,
    ensures
        spec_cycle(k).player == PlayerKind::Human,
        spec_cycle(k).n == 1 + k,
        spec_cycle(k).spec_is_terminal() <==> k == 13,
    decreases k,
{
    if k > 0 {
        lemma_turn_cycle((k - 1) as nat);
    }
}

} // verus!
