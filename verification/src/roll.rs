//! The human turn's roll protocol: five dice, a hold mask, up to two
//! rerolls, and the commit that ends the turn.

use vstd::prelude::*;
use rand::Rng;
use crate::YahtzeeError;
use crate::book::{PlayerData, committed};
use crate::score::{calculate_scores, dice_valid, scores_match, spec_score};

verus! {

/// Relies on rand: `thread_rng().gen_range(1..=6)` draws a value from that
/// range, and panics only on an empty range, which 1..=6 is not.
#[verifier::external_body]
fn roll_die() -> (r: u8)
    ensures
        1 <= r <= 6,
{
    rand::thread_rng().gen_range(1..=6)
}

/// Replaces each die whose index is listed in `to_randomize` with a fresh
/// random face; every other die keeps its value.
pub fn randomize_dice(dice: &mut Vec<u8>, to_randomize: &Vec<u8>)
    requires
        old(dice)@.len() == 5,
        forall|i: int| 0 <= i < to_randomize@.len() ==> #[trigger] to_randomize@[i] < 5,
    ensures
        final(dice)@.len() == 5,
        forall|j: int|
            0 <= j < 5 && to_randomize@.contains(j as u8) ==> 1 <= #[trigger] final(dice)@[j]
                <= 6,
        forall|j: int|
            0 <= j < 5 && !to_randomize@.contains(j as u8) ==> #[trigger] final(dice)@[j] == old(
                dice,
            )@[j],
{
    let ghost orig = dice@;
    let mut i: usize = 0;
    while i < to_randomize.len()
        invariant
            dice@.len() == 5,
            i <= to_randomize@.len(),
            forall|k: int| 0 <= k < to_randomize@.len() ==> #[trigger] to_randomize@[k] < 5,
            forall|j: int|
                0 <= j < 5 && to_randomize@.take(i as int).contains(j as u8) ==> 1
                    <= #[trigger] dice@[j] <= 6,
            forall|j: int|
                0 <= j < 5 && !to_randomize@.take(i as int).contains(j as u8)
                    ==> #[trigger] dice@[j] == orig[j],
        decreases to_randomize@.len() - i,
    {
        let idx = to_randomize[i] as usize;
        dice[idx] = roll_die();
        proof {
            assert(to_randomize@.take(i as int + 1) =~= to_randomize@.take(i as int).push(
                to_randomize@[i as int],
            ));
            assert forall|j: int|
                0 <= j < 5 && to_randomize@.take(i as int + 1).contains(j as u8) implies 1
                <= #[trigger] dice@[j] <= 6 by {
                if j != idx {
                    let w = choose|w: int|
                        0 <= w < to_randomize@.take(i as int + 1).len() && (
                        #[trigger] to_randomize@.take(i as int + 1)[w]) == j as u8;
                    assert(to_randomize@.take(i as int)[w] == j as u8);
                }
            }
            assert forall|j: int|
                0 <= j < 5 && !to_randomize@.take(i as int + 1).contains(j as u8)
                implies #[trigger] dice@[j] == orig[j] by {
                assert(to_randomize@.take(i as int + 1)[i as int] == to_randomize@[i as int]);
                assert(!to_randomize@.take(i as int).contains(j as u8));
            }
        }
        i += 1;
    }
    proof {
        assert(to_randomize@.take(to_randomize@.len() as int) =~= to_randomize@);
    }
}

/// The sub-state of one human turn: the current dice, which of them are
/// held, how many rerolls remain, and the category previews for the dice.
pub struct RollState {
    pub dice: Vec<u8>,
    pub chosen: Vec<bool>,
    pub rolls_left: u8,
    pub scores: Vec<u8>,
}

impl RollState {
    /// Validity: five dice in 1..=6, a five-entry hold mask, at most two
    /// rerolls left, and previews that match the dice.
    pub open spec fn wf(&self) -> bool {
        &&& dice_valid(self.dice@)
        &&& self.chosen@.len() == 5
        &&& self.rolls_left <= 2
        &&& scores_match(self.dice@, self.scores@)
    }

    /// Enters a human turn: rolls all five dice, two rerolls available,
    /// nothing held.
    pub fn new() -> (r: RollState)
        ensures
            r.wf(),
            r.rolls_left == 2,
            forall|i: int| 0 <= i < 5 ==> !(#[trigger] r.chosen@[i]),
    {
        let mut dice: Vec<u8> = vec![1, 1, 1, 1, 1];
        let all: Vec<u8> = vec![0, 1, 2, 3, 4];
        randomize_dice(&mut dice, &all);
        let scores = match calculate_scores(dice.as_slice()) {
            Ok(s) => s,
            Err(_) => unreached(),
        };
        RollState {
            dice,
            chosen: vec![false, false, false, false, false],
            rolls_left: 2,
            scores,
        }
    }

    /// Flips the hold mark of one die while rerolls remain; once none are
    /// left the action is void.
    pub fn toggle_hold(&mut self, die_index: usize)
        requires
            old(self).wf(),
            die_index < 5,
        ensures
            final(self).wf(),
            final(self).dice == old(self).dice,
            final(self).scores == old(self).scores,
            final(self).rolls_left == old(self).rolls_left,
            old(self).rolls_left > 0 ==> final(self).chosen@ == old(self).chosen@.update(
                die_index as int,
                !old(self).chosen@[die_index as int],
            ),
            old(self).rolls_left == 0 ==> final(self).chosen == old(self).chosen,
    {
        if self.rolls_left > 0 {
            let cur = self.chosen[die_index];
            self.chosen[die_index] = !cur;
        }
    }

    /// Rerolls every unheld die, recomputes the previews, and spends one
    /// reroll.
    pub fn reroll(&mut self)
        requires
            old(self).wf(),
            old(self).rolls_left > 0,
        ensures
            final(self).wf(),
            final(self).rolls_left == old(self).rolls_left - 1,
            final(self).chosen == old(self).chosen,
            forall|i: int|
                0 <= i < 5 && old(self).chosen@[i] ==> #[trigger] final(self).dice@[i] == old(
                    self,
                ).dice@[i],
    {
        let mut to_randomize: Vec<u8> = Vec::new();
        let mut i: usize = 0;
        while i < 5
            invariant
                self.chosen@.len() == 5,
                i <= 5,
                forall|k: int|
                    0 <= k < to_randomize@.len() ==> #[trigger] to_randomize@[k] < i,
                forall|j: u8| to_randomize@.contains(j) ==> !self.chosen@[j as int],
                forall|j: int|
                    0 <= j < i && !self.chosen@[j] ==> to_randomize@.contains(j as u8),
            decreases 5 - i,
        {
            if !self.chosen[i] {
                let ghost pre = to_randomize@;
                to_randomize.push(i as u8);
                proof {
                    assert forall|j: u8|
                        to_randomize@.contains(j) implies !self.chosen@[j as int] by {
                        let w = choose|w: int|
                            0 <= w < to_randomize@.len() && (#[trigger] to_randomize@[w]) == j;
                        if w < pre.len() {
                            assert(pre[w] == j);
                            assert(pre.contains(j));
                        }
                    }
                    assert forall|j: int|
                        0 <= j < i + 1 && !self.chosen@[j] implies to_randomize@.contains(
                        j as u8,
                    ) by {
                        if j < i {
                            let w = choose|w: int|
                                0 <= w < pre.len() && (#[trigger] pre[w]) == j as u8;
                            assert(to_randomize@[w] == j as u8);
                        } else {
                            assert(to_randomize@[pre.len() as int] == i as u8);
                        }
                    }
                }
            }
            i += 1;
        }
        randomize_dice(&mut self.dice, &to_randomize);
        let scores = match calculate_scores(self.dice.as_slice()) {
            Ok(s) => s,
            Err(_) => unreached(),
        };
        self.scores = scores;
        self.rolls_left = self.rolls_left - 1;
    }

    /// Ends the turn by committing the previewed score of the chosen
    /// category; a category already used is rejected with no state change,
    /// and the human may pick again.
    pub fn commit(&self, book: &mut PlayerData, index: usize) -> (r: Result<
        u8,
        YahtzeeError,
    >)
        requires
            self.wf(),
            old(book).wf(),
            index < 13,
        ensures
            final(book).wf(),
            match r {
                Ok(points) => !old(book).combinations_used@[index as int] && points as int
                    == spec_score(self.dice@, index as int) && committed(
                    *old(book),
                    *final(book),
                    index as int,
                    points,
                ),
                Err(e) => e == YahtzeeError::InvariantViolation
                    && old(book).combinations_used@[index as int] && *final(book) == *old(book),
            },
    {
        if book.has_used(index) {
            return Err(YahtzeeError::InvariantViolation);
        }
        let points = self.scores[index];
        book.add_score(index, points);
        Ok(points)
    }
}

} // verus!
