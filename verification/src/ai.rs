//! The AI's category policy: greedy over one roll, committing the unused
//! category with the highest preview, lowest index on ties.

use vstd::prelude::*;
use crate::book::{PlayerData, committed};
use crate::roll::randomize_dice;
use crate::score::{calculate_scores, dice_valid, spec_score};

verus! {

/// Picks the unused category with the maximum previewed score; ties go to
/// the lowest category index.
pub fn ai_choice(ai: &PlayerData, scores: &[u8]) -> (r: usize)
    requires
        ai.wf(),
        scores@.len() == 13,
        exists|i: int| 0 <= i < 13 && !(#[trigger] ai.combinations_used@[i]),
    ensures
        r < 13,
        !ai.combinations_used@[r as int],
        forall|i: int|
            0 <= i < 13 && !(#[trigger] ai.combinations_used@[i])
                ==> scores@[i] <= scores@[r as int],
        forall|i: int|
            0 <= i < 13 && !(#[trigger] ai.combinations_used@[i])
                && scores@[i] == scores@[r as int] ==> r <= i,
{
    let mut best: usize = 13;
    let mut i: usize = 0;
    while i < 13
        invariant
            ai.wf(),
            scores@.len() == 13,
            i <= 13,
            best <= 13,
            best == 13 ==> forall|j: int| 0 <= j < i ==> #[trigger] ai.combinations_used@[j],
            best < 13 ==> best < i && !ai.combinations_used@[best as int] && (forall|j: int|
                0 <= j < i && !(#[trigger] ai.combinations_used@[j])
                    ==> scores@[j] <= scores@[best as int]) && (forall|j: int|
                0 <= j < i && !(#[trigger] ai.combinations_used@[j])
                    && scores@[j] == scores@[best as int] ==> best <= j),
        decreases 13 - i,
    {
        if !ai.has_used(i) {
            if best == 13 || scores[i] > scores[best] {
                best = i;
            }
        }
        i += 1;
    }
    proof {
        if best == 13 {
            let w = choose|w: int| 0 <= w < 13 && !(#[trigger] ai.combinations_used@[w]);
            assert(ai.combinations_used@[w]);
        }
    }
    best
}

/// One full AI turn on the score book: roll five dice, preview the
/// categories, choose greedily among the unused ones, and commit. Returns
/// the rolled dice, the chosen category index, and the points scored, for
/// the caller to narrate.
pub fn ai_turn(book: &mut PlayerData) -> (r: (Vec<u8>, usize, u8))
    requires
        old(book).wf(),
        exists|i: int| 0 <= i < 13 && !(#[trigger] old(book).combinations_used@[i]),
    ensures
        final(book).wf(),
        dice_valid(r.0@),
        r.1 < 13,
        !old(book).combinations_used@[r.1 as int],
        r.2 as int == spec_score(r.0@, r.1 as int),
        forall|i: int|
            0 <= i < 13 && !(#[trigger] old(book).combinations_used@[i]) ==> spec_score(r.0@, i)
                <= r.2,
        forall|i: int|
            0 <= i < 13 && !(#[trigger] old(book).combinations_used@[i]) && spec_score(r.0@, i)
                == r.2 ==> r.1 <= i,
        committed(*old(book), *final(book), r.1 as int, r.2),
{
    let mut dice: Vec<u8> = vec![1, 1, 1, 1, 1];
    let all: Vec<u8> = vec![0, 1, 2, 3, 4];
    randomize_dice(&mut dice, &all);
    let scores = match calculate_scores(dice.as_slice()) {
        Ok(s) => s,
        Err(_) => unreached(),
    };
    let choice = ai_choice(book, scores.as_slice());
    let points = scores[choice];
    book.add_score(choice, points);
    (dice, choice, points)
}

} // verus!
