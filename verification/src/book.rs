//! The per-player score book: committed category scores, used flags, the
//! running total, and the one-time upper-section bonus.

use vstd::prelude::*;

verus! {

/// The sum of a sequence of byte-sized scores.
pub open spec fn sum_u8(s: Seq<u8>) -> int
    decreases s.len(),
{
    if s.len() == 0 {
        0
    } else {
        sum_u8(s.drop_last()) + s.last()
    }
}

pub proof fn lemma_sum_u8_bounds(s: Seq<u8>)
    ensures
        0 <= sum_u8(s) <= 255 * s.len(),
    decreases s.len(),
{
    if s.len() > 0 {
        lemma_sum_u8_bounds(s.drop_last());
    }
}

pub proof fn lemma_sum_u8_update(s: Seq<u8>, i: int, v: u8)
    requires
        0 <= i < s.len(),
    ensures
        sum_u8(s.update(i, v)) == sum_u8(s) - s[i] + v,
    decreases s.len(),
{
    if i == s.len() - 1 {
        assert(s.update(i, v).drop_last() =~= s.drop_last());
    } else {
        assert(s.update(i, v).drop_last() =~= s.drop_last().update(i, v));
        lemma_sum_u8_update(s.drop_last(), i, v);
    }
}

pub proof fn lemma_sum_u8_zero(s: Seq<u8>)
    requires
        forall|i: int| 0 <= i < s.len() ==> #[trigger] s[i] == 0,
    ensures
        sum_u8(s) == 0,
    decreases s.len(),
{
    if s.len() > 0 {
        lemma_sum_u8_zero(s.drop_last());
    }
}

/// One actor's record of committed scores. A category's score is written
/// once, through `add_score`, and its used flag never reverts.
pub struct PlayerData {
    pub score: i32,
    pub combinations_scores: Vec<u8>,
    pub combinations_used: Vec<bool>,
    pub got_upper_bonus: bool,
}

impl PlayerData {
    /// Sum of the committed upper-section scores (indices 0-5).
    pub open spec fn spec_upper_sum(&self) -> int {
        sum_u8(self.combinations_scores@.take(6))
    }

    /// Well-formedness: 13 entries in each table, uncommitted categories
    /// score 0, the total equals the sum of the committed scores plus at
    /// most one 35-point bonus, and the bonus implies an upper total of 63.
    pub open spec fn wf(&self) -> bool {
        &&& self.combinations_scores@.len() == 13
        &&& self.combinations_used@.len() == 13
        &&& forall|i: int|
            0 <= i < 13 && !(#[trigger] self.combinations_used@[i])
                ==> self.combinations_scores@[i] == 0
        &&& self.score as int == sum_u8(self.combinations_scores@) + if self.got_upper_bonus {
            35int
        } else {
            0int
        }
        &&& self.got_upper_bonus ==> self.spec_upper_sum() >= 63
    }

    /// Whether the category at `index` has already been committed.
    pub fn has_used(&self, index: usize) -> (r: bool)
        requires
            self.wf(),
            index < 13,
        ensures
            r == self.combinations_used@[index as int],
    {
        self.combinations_used[index]
    }

    /// The upper-section total committed so far.
    pub fn upper_sum(&self) -> (r: i32)
        requires
            self.combinations_scores@.len() == 13,
        ensures
            r == self.spec_upper_sum(),
    {
        let mut total: i32 = 0;
        let mut i: usize = 0;
        while i < 6
            invariant
                self.combinations_scores@.len() == 13,
                i <= 6,
                total == sum_u8(self.combinations_scores@.take(i as int)),
                0 <= total <= 255 * i,
            decreases 6 - i,
        {
            proof {
                assert(self.combinations_scores@.take(i as int + 1).drop_last()
                    =~= self.combinations_scores@.take(i as int));
            }
            total = total + self.combinations_scores[i] as i32;
            i += 1;
        }
        total
    }

    /// Commits `score` into the unused category at `index`: the score is
    /// recorded, the category is marked used, the total grows by the score,
    /// and the 35-point bonus is granted exactly when this is an
    /// upper-section commit that first brings the upper total to 63.
    pub fn add_score(&mut self, index: usize, score: u8)
        requires
            old(self).wf(),
            index < 13,
            !old(self).combinations_used@[index as int],
        ensures
            final(self).wf(),
            committed(*old(self), *final(self), index as int, score),
    {
        proof {
            lemma_sum_u8_bounds(self.combinations_scores@);
            lemma_sum_u8_update(self.combinations_scores@, index as int, score);
            if index < 6 {
                assert(self.combinations_scores@.update(index as int, score).take(6)
                    =~= self.combinations_scores@.take(6).update(index as int, score));
                lemma_sum_u8_update(self.combinations_scores@.take(6), index as int, score);
            } else {
                assert(self.combinations_scores@.update(index as int, score).take(6)
                    =~= self.combinations_scores@.take(6));
            }
            lemma_sum_u8_bounds(self.combinations_scores@.take(6));
        }
        self.combinations_scores[index] = score;
        self.combinations_used[index] = true;
        self.score = self.score + score as i32;
        if !self.got_upper_bonus && index <= 5 && self.upper_sum() >= 63 {
            self.score = self.score + 35;
            self.got_upper_bonus = true;
        }
    }
}

/// How one commit relates a score book before and after: write-once at
/// `index`, everything else untouched, and the exact bonus transition.
pub open spec fn committed(pre: PlayerData, post: PlayerData, index: int, score: u8) -> bool {
    &&& post.combinations_scores@ == pre.combinations_scores@.update(index, score)
    &&& post.combinations_used@ == pre.combinations_used@.update(index, true)
    &&& post.got_upper_bonus == (pre.got_upper_bonus || (index < 6 && post.spec_upper_sum()
        >= 63))
    &&& post.score == pre.score + score + if post.got_upper_bonus && !pre.got_upper_bonus {
        35int
    } else {
        0int
    }
}

/// The upper-section bonus never reverts, is granted exactly by an
/// upper-section commit that brings the upper total to 63 or more, and pays
/// its 35 points exactly once, at that transition.
pub proof fn lemma_upper_bonus_transition(pre: PlayerData, post: PlayerData, index: int, score: u8)
    requires
        pre.wf(),
        post.wf(),
        0 <= index < 13,
        committed(pre, post, index, score),
    ensures
        pre.got_upper_bonus ==> post.got_upper_bonus,
        (!pre.got_upper_bonus && post.got_upper_bonus) <==> (!pre.got_upper_bonus && index < 6
            && post.spec_upper_sum() >= 63),
        post.score == pre.score + score + if !pre.got_upper_bonus && post.got_upper_bonus {
            35int
        } else {
            0int
        },
{
}

impl Default for PlayerData {
    /// A fresh book: nothing committed, total 0, no bonus.
    fn default() -> (d: PlayerData)
        ensures
            d.wf(),
            d.score == 0,
            !d.got_upper_bonus,
            forall|i: int| 0 <= i < 13 ==> !(#[trigger] d.combinations_used@[i]),
            forall|i: int| 0 <= i < 13 ==> #[trigger] d.combinations_scores@[i] == 0,
    {
        let scores: Vec<u8> = vec![0, 0, 0, 0, 0, 0, 0, 0, 0, 0, 0, 0, 0];
        let used: Vec<bool> = vec![
            false, false, false, false, false, false, false, false, false, false, false, false,
            false,
        ];
        proof {
            lemma_sum_u8_zero(scores@);
            lemma_sum_u8_zero(scores@.take(6));
        }
        PlayerData { score: 0, combinations_scores: scores, combinations_used: used, got_upper_bonus: false }
    }
}

} // verus!
