//! The scoring engine: from five dice faces to the 13 category scores
//! achievable with that roll.

use vstd::prelude::*;
use crate::YahtzeeError;

verus! {

/// The 13 scoring combinations, in board order: the upper section
/// (face-valued categories, indices 0-5) followed by the lower section.
#[derive(Clone, Copy, PartialEq, Eq, Structural, Debug)]
pub enum Combinations {
    Aces,
    Twos,
    Threes,
    Fours,
    Fives,
    Sixes,
    ThreeOfAKind,
    FourOfAKind,
    FullHouse,
    SmallStraight,
    LargeStraight,
    Yahtzee,
    Chance,
}

impl Combinations {
    pub open spec fn spec_index(&self) -> int {
        match self {
            Combinations::Aces => 0,
            Combinations::Twos => 1,
            Combinations::Threes => 2,
            Combinations::Fours => 3,
            Combinations::Fives => 4,
            Combinations::Sixes => 5,
            Combinations::ThreeOfAKind => 6,
            Combinations::FourOfAKind => 7,
            Combinations::FullHouse => 8,
            Combinations::SmallStraight => 9,
            Combinations::LargeStraight => 10,
            Combinations::Yahtzee => 11,
            Combinations::Chance => 12,
        }
    }

    /// Index of this combination in the 13-entry score tables, `Aces` first.
    pub fn index(&self) -> (i: usize)
        ensures
            i < 13,
            i == self.spec_index(),
    {
        match self {
            Combinations::Aces => 0,
            Combinations::Twos => 1,
            Combinations::Threes => 2,
            Combinations::Fours => 3,
            Combinations::Fives => 4,
            Combinations::Sixes => 5,
            Combinations::ThreeOfAKind => 6,
            Combinations::FourOfAKind => 7,
            Combinations::FullHouse => 8,
            Combinations::SmallStraight => 9,
            Combinations::LargeStraight => 10,
            Combinations::Yahtzee => 11,
            Combinations::Chance => 12,
        }
    }

    /// The combination at a given table index.
    pub fn from_index(i: usize) -> (c: Combinations)
        requires
            i < 13,
        ensures
            c.spec_index() == i,
    {
        match i {
            0 => Combinations::Aces,
            1 => Combinations::Twos,
            2 => Combinations::Threes,
            3 => Combinations::Fours,
            4 => Combinations::Fives,
            5 => Combinations::Sixes,
            6 => Combinations::ThreeOfAKind,
            7 => Combinations::FourOfAKind,
            8 => Combinations::FullHouse,
            9 => Combinations::SmallStraight,
            10 => Combinations::LargeStraight,
            11 => Combinations::Yahtzee,
            _ => Combinations::Chance,
        }
    }
}

/// A roll is valid when it has exactly five dice, each showing a face 1..=6.
pub open spec fn dice_valid(d: Seq<u8>) -> bool {
    &&& d.len() == 5
    &&& forall|i: int| 0 <= i < d.len() ==> 1 <= #[trigger] d[i] <= 6
}

/// How many of the dice show face `f`.
pub open spec fn count_face(d: Seq<u8>, f: u8) -> nat
    decreases d.len(),
{
    if d.len() == 0 {
        0
    } else {
        count_face(d.drop_last(), f) + if d.last() == f {
            1nat
        } else {
            0nat
        }
    }
}

/// The sum of all dice faces.
pub open spec fn dice_sum(d: Seq<u8>) -> int
    decreases d.len(),
{
    if d.len() == 0 {
        0
    } else {
        dice_sum(d.drop_last()) + d.last()
    }
}

/// Some face occurs at least `n` times.
pub open spec fn has_count_at_least(d: Seq<u8>, n: nat) -> bool {
    exists|f: u8| 1 <= f <= 6 && #[trigger] count_face(d, f) >= n
}

/// One face with exactly three dice and a different face with exactly two.
pub open spec fn is_full_house(d: Seq<u8>) -> bool {
    exists|f: u8, g: u8|
        1 <= f <= 6 && 1 <= g <= 6 && f != g && #[trigger] count_face(d, f) == 3
            && #[trigger] count_face(d, g) == 2
}

/// At least one die shows face `f`.
pub open spec fn face_present(d: Seq<u8>, f: u8) -> bool {
    count_face(d, f) >= 1
}

/// Four consecutive faces are all present.
pub open spec fn has_small_straight(d: Seq<u8>) -> bool {
    ||| face_present(d, 1) && face_present(d, 2) && face_present(d, 3) && face_present(d, 4)
    ||| face_present(d, 2) && face_present(d, 3) && face_present(d, 4) && face_present(d, 5)
    ||| face_present(d, 3) && face_present(d, 4) && face_present(d, 5) && face_present(d, 6)
}

/// Five consecutive faces are all present.
pub open spec fn has_large_straight(d: Seq<u8>) -> bool {
    ||| face_present(d, 1) && face_present(d, 2) && face_present(d, 3) && face_present(d, 4)
        && face_present(d, 5)
    ||| face_present(d, 2) && face_present(d, 3) && face_present(d, 4) && face_present(d, 5)
        && face_present(d, 6)
}

/// The score of category `i` (in board order) for a valid roll `d`.
pub open spec fn spec_score(d: Seq<u8>, i: int) -> int {
    if 0 <= i < 6 {
        count_face(d, (i + 1) as u8) * (i + 1)
    } else if i == 6 {
        if has_count_at_least(d, 3) {
            dice_sum(d)
        } else {
            0
        }
    } else if i == 7 {
        if has_count_at_least(d, 4) {
            dice_sum(d)
        } else {
            0
        }
    } else if i == 8 {
        if is_full_house(d) {
            25
        } else {
            0
        }
    } else if i == 9 {
        if has_small_straight(d) {
            30
        } else {
            0
        }
    } else if i == 10 {
        if has_large_straight(d) {
            40
        } else {
            0
        }
    } else if i == 11 {
        if has_count_at_least(d, 5) {
            50
        } else {
            0
        }
    } else if i == 12 {
        dice_sum(d)
    } else {
        0
    }
}

/// The 13 scores are what `calculate_scores` returns for the roll `d`.
pub open spec fn scores_match(d: Seq<u8>, s: Seq<u8>) -> bool {
    &&& s.len() == 13
    &&& forall|i: int| 0 <= i < 13 ==> #[trigger] s[i] as int == spec_score(d, i)
}

pub proof fn lemma_count_le_len(d: Seq<u8>, f: u8)
    ensures
        count_face(d, f) <= d.len(),
    decreases d.len(),
{
    if d.len() > 0 {
        lemma_count_le_len(d.drop_last(), f);
    }
}

pub proof fn lemma_dice_sum_bounds(d: Seq<u8>)
    requires
        forall|i: int| 0 <= i < d.len() ==> 1 <= #[trigger] d[i] <= 6,
    ensures
        d.len() <= dice_sum(d) <= 6 * d.len(),
    decreases d.len(),
{
    if d.len() > 0 {
        assert(forall|i: int|
            0 <= i < d.drop_last().len() ==> 1 <= #[trigger] d.drop_last()[i] <= 6);
        lemma_dice_sum_bounds(d.drop_last());
    }
}

proof fn lemma_count_face_drop_last_valid(d: Seq<u8>)
    requires
        d.len() > 0,
        forall|i: int| 0 <= i < d.len() ==> 1 <= #[trigger] d[i] <= 6,
    ensures
        forall|i: int| 0 <= i < d.drop_last().len() ==> 1 <= #[trigger] d.drop_last()[i] <= 6,
{
    assert forall|i: int|
        0 <= i < d.drop_last().len() implies 1 <= #[trigger] d.drop_last()[i] <= 6 by {
        assert(d.drop_last()[i] == d[i]);
    }
}

/// Every die shows exactly one face, so the six face counts add up to the
/// number of dice.
pub proof fn lemma_count_face_total(d: Seq<u8>)
    requires
        forall|i: int| 0 <= i < d.len() ==> 1 <= #[trigger] d[i] <= 6,
    ensures
        count_face(d, 1) + count_face(d, 2) + count_face(d, 3) + count_face(d, 4) + count_face(
            d,
            5,
        ) + count_face(d, 6) == d.len(),
    decreases d.len(),
{
    if d.len() > 0 {
        lemma_count_face_drop_last_valid(d);
        lemma_count_face_total(d.drop_last());
    }
}

proof fn lemma_count_face_all(d: Seq<u8>, f: u8)
    requires
        count_face(d, f) == d.len(),
    ensures
        forall|i: int| 0 <= i < d.len() ==> #[trigger] d[i] == f,
    decreases d.len(),
{
    if d.len() > 0 {
        lemma_count_le_len(d.drop_last(), f);
        lemma_count_face_all(d.drop_last(), f);
        assert forall|i: int| 0 <= i < d.len() implies #[trigger] d[i] == f by {
            if i < d.len() - 1 {
                assert(d.drop_last()[i] == d[i]);
            }
        }
    }
}

proof fn lemma_count_face_of_equal(d: Seq<u8>, f: u8)
    requires
        forall|i: int| 0 <= i < d.len() ==> #[trigger] d[i] == f,
    ensures
        count_face(d, f) == d.len(),
    decreases d.len(),
{
    if d.len() > 0 {
        assert forall|i: int| 0 <= i < d.drop_last().len() implies #[trigger] d.drop_last()[i]
            == f by {
            assert(d.drop_last()[i] == d[i]);
        }
        lemma_count_face_of_equal(d.drop_last(), f);
    }
}

/// A roll is a Yahtzee exactly when all five dice share one face.
pub proof fn lemma_yahtzee_all_equal(d: Seq<u8>)
    requires
        dice_valid(d),
    ensures
        has_count_at_least(d, 5) <==> (forall|i: int, j: int|
            0 <= i < 5 && 0 <= j < 5 ==> d[i] == d[j]),
{
    if has_count_at_least(d, 5) {
        let f = choose|f: u8| 1 <= f <= 6 && #[trigger] count_face(d, f) >= 5;
        lemma_count_le_len(d, f);
        lemma_count_face_all(d, f);
    }
    if forall|i: int, j: int| 0 <= i < 5 && 0 <= j < 5 ==> d[i] == d[j] {
        let f = d[0];
        assert(forall|i: int| 0 <= i < d.len() ==> #[trigger] d[i] == f);
        lemma_count_face_of_equal(d, f);
        assert(1 <= f <= 6 && count_face(d, f) >= 5);
    }
}

/// A full house is one face counted exactly three times beside a different
/// face counted exactly twice, and those two faces are unique: no other
/// face reaches three or two.
pub proof fn lemma_full_house_exact(d: Seq<u8>)
    requires
        dice_valid(d),
    ensures
        is_full_house(d) <==> ((exists|f: u8| 1 <= f <= 6 && #[trigger] count_face(d, f) == 3)
            && (exists|g: u8| 1 <= g <= 6 && #[trigger] count_face(d, g) == 2)),
        forall|f: u8, g: u8|
            1 <= f <= 6 && 1 <= g <= 6 && f != g && #[trigger] count_face(d, f) == 3
                && #[trigger] count_face(d, g) == 3 ==> false,
        is_full_house(d) ==> forall|g: u8, h: u8|
            1 <= g <= 6 && 1 <= h <= 6 && g != h && #[trigger] count_face(d, g) == 2
                && #[trigger] count_face(d, h) == 2 ==> false,
{
    lemma_count_face_total(d);
    if (exists|f: u8| 1 <= f <= 6 && #[trigger] count_face(d, f) == 3) && (exists|g: u8|
        1 <= g <= 6 && #[trigger] count_face(d, g) == 2) {
        let f = choose|f: u8| 1 <= f <= 6 && #[trigger] count_face(d, f) == 3;
        let g = choose|g: u8| 1 <= g <= 6 && #[trigger] count_face(d, g) == 2;
        assert(f != g);
        assert(is_full_house(d));
    }
}

/// `calculate_scores` computes, for each of the 13 categories, the score a
/// roll of five dice would earn there; a roll of other than five dice, or
/// with a face outside 1..=6, is rejected.
pub fn calculate_scores(dice: &[u8]) -> (r: Result<Vec<u8>, YahtzeeError>)
    ensures
        match r {
            Ok(s) => dice_valid(dice@) && scores_match(dice@, s@),
            Err(e) => e == YahtzeeError::InvalidInput && !dice_valid(dice@),
        },
{
    if dice.len() != 5 {
        return Err(YahtzeeError::InvalidInput);
    }
    let mut k: usize = 0;
    while k < 5
        invariant
            dice@.len() == 5,
            k <= 5,
            forall|i: int| 0 <= i < k ==> 1 <= #[trigger] dice@[i] <= 6,
        decreases 5 - k,
    {
        if dice[k] < 1 || dice[k] > 6 {
            return Err(YahtzeeError::InvalidInput);
        }
        k += 1;
    }

    // Occurrence count of each face 1..=6.
    let mut counts: Vec<u8> = vec![0, 0, 0, 0, 0, 0];
    let mut k: usize = 0;
    while k < 5
        invariant
            dice_valid(dice@),
            k <= 5,
            counts@.len() == 6,
            forall|f: int|
                0 <= f < 6 ==> #[trigger] counts@[f] as nat == count_face(
                    dice@.take(k as int),
                    (f + 1) as u8,
                ),
        decreases 5 - k,
    {
        let face = dice[k];
        proof {
            assert(dice@.take(k as int + 1).drop_last() =~= dice@.take(k as int));
            lemma_count_le_len(dice@.take(k as int), face);
        }
        let fi = (face - 1) as usize;
        counts[fi] = counts[fi] + 1;
        k += 1;
    }
    proof {
        assert(dice@.take(5) =~= dice@);
    }

    // The sum of all five dice.
    let mut total: u8 = 0;
    let mut k: usize = 0;
    while k < 5
        invariant
            dice_valid(dice@),
            k <= 5,
            total as int == dice_sum(dice@.take(k as int)),
            total <= 6 * k,
        decreases 5 - k,
    {
        proof {
            assert(dice@.take(k as int + 1).drop_last() =~= dice@.take(k as int));
        }
        total = total + dice[k];
        k += 1;
    }

    // Which multiplicities and which faces occur.
    let mut ge3 = false;
    let mut ge4 = false;
    let mut ge5 = false;
    let mut eq3 = false;
    let mut eq2 = false;
    let mut f: u8 = 1;
    while f <= 6
        invariant
            dice_valid(dice@),
            1 <= f <= 7,
            counts@.len() == 6,
            forall|g: int|
                0 <= g < 6 ==> #[trigger] counts@[g] as nat == count_face(dice@, (g + 1) as u8),
            ge3 == exists|g: u8| 1 <= g < f && #[trigger] count_face(dice@, g) >= 3,
            ge4 == exists|g: u8| 1 <= g < f && #[trigger] count_face(dice@, g) >= 4,
            ge5 == exists|g: u8| 1 <= g < f && #[trigger] count_face(dice@, g) >= 5,
            eq3 == exists|g: u8| 1 <= g < f && #[trigger] count_face(dice@, g) == 3,
            eq2 == exists|g: u8| 1 <= g < f && #[trigger] count_face(dice@, g) == 2,
        decreases 7 - f,
    {
        let c = counts[(f - 1) as usize];
        if c >= 3 {
            ge3 = true;
        }
        if c >= 4 {
            ge4 = true;
        }
        if c >= 5 {
            ge5 = true;
        }
        if c == 3 {
            eq3 = true;
        }
        if c == 2 {
            eq2 = true;
        }
        proof {
            assert(counts@[f - 1] as nat == count_face(dice@, f));
        }
        f += 1;
    }
    proof {
        assert(ge3 == has_count_at_least(dice@, 3));
        assert(ge4 == has_count_at_least(dice@, 4));
        assert(ge5 == has_count_at_least(dice@, 5));
        // A face counted three times and a face counted twice are
        // necessarily different faces, so this pair is a full house.
        if eq3 && eq2 {
            let f3 = choose|g: u8| 1 <= g <= 6 && #[trigger] count_face(dice@, g) == 3;
            let f2 = choose|g: u8| 1 <= g <= 6 && #[trigger] count_face(dice@, g) == 2;
            assert(f3 != f2);
            assert(is_full_house(dice@));
        }
        if is_full_house(dice@) {
            assert(eq3 && eq2);
        }
    }

    // Which faces are present, for the straights.
    let p1 = counts[0] >= 1;
    let p2 = counts[1] >= 1;
    let p3 = counts[2] >= 1;
    let p4 = counts[3] >= 1;
    let p5 = counts[4] >= 1;
    let p6 = counts[5] >= 1;
    let small = (p1 && p2 && p3 && p4) || (p2 && p3 && p4 && p5) || (p3 && p4 && p5 && p6);
    let large = (p1 && p2 && p3 && p4 && p5) || (p2 && p3 && p4 && p5 && p6);

    let mut scores: Vec<u8> = Vec::new();
    // Upper section: count of each face times the face value.
    let mut f: u8 = 1;
    while f <= 6
        invariant
            dice_valid(dice@),
            1 <= f <= 7,
            counts@.len() == 6,
            forall|g: int|
                0 <= g < 6 ==> #[trigger] counts@[g] as nat == count_face(dice@, (g + 1) as u8),
            scores@.len() == f - 1,
            forall|i: int| 0 <= i < f - 1 ==> #[trigger] scores@[i] as int == spec_score(dice@, i),
        decreases 7 - f,
    {
        let c = counts[(f - 1) as usize];
        proof {
            lemma_count_le_len(dice@, f);
            assert(c as nat == count_face(dice@, f));
            assert(c * f <= 30) by (nonlinear_arith)
                requires
                    c <= 5,
                    f <= 6,
            ;
        }
        scores.push(c * f);
        f += 1;
    }
    proof {
        lemma_dice_sum_bounds(dice@);
    }
    scores.push(if ge3 { total } else { 0 });
    scores.push(if ge4 { total } else { 0 });
    scores.push(if eq3 && eq2 { 25 } else { 0 });
    scores.push(if small { 30 } else { 0 });
    scores.push(if large { 40 } else { 0 });
    scores.push(if ge5 { 50 } else { 0 });
    scores.push(total);

    proof {
        assert forall|i: int| 0 <= i < 13 implies #[trigger] scores@[i] as int == spec_score(
            dice@,
            i,
        ) by {
            if i < 6 {
                assert(scores@[i] as int == spec_score(dice@, i));
            }
        }
    }
    Ok(scores)
}

/// The display label of the combination at table index `i`.
pub open spec fn spec_label(i: int) -> Seq<char> {
    if i == 0 {
        "Aces"@
    } else if i == 1 {
        "Twos"@
    } else if i == 2 {
        "Threes"@
    } else if i == 3 {
        "Fours"@
    } else if i == 4 {
        "Fives"@
    } else if i == 5 {
        "Sixes"@
    } else if i == 6 {
        "3 of a kind"@
    } else if i == 7 {
        "4 of a kind"@
    } else if i == 8 {
        "Full House"@
    } else if i == 9 {
        "Small Straight"@
    } else if i == 10 {
        "Large Straight"@
    } else if i == 11 {
        "Yahtzee (5 of a kind)"@
    } else {
        "Chance"@
    }
}

impl Combinations {
    /// The display label of this combination.
    pub fn label(&self) -> (r: &'static str)
        ensures
            r@ == spec_label(self.spec_index()),
    {
        match self {
            Combinations::Aces => "Aces",
            Combinations::Twos => "Twos",
            Combinations::Threes => "Threes",
            Combinations::Fours => "Fours",
            Combinations::Fives => "Fives",
            Combinations::Sixes => "Sixes",
            Combinations::ThreeOfAKind => "3 of a kind",
            Combinations::FourOfAKind => "4 of a kind",
            Combinations::FullHouse => "Full House",
            Combinations::SmallStraight => "Small Straight",
            Combinations::LargeStraight => "Large Straight",
            Combinations::Yahtzee => "Yahtzee (5 of a kind)",
            Combinations::Chance => "Chance",
        }
    }
}

/// The display label of the combination at table index `i`.
pub fn score_index_to_string(i: usize) -> (r: &'static str)
    requires
        i < 13,
    ensures
        r@ == spec_label(i as int),
{
    Combinations::from_index(i).label()
}

} // verus!
