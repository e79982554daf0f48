use yahtzee::YahtzeeError;
use yahtzee::score::{calculate_scores, score_index_to_string, Combinations};

#[test]
fn three_of_a_kind() {
    let dice = [1, 2, 3, 3, 3];
    let scores = calculate_scores(&dice).unwrap();
    assert_eq!(scores, [1u8, 2, 9, 0, 0, 0, 12, 0, 0, 0, 0, 0, 12]);
}

#[test]
fn four_of_a_kind() {
    let dice = [1, 3, 3, 3, 3];
    let scores = calculate_scores(&dice).unwrap();
    assert_eq!(scores, [1u8, 0, 12, 0, 0, 0, 13, 13, 0, 0, 0, 0, 13]);
}

#[test]
fn fullhouse() {
    let dice = [4, 4, 3, 3, 3];
    let scores = calculate_scores(&dice).unwrap();
    assert_eq!(scores, [0u8, 0, 9, 8, 0, 0, 17, 0, 25, 0, 0, 0, 17]);
}

#[test]
fn yahtzee() {
    let dice = [1, 1, 1, 1, 1];
    let scores = calculate_scores(&dice).unwrap();
    assert_eq!(scores, [5u8, 0, 0, 0, 0, 0, 5, 5, 0, 0, 0, 50, 5]);
}

#[test]
fn small_straight() {
    let dice = [3, 2, 1, 4, 3];
    let scores = calculate_scores(&dice).unwrap();
    assert_eq!(scores, [1u8, 2, 6, 4, 0, 0, 0, 0, 0, 30, 0, 0, 13]);
}

#[test]
fn large_straight() {
    let dice = [3, 2, 1, 4, 5];
    let scores = calculate_scores(&dice).unwrap();
    assert_eq!(scores, [1u8, 2, 3, 4, 5, 0, 0, 0, 0, 30, 40, 0, 15]);
}

#[test]
fn chance_is_dice_sum() {
    let scores = calculate_scores(&[6, 6, 5, 2, 1]).unwrap();
    assert_eq!(scores[12], 20);
    let scores = calculate_scores(&[2, 2, 4, 4, 4]).unwrap();
    assert_eq!(scores[12], 16);
}

#[test]
fn full_house_needs_exact_split() {
    // Four of a kind plus one is not a full house.
    let scores = calculate_scores(&[3, 3, 3, 3, 2]).unwrap();
    assert_eq!(scores[8], 0);
    // Five of a kind is not a full house either.
    let scores = calculate_scores(&[3, 3, 3, 3, 3]).unwrap();
    assert_eq!(scores[8], 0);
}

#[test]
fn yahtzee_only_when_all_equal() {
    let scores = calculate_scores(&[6, 6, 6, 6, 6]).unwrap();
    assert_eq!(scores[11], 50);
    let scores = calculate_scores(&[6, 6, 6, 6, 5]).unwrap();
    assert_eq!(scores[11], 0);
}

#[test]
fn wrong_number_of_dice_rejected() {
    assert_eq!(calculate_scores(&[1, 2, 3, 4]), Err(YahtzeeError::InvalidInput));
    assert_eq!(calculate_scores(&[1, 2, 3, 4, 5, 6]), Err(YahtzeeError::InvalidInput));
    assert_eq!(calculate_scores(&[]), Err(YahtzeeError::InvalidInput));
}

#[test]
fn out_of_range_face_rejected() {
    assert_eq!(calculate_scores(&[0, 2, 3, 4, 5]), Err(YahtzeeError::InvalidInput));
    assert_eq!(calculate_scores(&[1, 2, 3, 4, 7]), Err(YahtzeeError::InvalidInput));
}

#[test]
fn labels_and_indices() {
    assert_eq!(score_index_to_string(0), "Aces");
    assert_eq!(score_index_to_string(8), "Full House");
    assert_eq!(score_index_to_string(12), "Chance");
    assert_eq!(Combinations::Sixes.index(), 5);
    assert_eq!(Combinations::Chance.index(), 12);
    for i in 0..13 {
        assert_eq!(Combinations::from_index(i).index(), i);
    }
}
