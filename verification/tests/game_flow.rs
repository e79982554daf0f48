use yahtzee::YahtzeeError;
use yahtzee::ai::{ai_choice, ai_turn};
use yahtzee::book::PlayerData;
use yahtzee::game::GameState;
use yahtzee::roll::RollState;
use yahtzee::turn::{PlayerKind, Turn};

#[test]
fn commit_accumulates_scores() {
    let mut book = PlayerData::default();
    assert!(!book.has_used(6));
    book.add_score(6, 12);
    assert!(book.has_used(6));
    assert_eq!(book.score, 12);
    assert_eq!(book.combinations_scores[6], 12);
    book.add_score(12, 20);
    assert_eq!(book.score, 32);
}

#[test]
fn upper_bonus_awarded_exactly_at_63() {
    let mut book = PlayerData::default();
    book.add_score(5, 18);
    book.add_score(4, 15);
    book.add_score(3, 12);
    book.add_score(2, 9);
    book.add_score(1, 6);
    assert_eq!(book.upper_sum(), 60);
    assert!(!book.got_upper_bonus);
    book.add_score(0, 3);
    assert_eq!(book.upper_sum(), 63);
    assert!(book.got_upper_bonus);
    assert_eq!(book.score, 63 + 35);
    // The bonus is paid only once.
    book.add_score(12, 20);
    assert!(book.got_upper_bonus);
    assert_eq!(book.score, 63 + 35 + 20);
}

#[test]
fn upper_bonus_not_awarded_below_63() {
    let mut book = PlayerData::default();
    book.add_score(0, 5);
    book.add_score(1, 10);
    book.add_score(2, 15);
    book.add_score(3, 20);
    book.add_score(4, 5);
    book.add_score(5, 6);
    assert_eq!(book.upper_sum(), 61);
    assert!(!book.got_upper_bonus);
    assert_eq!(book.score, 61);
}

#[test]
fn lower_section_commit_never_awards_bonus() {
    let mut book = PlayerData::default();
    book.add_score(11, 50);
    book.add_score(12, 30);
    assert!(!book.got_upper_bonus);
    assert_eq!(book.score, 80);
}

#[test]
fn commit_on_used_category_is_rejected() {
    let mut book = PlayerData::default();
    let roll = RollState::new();
    let first = roll.commit(&mut book, 12);
    assert!(first.is_ok());
    let total = book.score;
    // The category is write-once: a second commit is refused and nothing
    // changes.
    let second = roll.commit(&mut book, 12);
    assert_eq!(second, Err(YahtzeeError::InvariantViolation));
    assert_eq!(book.score, total);
    assert!(book.has_used(12));
}

#[test]
fn turn_cycle_alternates_and_ends_at_round_14() {
    let mut turn = Turn::default();
    assert_eq!(turn.player, PlayerKind::Human);
    assert_eq!(turn.n, 1);
    let mut commits: u32 = 0;
    while !turn.is_terminal() {
        assert_eq!(turn.player, PlayerKind::Human);
        let round_before = turn.n;
        turn.next();
        assert_eq!(turn.player, PlayerKind::AI);
        assert_eq!(turn.n, round_before);
        turn.next();
        assert_eq!(turn.player, PlayerKind::Human);
        assert_eq!(turn.n, round_before + 1);
        commits += 2;
    }
    assert_eq!(turn.n, 14);
    assert_eq!(commits, 26);
}

#[test]
fn fresh_roll_state() {
    let roll = RollState::new();
    assert_eq!(roll.rolls_left, 2);
    assert_eq!(roll.dice.len(), 5);
    assert_eq!(roll.chosen, vec![false; 5]);
    for &d in roll.dice.iter() {
        assert!((1..=6).contains(&d));
    }
    // The previews belong to the rolled dice.
    let expected = yahtzee::score::calculate_scores(&roll.dice).unwrap();
    assert_eq!(roll.scores, expected);
}

#[test]
fn holds_keep_dice_across_reroll() {
    let mut roll = RollState::new();
    for i in 0..5 {
        roll.toggle_hold(i);
    }
    assert_eq!(roll.chosen, vec![true; 5]);
    let dice_before = roll.dice.clone();
    roll.reroll();
    assert_eq!(roll.dice, dice_before);
    assert_eq!(roll.rolls_left, 1);
}

#[test]
fn reroll_keeps_dice_valid() {
    let mut roll = RollState::new();
    roll.toggle_hold(2);
    roll.reroll();
    assert_eq!(roll.rolls_left, 1);
    for &d in roll.dice.iter() {
        assert!((1..=6).contains(&d));
    }
    roll.reroll();
    assert_eq!(roll.rolls_left, 0);
}

#[test]
fn holds_are_void_without_rerolls() {
    let mut roll = RollState::new();
    roll.reroll();
    roll.reroll();
    assert_eq!(roll.rolls_left, 0);
    let mask = roll.chosen.clone();
    roll.toggle_hold(0);
    assert_eq!(roll.chosen, mask);
}

#[test]
fn ai_picks_highest_preview() {
    let book = PlayerData::default();
    let scores = [1u8, 2, 9, 0, 0, 0, 12, 0, 0, 0, 0, 0, 12];
    assert_eq!(ai_choice(&book, &scores), 6);
}

#[test]
fn ai_ties_break_to_lowest_index() {
    let book = PlayerData::default();
    let scores = [7u8, 2, 7, 0, 0, 0, 7, 0, 0, 0, 0, 0, 7];
    assert_eq!(ai_choice(&book, &scores), 0);
}

#[test]
fn ai_skips_used_categories() {
    let mut book = PlayerData::default();
    book.add_score(6, 12);
    let scores = [1u8, 2, 9, 0, 0, 0, 12, 0, 0, 0, 0, 0, 12];
    assert_eq!(ai_choice(&book, &scores), 12);
}

#[test]
fn ai_turn_commits_one_category() {
    let mut book = PlayerData::default();
    let (dice, choice, points) = ai_turn(&mut book);
    assert_eq!(dice.len(), 5);
    for &d in dice.iter() {
        assert!((1..=6).contains(&d));
    }
    assert!(choice < 13);
    assert!(book.has_used(choice));
    let mut used: u32 = 0;
    for i in 0..13 {
        if book.has_used(i) {
            used += 1;
        }
    }
    assert_eq!(used, 1);
    assert_eq!(book.combinations_scores[choice], points);
    let preview = yahtzee::score::calculate_scores(&dice).unwrap();
    assert_eq!(preview[choice], points);
}

#[test]
fn fresh_game_state() {
    let game = GameState::default();
    assert_eq!(game.turn.player, PlayerKind::Human);
    assert_eq!(game.turn.n, 1);
    assert_eq!(game.player.score, 0);
    assert_eq!(game.ai.score, 0);
}
