use mino_dice_prob_calc::bidding::{
    expected_score_for_bid_weighted, optimal_bid_for_weights, trick_count_weights,
};
use mino_dice_prob_calc::dice::DieType;

#[test]
fn one_trick_minotaur_against_red() {
    let w = trick_count_weights(&[DieType::Minotaur], &[vec![DieType::Red]]);
    assert_eq!(w, vec![12, 24]);
}

#[test]
fn trick_weights_cover_all_outcomes() {
    let hand = [DieType::Red, DieType::Yellow];
    let opps = vec![vec![DieType::Purple, DieType::Gray]];
    let w = trick_count_weights(&hand, &opps);
    assert_eq!(w.len(), 3);
    let total: u128 = w.iter().sum();
    assert_eq!(total, 6u128.pow(4));
}

#[test]
fn no_tricks_for_an_empty_hand() {
    let w = trick_count_weights(&[], &[vec![DieType::Red]]);
    assert_eq!(w, vec![1]);
}

#[test]
fn expected_scores_follow_the_scoring_rules() {
    // Certain to take no trick of one.
    let w = [1u128, 0];
    assert_eq!(expected_score_for_bid_weighted(0, &w), 10);
    assert_eq!(expected_score_for_bid_weighted(1, &w), -10);
    assert_eq!(optimal_bid_for_weights(&w), 0);
    // Even odds of one or two tricks of two.
    let w = [0u128, 1, 1];
    assert_eq!(expected_score_for_bid_weighted(1, &w), 20 - 10);
    assert_eq!(expected_score_for_bid_weighted(2, &w), -10 + 40);
    assert_eq!(expected_score_for_bid_weighted(0, &w), -20 - 20);
    assert_eq!(optimal_bid_for_weights(&w), 2);
}

#[test]
fn optimal_bid_prefers_the_larger_of_tied_bids() {
    // Bids 0 and 1 both score 10 (times the total weight 5) in expectation.
    let w = [3u128, 2];
    assert_eq!(expected_score_for_bid_weighted(0, &w), 10);
    assert_eq!(expected_score_for_bid_weighted(1, &w), 10);
    assert_eq!(optimal_bid_for_weights(&w), 1);
}

#[test]
fn optimal_bid_picks_the_best_expected_score() {
    let w = [1u128, 1];
    assert_eq!(expected_score_for_bid_weighted(0, &w), 0);
    assert_eq!(expected_score_for_bid_weighted(1, &w), 10);
    assert_eq!(optimal_bid_for_weights(&w), 1);
    let w = [3u128, 1];
    assert_eq!(expected_score_for_bid_weighted(0, &w), 20);
    assert_eq!(expected_score_for_bid_weighted(1, &w), -10);
    assert_eq!(optimal_bid_for_weights(&w), 0);
}
