use mino_dice_prob_calc::controls::{
    choose_calc_method, clamp_hand_counts, clamp_play_order, clamp_player_count, max_hand_size,
    needs_special_capture_stats, normalized_calc_method, replications, spinner_decrement,
    spinner_increment, CalcMethod,
};
use mino_dice_prob_calc::dice::DieType;

#[test]
fn player_count_settings_are_clamped() {
    assert_eq!(clamp_player_count(4), 4);
    assert_eq!(clamp_player_count(0), 3);
    assert_eq!(clamp_player_count(9), 6);
    assert_eq!(clamp_player_count(-1), 6);
}

#[test]
fn play_order_stays_within_the_table() {
    assert_eq!(clamp_play_order(2, 4), 2);
    assert_eq!(clamp_play_order(5, 4), 3);
    assert_eq!(clamp_play_order(-3, 3), 2);
}

#[test]
fn hand_size_limit_follows_the_round_count() {
    assert_eq!(max_hand_size(3), 8);
    assert_eq!(max_hand_size(5), 7);
    assert_eq!(max_hand_size(6), 6);
    assert_eq!(max_hand_size(1), 8);
}

#[test]
fn small_hands_are_left_alone() {
    let counts = vec![1, 0, 0, 2, 0, 0, 3];
    assert_eq!(clamp_hand_counts(&counts, 6), counts);
}

#[test]
fn large_hands_lose_dice_of_the_last_types_first() {
    let counts = vec![1, 0, 2, 3, 0, 1, 2];
    // Nine dice, at most six: Gray loses two, Purple one.
    assert_eq!(clamp_hand_counts(&counts, 6), vec![1, 0, 2, 3, 0, 0, 0]);
    // At most four: Red goes down to one as well.
    assert_eq!(clamp_hand_counts(&counts, 4), vec![1, 0, 2, 1, 0, 0, 0]);
}

#[test]
fn clamping_stops_when_no_die_is_left() {
    assert_eq!(clamp_hand_counts(&vec![2, 1], -1), vec![0, 0]);
    assert_eq!(clamp_hand_counts(&vec![3, -2, 1], 0), vec![2, -2, 0]);
}

#[test]
fn spinners_respect_the_limits() {
    assert_eq!(spinner_increment(2, 5, 8, 7), 3);
    assert_eq!(spinner_increment(7, 5, 8, 7), 7);
    assert_eq!(spinner_increment(2, 8, 8, 7), 2);
    assert_eq!(spinner_decrement(3), 2);
    assert_eq!(spinner_decrement(0), 0);
}

#[test]
fn calculation_method_choice() {
    assert_eq!(choose_calc_method(1, "monte-carlo"), CalcMethod::Exact);
    assert_eq!(choose_calc_method(3, "monte-carlo"), CalcMethod::MonteCarlo);
    assert_eq!(choose_calc_method(3, "dp"), CalcMethod::Analytical);
    assert_eq!(choose_calc_method(3, ""), CalcMethod::Analytical);
    assert_eq!(normalized_calc_method("monte-carlo"), "monte-carlo");
    assert_eq!(normalized_calc_method("other"), "dp");
    assert_eq!(replications(10), 1000);
    assert_eq!(replications(5000), 5000);
}

#[test]
fn special_capture_stats_for_mermaid_or_minotaur_hands() {
    assert!(needs_special_capture_stats(&[DieType::Red, DieType::Mermaid]));
    assert!(needs_special_capture_stats(&[DieType::Minotaur]));
    assert!(!needs_special_capture_stats(&[DieType::Griffin, DieType::Gray]));
    assert!(!needs_special_capture_stats(&[]));
}
