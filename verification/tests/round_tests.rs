use mino_dice_prob_calc::dice::{DieType, Face};
use mino_dice_prob_calc::round::{
    hand_fits_bag, remaining_counts_after_removing_hand, special_capture_counts,
    choose_die_to_play, choose_die_to_play_against, round_count, sample_hand, score_for_outcome,
    score_player, simulate_games, simulate_round_for_player_hand, simulate_round_number,
    tally_special_captures, tally_trick_counts, sample_trick_count_distribution_counts,
    trick_bonus_points, Rng, TrickBonusOutcome, Xorshift64,
};
use mino_dice_prob_calc::trick::RolledDie;

fn assert_round_counts() {
    assert_eq!(round_count(3), 8);
    assert_eq!(round_count(4), 8);
    assert_eq!(round_count(5), 7);
    assert_eq!(round_count(6), 6);
}

#[test]
fn round_round_counts_correct() {
    assert_round_counts();
}

#[test]
fn tests_round_counts_correct() {
    assert_round_counts();
}

#[test]
fn round_simulate_games_returns_correct_shape() {
    let mut rng = Xorshift64::new(42);
    let scores = simulate_games(4, 10, &mut rng);
    assert_eq!(scores.len(), 4);
    for p in &scores {
        assert_eq!(p.len(), 10);
    }
}

#[test]
fn tests_simulate_games_returns_correct_shape() {
    let mut rng = Xorshift64::new(42);
    let scores = simulate_games(4, 10, &mut rng);
    assert_eq!(scores.len(), 4);
    for p in &scores {
        assert_eq!(p.len(), 10);
    }
}

#[test]
fn round_simulate_round_number_returns_correct_shape() {
    let mut rng = Xorshift64::new(42);
    let scores = simulate_round_number(4, 3, 10, &mut rng);
    assert_eq!(scores.len(), 4);
    for p in &scores {
        assert_eq!(p.len(), 10);
    }
}

#[test]
fn tests_simulate_round_number_returns_correct_shape() {
    let mut rng = Xorshift64::new(42);
    let scores = simulate_round_number(4, 3, 10, &mut rng);
    assert_eq!(scores.len(), 4);
    for p in &scores {
        assert_eq!(p.len(), 10);
    }
}

#[test]
fn round_simulate_round_for_player_hand_returns_correct_shape() {
    let mut rng = Xorshift64::new(42);
    let hand = vec![DieType::Red, DieType::Yellow, DieType::Gray];
    let scores = simulate_round_for_player_hand(&hand, 4, 10, &mut rng);
    assert_eq!(scores.len(), 4);
    for p in &scores {
        assert_eq!(p.len(), 10);
    }
}

#[test]
fn tests_simulate_round_for_player_hand_returns_correct_shape() {
    let mut rng = Xorshift64::new(42);
    let hand = vec![DieType::Red, DieType::Yellow, DieType::Gray];
    let scores = simulate_round_for_player_hand(&hand, 4, 10, &mut rng);
    assert_eq!(scores.len(), 4);
    for p in &scores {
        assert_eq!(p.len(), 10);
    }
}

#[test]
fn round_score_exact_bid() {
    assert_eq!(score_player(3, 3, 5, 0), 60);
}

#[test]
fn tests_score_exact_bid() {
    assert_eq!(score_player(3, 3, 5, 0), 60);
}

#[test]
fn round_score_missed_bid() {
    assert_eq!(score_player(3, 1, 5, 0), -20);
}

#[test]
fn tests_score_missed_bid() {
    assert_eq!(score_player(3, 1, 5, 0), -20);
}

#[test]
fn round_score_zero_bid_success() {
    assert_eq!(score_player(0, 0, 5, 0), 50);
}

#[test]
fn tests_score_zero_bid_success() {
    assert_eq!(score_player(0, 0, 5, 0), 50);
}

#[test]
fn round_score_zero_bid_fail() {
    assert_eq!(score_player(0, 2, 5, 0), -50);
}

#[test]
fn tests_score_zero_bid_fail() {
    assert_eq!(score_player(0, 2, 5, 0), -50);
}

#[test]
fn round_score_includes_bonus_points() {
    assert_eq!(score_player(1, 1, 3, 50), 70);
}

#[test]
fn tests_score_includes_bonus_points() {
    assert_eq!(score_player(1, 1, 3, 50), 70);
}

#[test]
fn score_for_outcome_matches_rules() {
    assert_eq!(score_for_outcome(2, 2, 4), 40);
    assert_eq!(score_for_outcome(2, 4, 4), -20);
    assert_eq!(score_for_outcome(4, 1, 4), -30);
    assert_eq!(score_for_outcome(0, 0, 7), 70);
    assert_eq!(score_for_outcome(0, 1, 7), -70);
}

#[test]
fn round_choose_die_allows_special_even_with_matching_color() {
    let hand = vec![DieType::Red, DieType::Mermaid, DieType::Yellow];
    let remaining = vec![0usize, 1, 2];
    let current_rolls = vec![RolledDie::new(DieType::Red, Face::Number(5), 0)];
    let chosen =
        choose_die_to_play_against(Some(DieType::Red), &current_rolls, &remaining, &hand);
    assert_eq!(chosen, 1);
    assert_eq!(hand[chosen], DieType::Mermaid);
}

#[test]
fn choose_die_prefers_weaker_losing_option() {
    let hand = vec![DieType::Minotaur, DieType::Gray, DieType::Red];
    let remaining = vec![0usize, 1, 2];
    let current_rolls = vec![RolledDie::new(DieType::Yellow, Face::Number(5), 0)];
    let chosen =
        choose_die_to_play_against(Some(DieType::Yellow), &current_rolls, &remaining, &hand);
    assert_eq!(chosen, 1);
    assert_eq!(hand[chosen], DieType::Gray);
}

#[test]
fn tests_choose_die_allows_special_even_with_matching_color() {
    let hand = vec![DieType::Red, DieType::Mermaid, DieType::Yellow];
    let remaining = vec![0usize, 1, 2];
    let mut rng = Xorshift64::new(1);
    let mut saw_matching = false;
    let mut saw_special = false;
    for _ in 0..200 {
        let chosen = choose_die_to_play(Some(DieType::Red), &remaining, &hand, &mut rng);
        if hand[chosen] == DieType::Red {
            saw_matching = true;
        }
        if hand[chosen] == DieType::Mermaid {
            saw_special = true;
        }
        assert!(hand[chosen] == DieType::Red || hand[chosen] == DieType::Mermaid);
    }
    assert!(
        saw_matching && saw_special,
        "both matching and special choices should be sampled"
    );
}

#[test]
fn choose_die_without_matching_uses_any_remaining_choice() {
    let hand = vec![
        DieType::Minotaur,
        DieType::Gray,
        DieType::Red,
        DieType::Yellow,
    ];
    let remaining = vec![0usize, 1, 2];
    let mut rng = Xorshift64::new(7);
    for _ in 0..50 {
        let chosen = choose_die_to_play(Some(DieType::Yellow), &remaining, &hand, &mut rng);
        assert!(remaining.contains(&chosen));
    }
}

fn mermaid_capture_rolls() -> Vec<RolledDie> {
    vec![
        RolledDie::new(DieType::Minotaur, Face::Minotaur, 0),
        RolledDie::new(DieType::Mermaid, Face::Mermaid, 1),
        RolledDie::new(DieType::Red, Face::Number(7), 2),
    ]
}

#[test]
fn round_trick_bonus_mermaid_captures_minotaur_without_flag() {
    assert_eq!(
        trick_bonus_points(&mermaid_capture_rolls(), 1),
        TrickBonusOutcome {
            points: 50,
            mermaid_captures_minotaur: true,
            minotaur_captures_griffin: false,
        }
    );
}

#[test]
fn tests_trick_bonus_mermaid_captures_minotaur_without_flag() {
    assert_eq!(
        trick_bonus_points(&mermaid_capture_rolls(), 1),
        TrickBonusOutcome {
            points: 50,
            mermaid_captures_minotaur: true,
            minotaur_captures_griffin: false,
        }
    );
}

fn flag_blocked_rolls() -> Vec<RolledDie> {
    vec![
        RolledDie::new(DieType::Griffin, Face::Griffin, 0),
        RolledDie::new(DieType::Minotaur, Face::Minotaur, 1),
        RolledDie::new(DieType::Gray, Face::Flag, 2),
    ]
}

#[test]
fn round_trick_bonus_blocked_when_any_flag_captured() {
    assert_eq!(trick_bonus_points(&flag_blocked_rolls(), 1), TrickBonusOutcome::default());
}

#[test]
fn tests_trick_bonus_blocked_when_any_flag_captured() {
    assert_eq!(trick_bonus_points(&flag_blocked_rolls(), 1), TrickBonusOutcome::default());
}

#[test]
fn trick_bonus_minotaur_captures_griffin() {
    let rolls = vec![
        RolledDie::new(DieType::Griffin, Face::Griffin, 0),
        RolledDie::new(DieType::Minotaur, Face::Minotaur, 1),
        RolledDie::new(DieType::Red, Face::Number(6), 2),
    ];
    assert_eq!(
        trick_bonus_points(&rolls, 1),
        TrickBonusOutcome {
            points: 30,
            mermaid_captures_minotaur: false,
            minotaur_captures_griffin: true,
        }
    );
}

#[test]
fn round_sample_hand_correct_size() {
    let mut rng = Xorshift64::new(99);
    let hand = sample_hand(5, &mut rng);
    assert_eq!(hand.len(), 5);
}

#[test]
fn tests_sample_hand_correct_size() {
    let mut rng = Xorshift64::new(99);
    let hand = sample_hand(5, &mut rng);
    assert_eq!(hand.len(), 5);
}

#[test]
fn sample_whole_bag_respects_counts() {
    let mut rng = Xorshift64::new(5);
    let hand = sample_hand(36, &mut rng);
    for die in &DieType::ALL {
        let n = hand.iter().filter(|&&d| d == *die).count();
        assert_eq!(n, die.bag_count() as usize);
    }
}

fn assert_not_stuck() {
    let mut rng = Xorshift64::new(1);
    let mut seen = std::collections::HashSet::new();
    for _ in 0..100 {
        seen.insert(rng.next_usize(1000));
    }
    assert!(seen.len() > 50, "RNG appears to be stuck");
}

#[test]
fn round_xorshift_not_stuck() {
    assert_not_stuck();
}

#[test]
fn tests_xorshift_not_stuck() {
    assert_not_stuck();
}

#[test]
fn xorshift_zero_seed_uses_fixed_state() {
    let mut a = Xorshift64::new(0);
    let mut b = Xorshift64::new(0xdeadbeef_cafebabe);
    for _ in 0..10 {
        assert_eq!(a.next_usize(1_000_000), b.next_usize(1_000_000));
    }
}

#[test]
fn xorshift_first_value_from_seed_one() {
    // x = 1: x ^= x << 13 -> 8193; x ^= x >> 7 -> 8257; x ^= x << 17 -> 1082269761
    let mut rng = Xorshift64::new(1);
    assert_eq!(rng.next_usize(usize::MAX), 1082269761);
}

#[test]
fn round_count_values_correct() {
    assert_eq!(round_count(3), 8);
    assert_eq!(round_count(4), 8);
    assert_eq!(round_count(5), 7);
    assert_eq!(round_count(6), 6);
}

#[test]
fn hands_that_fit_the_bag() {
    assert!(hand_fits_bag(&[]));
    assert!(hand_fits_bag(&[DieType::Minotaur, DieType::Red, DieType::Red]));
    assert!(!hand_fits_bag(&[DieType::Minotaur, DieType::Minotaur]));
    assert!(!hand_fits_bag(&[DieType::Mermaid; 3]));
    assert!(hand_fits_bag(&[DieType::Gray; 8]));
}

#[test]
fn remaining_counts_leave_the_rest_of_the_bag() {
    let hand = [DieType::Minotaur, DieType::Red, DieType::Red, DieType::Gray];
    assert_eq!(remaining_counts_after_removing_hand(&hand), vec![0, 3, 2, 5, 7, 8, 7]);
}

#[test]
fn no_special_captures_without_mermaid_or_minotaur() {
    let mut rng = Xorshift64::new(7);
    let hand = [DieType::Red, DieType::Griffin, DieType::Gray];
    let counts = special_capture_counts(&hand, 4, 1, 200, &mut rng);
    assert_eq!(counts.mermaid_capture_wins, 0);
    assert_eq!(counts.minotaur_capture_wins, 0);
    assert_eq!(counts.total_bonus_points, 0);
}

#[test]
fn special_captures_are_counted_per_round() {
    let mut rng = Xorshift64::new(11);
    let hand = [DieType::Mermaid, DieType::Minotaur, DieType::Red];
    let counts = special_capture_counts(&hand, 3, 0, 300, &mut rng);
    assert!(counts.mermaid_capture_wins <= 300);
    assert!(counts.minotaur_capture_wins <= 300);
    assert!(counts.total_bonus_points >= 50 * counts.mermaid_capture_wins as i64);
    assert!(counts.total_bonus_points <= 50 * 3 * 300);
}

#[test]
fn trick_counts_are_tallied_by_value() {
    let observed = vec![0usize, 2, 2, 1, 2];
    assert_eq!(tally_trick_counts(&observed, 3), vec![1, 1, 3, 0]);
    assert_eq!(tally_trick_counts(&Vec::new(), 2), vec![0, 0, 0]);
}

#[test]
fn special_capture_observations_are_tallied() {
    let observations = vec![(true, false, 50i64), (false, true, 30), (false, false, 0), (true, false, 80)];
    let counts = tally_special_captures(&observations);
    assert_eq!(counts.mermaid_capture_wins, 2);
    assert_eq!(counts.minotaur_capture_wins, 1);
    assert_eq!(counts.total_bonus_points, 160);
}

#[test]
fn sampled_trick_counts_cover_every_sample() {
    let mut rng = Xorshift64::new(5);
    let hand = [DieType::Red, DieType::Mermaid];
    let counts = sample_trick_count_distribution_counts(&hand, 4, 2, 120, &mut rng);
    assert_eq!(counts.len(), 3);
    assert_eq!(counts.iter().sum::<usize>(), 120);
}

#[test]
fn simulated_scores_are_multiples_of_ten() {
    let mut rng = Xorshift64::new(42);
    for row in simulate_games(4, 5, &mut rng) {
        for s in row {
            assert_eq!(s % 10, 0);
            assert!((-360..=2520).contains(&s));
        }
    }
    for row in simulate_round_number(5, 4, 10, &mut rng) {
        for s in row {
            assert_eq!(s % 10, 0);
            assert!((-40..=280).contains(&s));
        }
    }
}
