use mino_dice_prob_calc::dice::DieType;
use mino_dice_prob_calc::patterns::{
    combinations, opponent_hand_pattern_weights, rank_hand_patterns, top_opponent_hand_pattern_weights,
    HandPatternWeight,
};

#[test]
fn binomial_coefficients() {
    assert_eq!(combinations(5, 2), 10);
    assert_eq!(combinations(36, 2), 630);
    assert_eq!(combinations(10, 0), 1);
    assert_eq!(combinations(10, 10), 1);
    assert_eq!(combinations(4, 5), 0);
    assert_eq!(combinations(34, 7), 5_379_616);
    assert_eq!(combinations(100, 50), 100_891_344_545_564_193_334_812_497_256);
}

#[test]
fn opponent_patterns_cover_all_two_die_hands() {
    let hand = vec![DieType::Minotaur, DieType::Red];
    let patterns = opponent_hand_pattern_weights(&hand, 2);
    // Six die types are left, each at least twice: C(6 + 1, 2) splits.
    assert_eq!(patterns.len(), 21);
    let total: u128 = patterns.iter().map(|p| p.weight).sum();
    assert_eq!(total, combinations(34, 2));
    assert_eq!(patterns[0].hand, vec![DieType::Gray, DieType::Gray]);
    assert_eq!(patterns[0].weight, 28);
    let last = patterns.last().unwrap();
    assert_eq!(last.hand, vec![DieType::Griffin, DieType::Griffin]);
    assert_eq!(last.weight, 3);
    assert!(patterns.iter().all(|p| p.hand.len() == 2));
    assert!(!patterns.iter().any(|p| p.hand.contains(&DieType::Minotaur)));
}

#[test]
fn opponent_pattern_weights_sum_to_all_draws() {
    let hand = vec![DieType::Red, DieType::Yellow];
    for size in 1..=4 {
        let patterns = opponent_hand_pattern_weights(&hand, size);
        let total: u128 = patterns.iter().map(|p| p.weight).sum();
        assert_eq!(total, combinations(34, size));
    }
}

#[test]
fn no_patterns_for_empty_or_oversized_hands() {
    let hand = vec![DieType::Red];
    assert!(opponent_hand_pattern_weights(&hand, 0).is_empty());
    assert!(opponent_hand_pattern_weights(&hand, 36).is_empty());
    let whole = opponent_hand_pattern_weights(&hand, 35);
    assert_eq!(whole.len(), 1);
    assert_eq!(whole[0].weight, 1);
}

#[test]
fn ranking_puts_heavier_hands_first_and_breaks_ties_by_name() {
    let patterns = vec![
        HandPatternWeight { hand: vec![DieType::Red, DieType::Red], weight: 10 },
        HandPatternWeight { hand: vec![DieType::Yellow, DieType::Gray], weight: 30 },
        HandPatternWeight { hand: vec![DieType::Mermaid, DieType::Red], weight: 30 },
        HandPatternWeight { hand: vec![DieType::Gray, DieType::Gray], weight: 30 },
        HandPatternWeight { hand: vec![DieType::Minotaur, DieType::Red], weight: 5 },
    ];
    let ranked = rank_hand_patterns(patterns, 3);
    let hands: Vec<Vec<DieType>> = ranked.iter().map(|p| p.hand.clone()).collect();
    assert_eq!(
        hands,
        vec![
            vec![DieType::Gray, DieType::Gray],
            vec![DieType::Mermaid, DieType::Red],
            vec![DieType::Yellow, DieType::Gray],
        ]
    );
}

#[test]
fn ranking_keeps_every_pattern_when_the_limit_is_large() {
    let hand = [DieType::Red];
    let patterns = opponent_hand_pattern_weights(&hand, 2);
    let n = patterns.len();
    let ranked = rank_hand_patterns(patterns, 1000);
    assert_eq!(ranked.len(), n);
    for pair in ranked.windows(2) {
        assert!(pair[0].weight >= pair[1].weight);
    }
    assert!(rank_hand_patterns(Vec::new(), 3).is_empty());
}

#[test]
fn top_patterns_are_the_heaviest_drawable_hands() {
    let hand = [DieType::Red, DieType::Gray];
    let all = opponent_hand_pattern_weights(&hand, 2);
    let top = top_opponent_hand_pattern_weights(&hand, 2, 3);
    assert_eq!(top.len(), 3);
    let kept_min = top.iter().map(|p| p.weight).min().unwrap();
    let heavier = all.iter().filter(|p| p.weight > kept_min).count();
    assert!(heavier < 3);
    for p in &top {
        assert!(all.iter().any(|q| q.hand == p.hand && q.weight == p.weight));
    }
    assert!(top_opponent_hand_pattern_weights(&hand, 0, 3).is_empty());
}
