use mino_dice_prob_calc::bag_draws::{
    exact_single_trick_weights, exact_single_trick_weights_from_remaining,
    exact_single_trick_winner_weights_from_remaining,
};
use mino_dice_prob_calc::dice::DieType;

#[test]
fn mermaid_leading_three_players_wins_known_share() {
    let w = exact_single_trick_weights(DieType::Mermaid, 3, 0);
    assert_eq!(w.len(), 2);
    // 35 * 34 ordered opponent draws, 6^3 face outcomes each.
    assert_eq!(w[0] + w[1], 35 * 34 * 216);
    let p = w[1] as f64 / (w[0] + w[1]) as f64;
    assert!((p - 0.5680672268907563).abs() < 1e-12, "p={p}");
}

#[test]
fn gray_win_share_changes_with_play_order() {
    let lead = exact_single_trick_weights(DieType::Gray, 3, 0);
    let last = exact_single_trick_weights(DieType::Gray, 3, 2);
    assert_eq!(lead[0] + lead[1], last[0] + last[1]);
    assert_ne!(lead[1], last[1]);
}

#[test]
fn winner_weights_cover_every_draw_and_outcome() {
    let w = exact_single_trick_winner_weights_from_remaining(&[DieType::Red], DieType::Red, 4, 1);
    assert_eq!(w.len(), 4);
    let total: u64 = w.iter().sum();
    assert_eq!(total, 35 * 34 * 33 * 1296);
}

#[test]
fn removed_dice_shrink_the_bag() {
    let removed = [DieType::Minotaur, DieType::Red, DieType::Red];
    let w = exact_single_trick_weights_from_remaining(&removed, DieType::Red, 3, 2);
    assert_eq!(w[0] + w[1], 33 * 32 * 216);
    let seats = exact_single_trick_winner_weights_from_remaining(&removed, DieType::Red, 3, 2);
    assert_eq!(seats[2], w[1]);
}

#[test]
fn single_player_wins_every_outcome() {
    let w = exact_single_trick_weights_from_remaining(&[DieType::Gray], DieType::Gray, 1, 0);
    assert_eq!(w, vec![0, 6]);
}
