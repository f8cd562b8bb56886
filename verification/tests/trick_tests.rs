use mino_dice_prob_calc::dice::{DieType, Face};
use mino_dice_prob_calc::trick::{
    die_to_index, encode_die_sequence, face_sort_key, trick_winner, winning_outcome_counts,
    RolledDie,
};

#[test]
fn flag_always_loses() {
    let rolls = vec![
        RolledDie::new(DieType::Red, Face::Flag, 0),
        RolledDie::new(DieType::Purple, Face::Number(1), 1),
    ];
    assert_eq!(trick_winner(&rolls), 1);
}

#[test]
fn higher_number_wins() {
    let rolls = vec![
        RolledDie::new(DieType::Red, Face::Number(7), 0),
        RolledDie::new(DieType::Yellow, Face::Number(5), 1),
    ];
    assert_eq!(trick_winner(&rolls), 0);
}

#[test]
fn number_tie_later_roller_wins() {
    let rolls = vec![
        RolledDie::new(DieType::Red, Face::Number(5), 0),
        RolledDie::new(DieType::Yellow, Face::Number(5), 1),
    ];
    assert_eq!(trick_winner(&rolls), 1);
}

#[test]
fn minotaur_beats_griffin() {
    let rolls = vec![
        RolledDie::new(DieType::Minotaur, Face::Minotaur, 0),
        RolledDie::new(DieType::Griffin, Face::Griffin, 1),
    ];
    assert_eq!(trick_winner(&rolls), 0);
}

#[test]
fn griffin_beats_mermaid() {
    let rolls = vec![
        RolledDie::new(DieType::Griffin, Face::Griffin, 0),
        RolledDie::new(DieType::Mermaid, Face::Mermaid, 1),
    ];
    assert_eq!(trick_winner(&rolls), 0);
}

#[test]
fn mermaid_beats_minotaur() {
    let rolls = vec![
        RolledDie::new(DieType::Minotaur, Face::Minotaur, 0),
        RolledDie::new(DieType::Mermaid, Face::Mermaid, 1),
    ];
    assert_eq!(trick_winner(&rolls), 1);
}

#[test]
fn special_beats_number() {
    let rolls = vec![
        RolledDie::new(DieType::Red, Face::Number(7), 0),
        RolledDie::new(DieType::Griffin, Face::Griffin, 1),
    ];
    assert_eq!(trick_winner(&rolls), 1);
}

#[test]
fn same_special_later_wins() {
    let rolls = vec![
        RolledDie::new(DieType::Griffin, Face::Griffin, 0),
        RolledDie::new(DieType::Griffin, Face::Griffin, 1),
    ];
    assert_eq!(trick_winner(&rolls), 1);
}

#[test]
fn all_flags_later_roller_wins() {
    let rolls = vec![
        RolledDie::new(DieType::Gray, Face::Flag, 0),
        RolledDie::new(DieType::Gray, Face::Flag, 1),
    ];
    assert_eq!(trick_winner(&rolls), 1);
}

#[test]
fn all_flags_last_of_three_wins() {
    let rolls = vec![
        RolledDie::new(DieType::Gray, Face::Flag, 0),
        RolledDie::new(DieType::Gray, Face::Flag, 1),
        RolledDie::new(DieType::Gray, Face::Flag, 2),
    ];
    assert_eq!(trick_winner(&rolls), 2);
}

#[test]
fn special_cycle_is_not_transitive() {
    // Minotaur holds against Griffin, Mermaid takes it from the Minotaur.
    let rolls = vec![
        RolledDie::new(DieType::Minotaur, Face::Minotaur, 0),
        RolledDie::new(DieType::Griffin, Face::Griffin, 1),
        RolledDie::new(DieType::Mermaid, Face::Mermaid, 2),
    ];
    assert_eq!(trick_winner(&rolls), 2);
}

#[test]
fn single_roll_wins_its_own_trick() {
    let rolls = vec![RolledDie::new(DieType::Gray, Face::Flag, 0)];
    assert_eq!(trick_winner(&rolls), 0);
}

#[test]
fn win_counts_two_red_dice_cover_all_outcomes() {
    // Two players each rolling a Red die: every one of the 36 outcomes has one winner.
    let counts = winning_outcome_counts(&[DieType::Red, DieType::Red]);
    assert_eq!(counts.iter().sum::<u64>(), 36);
    // Seat 1 wins on ties, so it wins 24 of 36 (it loses only to a strictly higher face).
    assert_eq!(counts, vec![12, 24]);
}

#[test]
fn win_counts_minotaur_vs_red() {
    // The Minotaur die shows a Minotaur on 4 of 6 faces; the Red die only numbers.
    let counts = winning_outcome_counts(&[DieType::Minotaur, DieType::Red]);
    assert_eq!(counts[0], 24);
    assert_eq!(counts[1], 12);
}

#[test]
fn win_counts_sum_for_four_seats() {
    let hand = [DieType::Mermaid, DieType::Red, DieType::Gray, DieType::Purple];
    let counts = winning_outcome_counts(&hand);
    assert_eq!(counts.len(), 4);
    assert_eq!(counts.iter().sum::<u64>(), 6u64.pow(4));
}

#[test]
fn win_counts_empty_hand() {
    assert!(winning_outcome_counts(&[]).is_empty());
}

#[test]
fn die_sequence_codes() {
    assert_eq!(die_to_index(DieType::Minotaur), Some(0));
    assert_eq!(die_to_index(DieType::Gray), Some(6));
    assert_eq!(encode_die_sequence(&[]), Some(0));
    assert_eq!(
        encode_die_sequence(&[DieType::Griffin, DieType::Red, DieType::Gray]),
        Some(1 * 49 + 3 * 7 + 6)
    );
}

#[test]
fn face_sort_keys() {
    assert_eq!(face_sort_key(Face::Flag), 0);
    assert_eq!(face_sort_key(Face::Number(7)), 7);
    assert_eq!(face_sort_key(Face::Minotaur), 102);
}
