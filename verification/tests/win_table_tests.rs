use mino_dice_prob_calc::dice::DieType;
use mino_dice_prob_calc::trick::{encode_die_sequence, winning_outcome_counts};
use mino_dice_prob_calc::win_table::{
    reference_table_from_rows, ReferenceRow,
    increment_base7_digits, lookup_single_trick_reference, single_trick_reference_counts,
};

#[test]
fn increment_moves_the_last_digit() {
    let mut digits = vec![0usize, 0, 5];
    let mut dice = vec![DieType::Minotaur, DieType::Minotaur, DieType::Purple];
    increment_base7_digits(&mut digits, &mut dice);
    assert_eq!(digits, vec![0, 0, 6]);
    assert_eq!(dice, vec![DieType::Minotaur, DieType::Minotaur, DieType::Gray]);
}

#[test]
fn increment_carries_into_earlier_digits() {
    let mut digits = vec![1usize, 6, 6];
    let mut dice = vec![DieType::Griffin, DieType::Gray, DieType::Gray];
    increment_base7_digits(&mut digits, &mut dice);
    assert_eq!(digits, vec![2, 0, 0]);
    assert_eq!(dice, vec![DieType::Mermaid, DieType::Minotaur, DieType::Minotaur]);
}

#[test]
fn increment_wraps_all_sixes_to_zeros() {
    let mut digits = vec![6usize, 6];
    let mut dice = vec![DieType::Gray, DieType::Gray];
    increment_base7_digits(&mut digits, &mut dice);
    assert_eq!(digits, vec![0, 0]);
    assert_eq!(dice, vec![DieType::Minotaur, DieType::Minotaur]);
}

#[test]
fn three_seat_table_matches_direct_enumeration() {
    let row = single_trick_reference_counts(3);
    assert_eq!(row.len(), 343 * 3);
    let samples = vec![
        vec![DieType::Red, DieType::Yellow, DieType::Purple],
        vec![DieType::Mermaid, DieType::Red, DieType::Gray],
        vec![DieType::Minotaur, DieType::Griffin, DieType::Mermaid],
        vec![DieType::Gray, DieType::Gray, DieType::Gray],
    ];
    for dice in samples {
        let code = encode_die_sequence(&dice).unwrap();
        let direct = winning_outcome_counts(&dice);
        for t in 0..3 {
            assert_eq!(row[code * 3 + t], direct[t], "dice={dice:?} seat={t}");
        }
        let total: u64 = (0..3).map(|t| row[code * 3 + t]).sum();
        assert_eq!(total, 216);
    }
}

#[test]
fn one_seat_table_wins_every_outcome() {
    let row = single_trick_reference_counts(1);
    assert_eq!(row, vec![6u64; 7]);
}

fn table_with_three_seats() -> Vec<Vec<u64>> {
    let mut table: Vec<Vec<u64>> = vec![Vec::new(), Vec::new(), Vec::new()];
    table.push(single_trick_reference_counts(3));
    for n in 4..=6u32 {
        let len = 7usize.pow(n) * n as usize;
        table.push(vec![0u64; len]);
    }
    table
}

#[test]
fn lookup_reads_the_sequence_entry() {
    let table = table_with_three_seats();
    let dice = [DieType::Mermaid, DieType::Red, DieType::Gray];
    let direct = winning_outcome_counts(&dice);
    for t in 0..3 {
        assert_eq!(lookup_single_trick_reference(&table, &dice, t), Some(direct[t]));
    }
}

#[test]
fn lookup_has_nothing_outside_three_to_six_seats() {
    let table = table_with_three_seats();
    assert_eq!(lookup_single_trick_reference(&table, &[DieType::Red, DieType::Red], 0), None);
    assert_eq!(
        lookup_single_trick_reference(&table, &[DieType::Red, DieType::Red, DieType::Red], 3),
        None
    );
    let seven = [DieType::Gray; 7];
    assert_eq!(lookup_single_trick_reference(&table, &seven, 0), None);
}

fn full_reference_rows() -> Vec<ReferenceRow> {
    let mut rows = Vec::new();
    for n in 3..=6i64 {
        let seq_count = 7i64.pow(n as u32);
        for s in 0..seq_count {
            let mut counts = [0i64; 6];
            for k in 0..n {
                counts[k as usize] = (s + k) % 50;
            }
            rows.push(ReferenceRow { player_count: n, seq_idx: s, counts, denominator: 6i64.pow(n as u32) });
        }
    }
    rows
}

#[test]
fn stored_rows_fill_every_slot() {
    let rows = full_reference_rows();
    let table = reference_table_from_rows(&rows).expect("complete rows");
    assert_eq!(table.len(), 7);
    assert!(table[0].is_empty() && table[1].is_empty() && table[2].is_empty());
    assert_eq!(table[3].len(), 343 * 3);
    assert_eq!(table[6].len(), 117649 * 6);
    assert_eq!(table[3][10 * 3 + 2], (12, 216));
    assert_eq!(table[5][100 * 5 + 4], (4, 7776));
}

#[test]
fn a_later_row_for_the_same_sequence_wins() {
    let mut rows = full_reference_rows();
    rows.push(ReferenceRow { player_count: 4, seq_idx: 7, counts: [1, 2, 3, 4, 0, 0], denominator: 10 });
    let table = reference_table_from_rows(&rows).expect("complete rows");
    assert_eq!(table[4][7 * 4], (1, 10));
    assert_eq!(table[4][7 * 4 + 3], (4, 10));
}

#[test]
fn a_missing_sequence_gives_no_table() {
    let mut rows = full_reference_rows();
    rows.remove(500);
    assert!(reference_table_from_rows(&rows).is_none());
    assert!(reference_table_from_rows(&[]).is_none());
}

#[test]
fn a_malformed_row_gives_no_table() {
    let base = full_reference_rows();
    let bad_rows = [
        ReferenceRow { player_count: 7, seq_idx: 0, counts: [0; 6], denominator: 1 },
        ReferenceRow { player_count: 2, seq_idx: 0, counts: [0; 6], denominator: 1 },
        ReferenceRow { player_count: 3, seq_idx: 343, counts: [0; 6], denominator: 1 },
        ReferenceRow { player_count: 3, seq_idx: -1, counts: [0; 6], denominator: 1 },
        ReferenceRow { player_count: 3, seq_idx: 0, counts: [0; 6], denominator: 0 },
    ];
    for bad in bad_rows {
        let mut rows = base.clone();
        rows.push(bad);
        assert!(reference_table_from_rows(&rows).is_none());
    }
}
