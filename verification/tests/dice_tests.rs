use mino_dice_prob_calc::dice::{face_counts, face_order_key, DieType, Face};

#[test]
fn bag_total_is_36() {
    assert_eq!(DieType::total_in_bag(), 36);
}

#[test]
fn all_dice_have_six_faces() {
    for die in &DieType::ALL {
        assert_eq!(die.faces().len(), 6, "{die:?} does not have 6 faces");
    }
}

#[test]
fn bag_counts_match_the_rules() {
    let counts: Vec<u8> = DieType::ALL.iter().map(|d| d.bag_count()).collect();
    assert_eq!(counts, vec![1, 3, 2, 7, 7, 8, 8]);
}

#[test]
fn face_classification() {
    assert!(Face::Minotaur.is_special());
    assert!(Face::Griffin.is_special());
    assert!(Face::Mermaid.is_special());
    assert!(!Face::Flag.is_special());
    assert!(!Face::Number(4).is_special());
    assert!(Face::Number(4).is_number());
    assert!(!Face::Flag.is_number());
    assert_eq!(Face::Number(6).numeric_value(), 6);
    assert_eq!(Face::Griffin.numeric_value(), 0);
    assert_eq!(Face::Flag.numeric_value(), 0);
}

#[test]
fn special_dice_are_the_three_characters() {
    let specials: Vec<DieType> = DieType::ALL
        .iter()
        .copied()
        .filter(|d| d.is_special_die())
        .collect();
    assert_eq!(specials, vec![DieType::Minotaur, DieType::Griffin, DieType::Mermaid]);
}

#[test]
fn face_counts_merge_duplicates_in_key_order() {
    assert_eq!(
        face_counts(DieType::Gray),
        vec![(Face::Flag, 3), (Face::Number(1), 2), (Face::Number(7), 1)]
    );
    assert_eq!(
        face_counts(DieType::Minotaur),
        vec![(Face::Flag, 2), (Face::Minotaur, 4)]
    );
    assert_eq!(
        face_counts(DieType::Red),
        vec![(Face::Number(5), 2), (Face::Number(6), 2), (Face::Number(7), 2)]
    );
    for die in &DieType::ALL {
        let total: u32 = face_counts(*die).iter().map(|(_, c)| *c as u32).sum();
        assert_eq!(total, 6);
    }
}

#[test]
fn red_die_has_no_flags_in_tally() {
    assert!(face_counts(DieType::Red).iter().all(|(f, _)| *f != Face::Flag));
}

#[test]
fn face_order_keys() {
    assert_eq!(face_order_key(Face::Flag), 0);
    assert_eq!(face_order_key(Face::Number(3)), 3);
    assert_eq!(face_order_key(Face::Mermaid), 100);
    assert_eq!(face_order_key(Face::Griffin), 101);
    assert_eq!(face_order_key(Face::Minotaur), 102);
}

#[test]
fn bag_counts_sum_to_36() {
    let total: u8 = DieType::ALL.iter().map(|d| d.bag_count()).sum();
    assert_eq!(total, 36);
}

#[test]
fn face_tallies_cover_all_six_faces() {
    for &die in &DieType::ALL {
        let total: u32 = face_counts(die).iter().map(|&(_, c)| c as u32).sum();
        assert_eq!(total, 6, "{die:?}");
    }
    assert_eq!(
        face_counts(DieType::Minotaur),
        vec![(Face::Flag, 2), (Face::Minotaur, 4)]
    );
}
