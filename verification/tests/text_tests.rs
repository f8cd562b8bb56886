use mino_dice_prob_calc::dice::DieType;
use mino_dice_prob_calc::text::{
    die_type_to_str, format_die, format_hand_pattern, parse_die_type_str,
};

#[test]
fn names_of_die_types() {
    assert_eq!(format_die(DieType::Minotaur), "Minotaur");
    assert_eq!(format_die(DieType::Gray), "Gray");
    assert_eq!(die_type_to_str(DieType::Purple), "purple");
    assert_eq!(die_type_to_str(DieType::Griffin), "griffin");
}

#[test]
fn parse_ignores_ascii_case() {
    assert_eq!(parse_die_type_str("red"), Ok(DieType::Red));
    assert_eq!(parse_die_type_str("RED"), Ok(DieType::Red));
    assert_eq!(parse_die_type_str("MinoTaur"), Ok(DieType::Minotaur));
    assert_eq!(parse_die_type_str("gray"), Ok(DieType::Gray));
}

#[test]
fn parse_round_trips_every_name() {
    for &dt in &DieType::ALL {
        assert_eq!(parse_die_type_str(die_type_to_str(dt)), Ok(dt));
        assert_eq!(parse_die_type_str(format_die(dt)), Ok(dt));
    }
}

#[test]
fn unknown_names_are_reported_in_lower_case() {
    assert_eq!(
        parse_die_type_str("Banana"),
        Err("Unknown die type: banana".to_string())
    );
    assert_eq!(parse_die_type_str(""), Err("Unknown die type: ".to_string()));
    assert_eq!(parse_die_type_str("grey"), Err("Unknown die type: grey".to_string()));
}

#[test]
fn hand_patterns_count_each_type() {
    let hand = vec![DieType::Red, DieType::Minotaur, DieType::Red];
    assert_eq!(format_hand_pattern(&hand), "Minotaurx1, Redx2");
    assert_eq!(format_hand_pattern(&[]), "");
    assert_eq!(format_hand_pattern(&[DieType::Gray; 12]), "Grayx12");
    assert_eq!(
        format_hand_pattern(&[DieType::Gray, DieType::Mermaid, DieType::Yellow]),
        "Mermaidx1, Yellowx1, Grayx1"
    );
}
