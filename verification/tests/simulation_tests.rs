use mino_dice_prob_calc::simulation::{
    default_bag, dice_sides, initialize_bag, run_simulation, winning_value_index,
    SimulationParams,
};

#[test]
fn test_default_bag_total() {
    let bag = default_bag();
    let total: usize = bag.total();
    assert_eq!(total, 36, "Default bag should have 36 dice total");
}

#[test]
fn test_dice_sides_length() {
    for name in &["Minotaur", "Griffin", "Mermaid", "Red", "Yellow", "Purple", "Gray"] {
        let sides = dice_sides(name);
        assert_eq!(sides.len(), 6);
    }
}

#[test]
fn test_initialize_bag_removes_own_dice() {
    let own = vec!["Red".to_string(), "Red".to_string()];
    let bag = initialize_bag(&own);
    assert_eq!(bag.count("Red"), 5, "Should have 5 Red dice remaining after drawing 2");
}

#[test]
fn test_simulation_output_keys() {
    let params = SimulationParams {
        number_players: 3,
        round_number: 2,
        order: 0,
        own_dices: vec!["Red".to_string(), "Yellow".to_string()],
        number_experiments: 1000,
    };
    let result = run_simulation(&params);
    for i in 0..=2 {
        assert!(result.contains_key(&i), "Result should contain key {}", i);
    }
    let total: usize = result.values().sum();
    assert_eq!(total, 1000);
}

#[test]
fn test_simulation_probabilities_sum_to_one() {
    let params = SimulationParams {
        number_players: 4,
        round_number: 3,
        order: 1,
        own_dices: vec!["Minotaur".to_string(), "Griffin".to_string(), "Red".to_string()],
        number_experiments: 2000,
    };
    let result = run_simulation(&params);
    let total: usize = result.values().sum();
    assert_eq!(total, 2000);
}

#[test]
fn dice_sides_values() {
    assert_eq!(dice_sides("Minotaur"), [99, 99, 99, 99, 0, 0]);
    assert_eq!(dice_sides("Mermaid"), [97, 97, 97, 97, 0, 0]);
    assert_eq!(dice_sides("Purple"), [3, 3, 2, 2, 1, 1]);
    // Unknown names roll like a Gray die.
    assert_eq!(dice_sides("banana"), [7, 1, 1, 0, 0, 0]);
}

#[test]
fn initialize_bag_ignores_unknown_and_exhausted_names() {
    let own = vec![
        "Minotaur".to_string(),
        "Minotaur".to_string(),
        "banana".to_string(),
    ];
    let bag = initialize_bag(&own);
    assert_eq!(bag.count("Minotaur"), 0);
    assert_eq!(bag.count("Gray"), 8);
    assert_eq!(bag.count("banana"), 0);
    assert_eq!(bag.total(), 35);
}

#[test]
fn winning_value_rules() {
    // Highest number wins; a tie goes to the later roller.
    assert_eq!(winning_value_index(&[5, 7, 7]), 2);
    assert_eq!(winning_value_index(&[6, 7, 7]), 2);
    // Mermaid beats a Minotaur.
    assert_eq!(winning_value_index(&[99, 97]), 1);
    // Griffin beats a Mermaid.
    assert_eq!(winning_value_index(&[97, 98]), 1);
    assert_eq!(winning_value_index(&[99, 97, 98]), 2);
    // Minotaur beats a Griffin.
    assert_eq!(winning_value_index(&[99, 98]), 0);
    // Specials beat numbers; Flags lose to anything else.
    assert_eq!(winning_value_index(&[7, 97, 0]), 1);
    assert_eq!(winning_value_index(&[0, 1]), 1);
    // An all-Flag trick goes to the last roller.
    assert_eq!(winning_value_index(&[0, 0]), 1);
    assert_eq!(winning_value_index(&[0, 0, 0]), 2);
}

#[test]
fn run_simulation_single_experiment() {
    let params = SimulationParams {
        number_players: 6,
        round_number: 6,
        order: 5,
        own_dices: vec!["Gray".to_string(); 6],
        number_experiments: 1,
    };
    let result = run_simulation(&params);
    assert_eq!(result.len(), 7);
    assert_eq!(result.values().sum::<usize>(), 1);
}

#[test]
fn run_simulation_with_no_tricks_counts_zero_wins() {
    let params = SimulationParams {
        number_players: 3,
        round_number: 0,
        order: 0,
        own_dices: vec!["Red".to_string()],
        number_experiments: 5,
    };
    let result = run_simulation(&params);
    assert_eq!(result.len(), 1);
    assert_eq!(result.get(&0), Some(&5));
}
