use train_core::GameConfig;

#[test]
fn deterministic_from_seed_and_level() {
    assert_eq!(GameConfig::new(123, 5), GameConfig::new(123, 5));
}

#[test]
fn difficulty_increases_monotonically() {
    let easy = GameConfig::new(1, 1);
    let hard = GameConfig::new(1, 10);
    assert!(hard.tree_height >= easy.tree_height);
    assert!(hard.trains > easy.trains);
    let easy_fast = *easy.edge_ticks_choices.iter().min().unwrap();
    let hard_fast = *hard.edge_ticks_choices.iter().min().unwrap();
    assert!(hard_fast <= easy_fast);
}

#[test]
fn level_zero_is_clamped() {
    assert_eq!(GameConfig::new(9, 0), GameConfig::new(9, 1));
}

#[test]
fn edge_times_have_a_floor() {
    for level in 1..200 {
        let c = GameConfig::new(0, level);
        assert!(c.edge_ticks_choices.iter().all(|&t| t >= 90));
    }
}

#[test]
fn curve_values_at_known_levels() {
    let c1 = GameConfig::new(5, 1);
    assert_eq!(c1.level, 1);
    assert_eq!(c1.tree_height, 2);
    assert_eq!(c1.extend_probability, 38);
    assert_eq!(c1.dead_end_probability, 0);
    assert_eq!(c1.max_dead_ends, 0);
    assert_eq!(c1.trains, 10);
    assert_eq!(c1.edge_ticks_choices, vec![228]);
    assert_eq!(c1.interval_choices, vec![3, 2]);

    let c10 = GameConfig::new(5, 10);
    assert_eq!(c10.tree_height, 7);
    assert_eq!(c10.extend_probability, 78);
    assert_eq!(c10.dead_end_probability, 8);
    assert_eq!(c10.max_dead_ends, 3);
    assert_eq!(c10.trains, 28);
    assert_eq!(c10.edge_ticks_choices, vec![120, 96]);
    assert_eq!(c10.interval_choices, vec![3, 2, 2, 1]);

    let c100 = GameConfig::new(5, 100);
    assert_eq!(c100.trains, 30);
    assert_eq!(c100.edge_ticks_choices, vec![96, 90]);
    assert_eq!(c100.dead_end_probability, 15);
}
