use train_core::score::{Outcome, Scorer};

#[test]
fn basic_points() {
    let mut s = Scorer::new();
    assert_eq!(s.apply(Outcome::Good), 10);
    assert_eq!(s.apply(Outcome::Bad), -10);
    assert_eq!(s.apply(Outcome::Ugly), -20);
    assert_eq!(s.score, -20);
    assert_eq!(s.correct, 1);
    assert_eq!(s.total, 3);
}

#[test]
fn combo_kicks_in_on_third_correct() {
    let mut s = Scorer::new();
    assert_eq!(s.apply(Outcome::Good), 10);
    assert_eq!(s.apply(Outcome::Good), 10);
    assert_eq!(s.apply(Outcome::Good), 13);
    assert_eq!(s.apply(Outcome::Good), 16);
    assert_eq!(s.best_combo, 4);
}

#[test]
fn combo_bonus_is_capped() {
    let mut s = Scorer::new();
    for _ in 0..20 {
        s.apply(Outcome::Good);
    }
    assert_eq!(s.apply(Outcome::Good), 25);
}

#[test]
fn mistakes_reset_combo() {
    let mut s = Scorer::new();
    s.apply(Outcome::Good);
    s.apply(Outcome::Good);
    s.apply(Outcome::Good);
    assert_eq!(s.combo, 3);
    s.apply(Outcome::Bad);
    assert_eq!(s.combo, 0);
    assert_eq!(s.apply(Outcome::Good), 10);
    assert_eq!(s.best_combo, 3);
}

#[test]
fn accuracy_math() {
    let mut s = Scorer::new();
    assert_eq!(s.accuracy(), 0);
    s.apply(Outcome::Good);
    s.apply(Outcome::Good);
    s.apply(Outcome::Bad);
    s.apply(Outcome::Bad);
    assert_eq!(s.accuracy(), 50);
}

#[test]
fn ugly_resets_combo_and_costs_twenty() {
    let mut s = Scorer::new();
    s.apply(Outcome::Good);
    s.apply(Outcome::Good);
    assert_eq!(s.apply(Outcome::Ugly), -20);
    assert_eq!(s.combo, 0);
    assert_eq!(s.best_combo, 2);
    assert_eq!(s.score, 0);
}

#[test]
fn accuracy_rounds_down_and_tops_at_hundred() {
    let mut s = Scorer::new();
    s.apply(Outcome::Good);
    s.apply(Outcome::Bad);
    s.apply(Outcome::Bad);
    assert_eq!(s.accuracy(), 33);
    let mut t = Scorer::new();
    t.apply(Outcome::Good);
    assert_eq!(t.accuracy(), 100);
}

#[test]
fn fifth_correct_earns_nineteen() {
    let mut s = Scorer::new();
    for _ in 0..4 {
        s.apply(Outcome::Good);
    }
    assert_eq!(s.apply(Outcome::Good), 19);
    assert_eq!(s.score, 10 + 10 + 13 + 16 + 19);
}

#[test]
fn scores_right_up_to_the_integer_bounds() {
    let mut s = Scorer::new();
    s.score = i32::MAX - 10;
    assert_eq!(s.apply(Outcome::Good), 10);
    assert_eq!(s.score, i32::MAX);
    assert_eq!(s.apply(Outcome::Ugly), -20);
    assert_eq!(s.score, i32::MAX - 20);
    let mut low = Scorer::new();
    low.score = i32::MIN + 10;
    assert_eq!(low.apply(Outcome::Bad), -10);
    assert_eq!(low.score, i32::MIN);
    assert_eq!(low.apply(Outcome::Good), 10);
    assert_eq!(low.score, i32::MIN + 10);
    assert_eq!(low.total, 2);
}
