use train_core::replay::{verify, Input, RejectReason, Run, MAX_INPUTS, MAX_TICKS};
use train_core::sim::Simulation;
use train_core::GameConfig;

fn honest_default_run(seed: u64, level: u32) -> Run {
    let cfg = GameConfig::new(seed, level);
    let mut sim = Simulation::new(&cfg);
    sim.run_to_end(MAX_TICKS);
    Run { seed, level, inputs: Vec::new(), claimed_score: sim.scorer().score }
}

#[test]
fn honest_run_verifies() {
    for level in 1..10 {
        let run = honest_default_run(2024, level);
        let v = verify(&run).expect("honest run should verify");
        assert_eq!(v.score, run.claimed_score);
        assert_eq!(v.total, GameConfig::new(2024, level).trains);
    }
}

#[test]
fn run_with_real_inputs_verifies() {
    let cfg = GameConfig::new(99, 6);
    let mut sim = Simulation::new(&cfg);
    let mut inputs = Vec::new();
    let root = sim.map().root;
    let toggle_ticks = [0u32, 5, 30, 100];
    let mut ti = 0;
    while !sim.is_finished() && sim.tick() < 1_000_000 {
        if ti < toggle_ticks.len() && sim.tick() == toggle_ticks[ti] {
            if sim.map().nodes[root].is_switch() {
                sim.toggle(root);
                inputs.push(Input { tick: sim.tick(), node: root });
            }
            ti += 1;
        }
        sim.step();
    }
    let run = Run { seed: 99, level: 6, inputs, claimed_score: sim.scorer().score };
    let v = verify(&run).expect("recorded inputs should verify");
    assert_eq!(v.score, run.claimed_score);
}

#[test]
fn cheating_is_rejected() {
    let mut run = honest_default_run(7, 5);
    run.claimed_score += 1000;
    match verify(&run) {
        Err(RejectReason::ScoreMismatch { claimed, actual }) => {
            assert_eq!(claimed, run.claimed_score);
            assert_ne!(actual, claimed);
        }
        other => panic!("expected ScoreMismatch, got {other:?}"),
    }
}

#[test]
fn unsorted_inputs_still_verify() {
    let cfg = GameConfig::new(11, 6);
    let mut sim = Simulation::new(&cfg);
    let root = sim.map().root;
    let mut inputs = Vec::new();
    let ticks = [2u32, 8, 8, 20];
    let mut ti = 0;
    while !sim.is_finished() && sim.tick() < 1_000_000 {
        while ti < ticks.len() && ticks[ti] == sim.tick() {
            if sim.map().nodes[root].is_switch() {
                sim.toggle(root);
                inputs.push(Input { tick: sim.tick(), node: root });
            }
            ti += 1;
        }
        sim.step();
    }
    let score = sim.scorer().score;
    inputs.reverse();
    let run = Run { seed: 11, level: 6, inputs, claimed_score: score };
    assert!(verify(&run).is_ok());
}

#[test]
fn too_many_inputs_rejected() {
    let run = Run { seed: 1, level: 1, inputs: vec![Input { tick: 0, node: 0 }; MAX_INPUTS + 1], claimed_score: 0 };
    assert_eq!(verify(&run), Err(RejectReason::MalformedInput));
}

#[test]
fn same_tick_toggles_cancel() {
    let honest = honest_default_run(4, 3);
    let run = Run {
        seed: 4,
        level: 3,
        inputs: vec![Input { tick: 3, node: 0 }, Input { tick: 3, node: 0 }],
        claimed_score: honest.claimed_score,
    };
    assert!(verify(&run).is_ok());
    let accepted = verify(&honest).unwrap();
    assert_eq!(accepted.score, honest.claimed_score);
    assert_eq!(accepted.total, GameConfig::new(4, 3).trains);
    assert!(accepted.correct <= accepted.total);
}

#[test]
fn inputs_after_the_game_ends_are_malformed() {
    let honest = honest_default_run(5, 2);
    assert!(verify(&honest).is_ok());
    let far = Run { inputs: vec![Input { tick: 4_000_000_000, node: 0 }], ..honest.clone() };
    assert_eq!(verify(&far), Err(RejectReason::MalformedInput));
    let capped = Run { inputs: vec![Input { tick: MAX_TICKS, node: 0 }], ..honest.clone() };
    assert_eq!(verify(&capped), Err(RejectReason::MalformedInput));
    // The tick at which the re-simulated run stops is already beyond it.
    let cfg = GameConfig::new(5, 2);
    let mut sim = Simulation::new(&cfg);
    sim.run_to_end(MAX_TICKS);
    let end = sim.tick();
    let at_end = Run { inputs: vec![Input { tick: end, node: 0 }], ..honest.clone() };
    assert_eq!(verify(&at_end), Err(RejectReason::MalformedInput));
    let just_before = Run { inputs: vec![Input { tick: end - 1, node: 0 }], ..honest.clone() };
    assert_ne!(verify(&just_before), Err(RejectReason::MalformedInput));
}

#[test]
fn order_of_same_tick_toggles_does_not_matter() {
    let cfg = GameConfig::new(21, 7);
    let sim = Simulation::new(&cfg);
    let switches: Vec<usize> = (0..sim.map().nodes.len()).filter(|&i| sim.map().nodes[i].is_switch()).collect();
    assert!(switches.len() >= 2);
    let (a, b) = (switches[0], switches[1]);
    let one = Run {
        seed: 21,
        level: 7,
        inputs: vec![Input { tick: 40, node: a }, Input { tick: 40, node: b }, Input { tick: 7, node: b }],
        claimed_score: 0,
    };
    let other = Run {
        inputs: vec![Input { tick: 7, node: b }, Input { tick: 40, node: b }, Input { tick: 40, node: a }],
        ..one.clone()
    };
    assert_eq!(verify(&one), verify(&other));
    // Out-of-order inputs are sorted, never rejected as late.
    assert_ne!(verify(&one), Err(RejectReason::MalformedInput));
}
