use train_core::map::{NodeKind, TrackMap};
use train_core::score::Outcome;
use train_core::sim::{generate_schedule, Simulation};
use train_core::GameConfig;

fn path_switches_to(map: &TrackMap, target_label: u32) -> Vec<(usize, bool)> {
    let station = map
        .stations
        .iter()
        .copied()
        .find(|&s| matches!(map.nodes[s].kind, NodeKind::Station { label } if label == target_label))
        .expect("label exists");
    let mut settings = Vec::new();
    let mut cur = station;
    while let Some(parent) = map.nodes[cur].parent {
        if map.nodes[parent].is_switch() {
            let active = map.nodes[parent].children[1] == cur;
            settings.push((parent, active));
        }
        cur = parent;
    }
    settings
}

fn open_path_to(sim: &mut Simulation, target_label: u32) {
    for (node, active) in path_switches_to(sim.map(), target_label) {
        if sim.switches()[node] != active {
            sim.toggle(node);
        }
    }
}

#[test]
fn schedule_is_deterministic() {
    let cfg = GameConfig::new(42, 5);
    let m = TrackMap::generate(&cfg);
    assert_eq!(generate_schedule(&cfg, &m.labels), generate_schedule(&cfg, &m.labels));
}

#[test]
fn first_train_is_immediate_and_count_matches() {
    let cfg = GameConfig::new(42, 5);
    let m = TrackMap::generate(&cfg);
    let sched = generate_schedule(&cfg, &m.labels);
    assert_eq!(sched.len(), cfg.trains as usize);
    assert_eq!(sched[0].tick, 0);
    assert!(sched.windows(2).all(|w| w[1].tick >= w[0].tick));
}

#[test]
fn single_train_routed_to_its_dest_scores_good() {
    let mut cfg = GameConfig::new(7, 6);
    cfg.trains = 1;
    let mut sim = Simulation::new(&cfg);
    let dest = sim.schedule()[0].dest;
    open_path_to(&mut sim, dest);
    sim.run_to_end(2_000_000);

    assert!(sim.is_finished());
    assert_eq!(sim.outcomes(), &[Outcome::Good]);
    assert_eq!(sim.scorer().correct, 1);
}

#[test]
fn single_train_routed_to_wrong_station_scores_bad() {
    let mut cfg = GameConfig::new(7, 6);
    cfg.trains = 1;
    cfg.dead_end_probability = 0;
    cfg.max_dead_ends = 0;
    let mut sim = Simulation::new(&cfg);
    let dest = sim.schedule()[0].dest;
    let other = sim
        .map()
        .labels
        .iter()
        .copied()
        .find(|&l| l != dest)
        .expect("level 6 has more than one station");
    open_path_to(&mut sim, other);
    sim.run_to_end(2_000_000);

    assert!(sim.is_finished());
    assert_eq!(sim.outcomes(), &[Outcome::Bad]);
    assert_eq!(sim.scorer().correct, 0);
}

#[test]
fn finishes_and_delivers_every_train() {
    for level in 1..12 {
        let cfg = GameConfig::new(1000 + level as u64, level);
        let mut sim = Simulation::new(&cfg);
        sim.run_to_end(5_000_000);
        assert!(sim.is_finished(), "level {level} did not finish");
        assert_eq!(sim.scorer().total, cfg.trains, "level {level} lost trains");
    }
}

#[test]
fn toggle_ignores_non_switches() {
    let cfg = GameConfig::new(3, 5);
    let mut sim = Simulation::new(&cfg);
    let station = sim.map().stations[0];
    let before = sim.switches().to_vec();
    sim.toggle(station);
    sim.toggle(99_999);
    assert_eq!(sim.switches(), before.as_slice());
}

#[test]
fn perfect_play_with_spaced_trains_scores_only_good() {
    let mut cfg = GameConfig::new(55, 6);
    cfg.dead_end_probability = 0;
    cfg.max_dead_ends = 0;
    let mut sim = Simulation::new(&cfg);
    let dest = sim.schedule()[0].dest;
    open_path_to(&mut sim, dest);
    sim.run_to_end(5_000_000);

    assert!(sim.is_finished());
    let aimed = sim.schedule().iter().filter(|s| s.dest == dest).count() as u32;
    let goods = sim.outcomes().iter().filter(|&&o| o == Outcome::Good).count() as u32;
    assert!(aimed >= 1);
    assert!(goods >= aimed, "all trains to the open station should be Good");
}

#[test]
fn toggling_a_switch_twice_restores_it() {
    let cfg = GameConfig::new(3, 5);
    let mut sim = Simulation::new(&cfg);
    let sw = sim.map().nodes.iter().position(|n| n.is_switch()).unwrap();
    let before = sim.switches().to_vec();
    sim.toggle(sw);
    assert_ne!(sim.switches()[sw], before[sw]);
    sim.toggle(sw);
    assert_eq!(sim.switches(), before.as_slice());
}

#[test]
fn fresh_simulation_and_one_step() {
    let cfg = GameConfig::new(8, 4);
    let mut sim = Simulation::new(&cfg);
    assert_eq!(sim.tick(), 0);
    assert!(sim.trains().is_empty());
    assert!(sim.outcomes().is_empty());
    assert!(sim.switches().iter().all(|&s| !s));
    assert_eq!(sim.switches().len(), sim.map().nodes.len());
    assert!(!sim.is_finished());
    sim.step();
    assert_eq!(sim.tick(), 1);
    // The first train left at tick 0 and is one tick along its first edge.
    assert_eq!(sim.trains().len(), 1);
    assert_eq!(sim.trains()[0].progress, 1);
    assert_eq!(sim.trains()[0].from, sim.map().root);
    assert_eq!(sim.trains()[0].dest, sim.schedule()[0].dest);
}

#[test]
fn run_stops_at_the_tick_limit() {
    let cfg = GameConfig::new(8, 4);
    let mut sim = Simulation::new(&cfg);
    let total = sim.run_to_end(5).total;
    assert_eq!(sim.tick(), 5);
    assert_eq!(total, 0);
    assert!(!sim.is_finished());
}

#[test]
fn schedule_draws_destinations_from_labels() {
    let cfg = GameConfig::new(42, 9);
    let m = TrackMap::generate(&cfg);
    let sched = generate_schedule(&cfg, &m.labels);
    for s in &sched {
        assert!(m.labels.contains(&s.dest));
        assert!(cfg.edge_ticks_choices.contains(&s.edge_ticks));
    }
    let none = generate_schedule(&cfg, &[]);
    assert!(none.iter().all(|s| s.dest == 1));
    // Destinations are drawn first, so the timing does not depend on the labels.
    let ticks: Vec<u32> = sched.iter().map(|s| s.tick).collect();
    let ticks_none: Vec<u32> = none.iter().map(|s| s.tick).collect();
    assert_eq!(ticks.len(), ticks_none.len());
}

#[test]
fn history_only_grows_step_by_step() {
    let cfg = GameConfig::new(77, 6);
    let mut sim = Simulation::new(&cfg);
    let switches: Vec<usize> = (0..sim.map().nodes.len()).filter(|&i| sim.map().nodes[i].is_switch()).collect();
    let mut k = 0usize;
    while !sim.is_finished() && sim.tick() < 1_000_000 {
        if sim.tick() % 7 == 0 && !switches.is_empty() {
            sim.toggle(switches[k % switches.len()]);
            k += 1;
        }
        let before_tick = sim.tick();
        let before: Vec<Outcome> = sim.outcomes().to_vec();
        sim.step();
        assert_eq!(sim.tick(), before_tick + 1);
        assert_eq!(&sim.outcomes()[..before.len()], &before[..]);
        assert_eq!(sim.scorer().total as usize, sim.outcomes().len());
        let due = sim.schedule().iter().filter(|s| s.tick <= before_tick).count();
        assert_eq!(due, sim.outcomes().len() + sim.trains().len());
        for t in sim.trains() {
            assert!(t.to.is_some());
            assert!(t.progress < t.edge_ticks);
        }
    }
    assert!(sim.is_finished());
    assert_eq!(sim.outcomes().len() as u32, cfg.trains);
}
