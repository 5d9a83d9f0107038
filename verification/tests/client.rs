use train_core::client::{
    faction_colors, kind_glyph, kind_name, level_blurb, level_name, next_route, plan_orders, Sfx,
};
use train_core::{AiLevel, BattleConfig, BattleState, Command, Faction, TrainKind};

#[test]
fn sound_ids_are_stable() {
    assert_eq!(Sfx::Good.id(), 0);
    assert_eq!(Sfx::Bad.id(), 1);
    assert_eq!(Sfx::Ugly.id(), 2);
    assert_eq!(Sfx::Switch.id(), 3);
    assert_eq!(Sfx::Win.id(), 4);
    assert_eq!(Sfx::Lose.id(), 5);
}

#[test]
fn labels_and_colours() {
    assert_eq!(faction_colors(Faction::A), ("#2f8fb8", "#4fc1e9"));
    assert_eq!(faction_colors(Faction::B), ("#c2384a", "#ed5565"));
    assert_eq!(kind_glyph(TrainKind::Express), "E");
    assert_eq!(kind_glyph(TrainKind::Armored), "A");
    assert_eq!(kind_glyph(TrainKind::Rocket), "R");
    assert_eq!(kind_name(TrainKind::Armored), "Armored");
    assert_eq!(kind_name(TrainKind::Rocket), "Rocket");
    assert_eq!(kind_name(TrainKind::Express), "Express");
    assert_eq!(level_name(AiLevel::Easy), "Easy");
    assert_eq!(level_name(AiLevel::Normal), "Normal");
    assert_eq!(level_name(AiLevel::Hard), "Hard");
    assert_eq!(level_blurb(AiLevel::Easy), "one cheap unit a turn");
    assert_eq!(level_blurb(AiLevel::Normal), "counters & defends");
    assert_eq!(level_blurb(AiLevel::Hard), "counters, defends, routes");
}

#[test]
fn route_choice_wraps() {
    assert_eq!(next_route(0, 2), 1);
    assert_eq!(next_route(1, 2), 0);
    assert_eq!(next_route(2, 3), 0);
}

#[test]
fn plan_sets_switches_then_deploys() {
    let s = BattleState::new(BattleConfig::default());
    let mut sw = s.switches[Faction::A.index()].clone();
    let spawn = s.arena.spawns[0][0];
    sw[spawn] = 1;
    let plan = vec![(TrainKind::Rocket, 2), (TrainKind::Express, 0)];
    let o = plan_orders(&s.arena, &sw, &plan);
    let switches: Vec<_> = o.commands.iter().filter(|c| matches!(c, Command::SetSwitch { .. })).collect();
    let n_junctions = (0..s.arena.nodes.len()).filter(|&n| s.arena.is_switch(Faction::A, n)).count();
    assert_eq!(switches.len(), n_junctions);
    assert!(o.commands.contains(&Command::SetSwitch { node: spawn, choice: 1 }));
    let k = o.commands.len();
    assert_eq!(o.commands[k - 2], Command::Deploy { kind: TrainKind::Rocket, lane: 2 });
    assert_eq!(o.commands[k - 1], Command::Deploy { kind: TrainKind::Express, lane: 0 });
}
