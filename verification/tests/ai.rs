use train_core::{ai_orders, resolve_turn, AiLevel, BattleConfig, BattleState, Command, Faction, Orders, Status, Train, TrainKind};

fn cfg() -> BattleConfig {
    BattleConfig::default()
}

fn spend(orders: &Orders) -> u32 {
    orders
        .commands
        .iter()
        .map(|c| match c {
            Command::Deploy { kind, .. } => kind.stats().cost,
            Command::SetSwitch { .. } => 0,
        })
        .sum()
}

#[test]
fn never_overspends() {
    for level in AiLevel::ALL {
        let s = BattleState::new(cfg());
        let o = ai_orders(&s, Faction::A, level);
        assert!(spend(&o) <= s.steam[Faction::A.index()], "{level:?} overspent");
    }
}

#[test]
fn broke_ai_does_not_deploy() {
    let mut s = BattleState::new(cfg());
    s.steam = [0, 0];
    for level in AiLevel::ALL {
        let o = ai_orders(&s, Faction::A, level);
        assert!(
            !o.commands.iter().any(|c| matches!(c, Command::Deploy { .. })),
            "{level:?} deployed with no steam"
        );
    }
}

#[test]
fn deterministic_same_state_same_plan() {
    let s = BattleState::new(cfg());
    for level in AiLevel::ALL {
        assert_eq!(ai_orders(&s, Faction::A, level), ai_orders(&s, Faction::A, level));
    }
}

#[test]
fn counters_an_armored_push_with_rockets() {
    let mut s = BattleState::new(cfg());
    for _ in 0..2 {
        s.trains.push(Train {
            faction: Faction::B,
            kind: TrainKind::Armored,
            hp: TrainKind::Armored.stats().hp,
            from: s.arena.spawns[Faction::B.index()][0],
            to: None,
            progress: 0,
            edge_ticks: TrainKind::Armored.stats().edge_ticks,
        });
    }
    let o = ai_orders(&s, Faction::A, AiLevel::Normal);
    assert!(
        o.commands.iter().any(|c| matches!(c, Command::Deploy { kind: TrainKind::Rocket, .. })),
        "should counter Armored with Rocket"
    );
}

#[test]
fn easy_is_no_greedier_than_normal() {
    let s = BattleState::new(cfg());
    let easy = spend(&ai_orders(&s, Faction::A, AiLevel::Easy));
    let normal = spend(&ai_orders(&s, Faction::A, AiLevel::Normal));
    assert!(easy <= normal, "Easy ({easy}) should not outspend Normal ({normal})");
}

#[test]
fn hard_sets_routing_switches() {
    let s = BattleState::new(cfg());
    let o = ai_orders(&s, Faction::A, AiLevel::Hard);
    assert!(
        o.commands.iter().any(|c| matches!(c, Command::SetSwitch { .. })),
        "Hard should route its switches"
    );
}

#[test]
fn two_ais_reach_a_deterministic_terminal() {
    let play = || {
        let mut s = BattleState::new(cfg());
        while !s.is_over() {
            let a = ai_orders(&s, Faction::A, AiLevel::Hard);
            let b = ai_orders(&s, Faction::B, AiLevel::Normal);
            resolve_turn(&mut s, &a, &b);
        }
        s.status
    };
    let r1 = play();
    let r2 = play();
    assert_eq!(r1, r2, "self-play must be deterministic");
    assert!(matches!(r1, Status::Won(_) | Status::Draw), "must terminate");
}

fn play_match(a: AiLevel, b: AiLevel) -> Status {
    let mut s = BattleState::new(cfg());
    while !s.is_over() {
        let oa = ai_orders(&s, Faction::A, a);
        let ob = ai_orders(&s, Faction::B, b);
        resolve_turn(&mut s, &oa, &ob);
    }
    s.status
}

#[test]
fn stronger_difficulty_wins_and_mirrors_draw() {
    assert_eq!(play_match(AiLevel::Normal, AiLevel::Easy), Status::Won(Faction::A));
    assert_eq!(play_match(AiLevel::Hard, AiLevel::Easy), Status::Won(Faction::A));
    assert_eq!(play_match(AiLevel::Hard, AiLevel::Normal), Status::Won(Faction::A));
    assert_eq!(play_match(AiLevel::Normal, AiLevel::Normal), Status::Draw);
}

#[test]
fn finished_game_gets_no_orders() {
    let mut s = BattleState::new(cfg());
    s.status = Status::Draw;
    for level in AiLevel::ALL {
        assert!(ai_orders(&s, Faction::A, level).commands.is_empty());
    }
}

#[test]
fn easy_deploys_one_cheapest_unit() {
    let s = BattleState::new(cfg());
    let o = ai_orders(&s, Faction::A, AiLevel::Easy);
    let deploys: Vec<_> = o.commands.iter().filter(|c| matches!(c, Command::Deploy { .. })).collect();
    assert_eq!(deploys.len(), 1);
    assert!(matches!(deploys[0], Command::Deploy { kind: TrainKind::Express, lane: 0 }));
}

#[test]
fn normal_opens_with_armored_on_an_empty_board() {
    let s = BattleState::new(cfg());
    let o = ai_orders(&s, Faction::A, AiLevel::Normal);
    // Six steam buys one Armored (cost 5) in lane 0 and nothing else.
    assert_eq!(o.commands, vec![Command::Deploy { kind: TrainKind::Armored, lane: 0 }]);
}
