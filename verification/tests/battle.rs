use train_core::{ai_orders, self_play, AiLevel};
use train_core::{resolve_turn, resolve_turn_frames, BattleConfig, BattleState, Faction, Orders, Status, TrainKind};

fn duel_cfg() -> BattleConfig {
    BattleConfig {
        cols: 1,
        rows: 3,
        ticks_per_turn: 30,
        steam_start: 10,
        steam_per_turn: 10,
        steam_cap: 20,
        king_hp: 40,
        max_turns: 30,
        ..BattleConfig::default()
    }
}

#[test]
fn frames_match_plain_resolve_and_are_per_tick() {
    let cfg = duel_cfg();
    let a = Orders::new().deploy(TrainKind::Express, 0);
    let b = Orders::new().deploy(TrainKind::Armored, 0);

    let mut plain = BattleState::new(cfg.clone());
    resolve_turn(&mut plain, &a, &b);

    let mut traced = BattleState::new(cfg.clone());
    let (_events, frames) = resolve_turn_frames(&mut traced, &a, &b);

    assert_eq!(plain, traced, "frames variant must not change the outcome");
    assert_eq!(
        frames.len() as u32,
        cfg.ticks_per_turn + 1,
        "one frame per tick + the initial post-deploy frame"
    );
    assert!(frames[0].trains.iter().all(|t| t.progress == 0));
}

#[test]
fn fresh_state_is_sane() {
    let s = BattleState::new(BattleConfig::default());
    assert_eq!(s.king_hp(Faction::A), s.cfg.king_hp);
    assert_eq!(s.king_hp(Faction::B), s.cfg.king_hp);
    assert!(s.trains.is_empty());
    assert_eq!(s.status, Status::Ongoing);
}

#[test]
fn deterministic_replay() {
    let script = |s: &mut BattleState| {
        for _ in 0..6 {
            let a = Orders::new().deploy(TrainKind::Express, 0);
            let b = Orders::new().deploy(TrainKind::Armored, 0);
            resolve_turn(s, &a, &b);
        }
    };
    let mut s1 = BattleState::new(duel_cfg());
    let mut s2 = BattleState::new(duel_cfg());
    script(&mut s1);
    script(&mut s2);
    assert_eq!(s1, s2);
}

#[test]
fn rockets_destroy_the_king_and_win() {
    let mut s = BattleState::new(duel_cfg());
    let start = s.king_hp(Faction::B);
    let mut won = false;
    for _ in 0..s.cfg.max_turns {
        let a = Orders::new().deploy(TrainKind::Rocket, 0);
        resolve_turn(&mut s, &a, &Orders::new());
        if s.status == Status::Won(Faction::A) {
            won = true;
            break;
        }
    }
    assert!(won, "rockets should break through an idle B");
    assert!(s.king_hp(Faction::B) < start);
}

#[test]
fn head_on_collision_favors_armored() {
    let cfg = BattleConfig {
        cols: 1,
        rows: 5,
        ticks_per_turn: 18,
        steam_start: 10,
        ..duel_cfg()
    };
    let mut s = BattleState::new(cfg);
    resolve_turn(
        &mut s,
        &Orders::new().deploy(TrainKind::Express, 0),
        &Orders::new().deploy(TrainKind::Armored, 0),
    );
    let a = s.trains.iter().filter(|t| t.faction == Faction::A).count();
    let b = s.trains.iter().filter(|t| t.faction == Faction::B).count();
    assert_eq!(a, 0, "Express should lose the head-on");
    assert_eq!(b, 1, "Armored should survive the collision");
}

#[test]
fn steam_caps_deploys() {
    let cfg = BattleConfig {
        steam_start: 10,
        steam_per_turn: 0,
        ..duel_cfg()
    };
    let mut s = BattleState::new(cfg);
    let a = Orders::new()
        .deploy(TrainKind::Armored, 0)
        .deploy(TrainKind::Armored, 0)
        .deploy(TrainKind::Armored, 0);
    resolve_turn(&mut s, &a, &Orders::new());
    let a_trains = s.trains.iter().filter(|t| t.faction == Faction::A).count();
    assert!(a_trains <= 2, "spawned {a_trains}, steam should allow <= 2");
}

#[test]
fn switch_sets_initial_route() {
    let cfg = BattleConfig {
        ticks_per_turn: 0,
        ..BattleConfig::default()
    };
    let spawn = BattleState::new(cfg.clone()).arena.spawns[Faction::A.index()][0];
    assert!(BattleState::new(cfg.clone()).arena.is_switch(Faction::A, spawn));

    let mut s0 = BattleState::new(cfg.clone());
    resolve_turn(
        &mut s0,
        &Orders::new().switch(spawn, 0).deploy(TrainKind::Express, 0),
        &Orders::new(),
    );
    let mut s1 = BattleState::new(cfg);
    resolve_turn(
        &mut s1,
        &Orders::new().switch(spawn, 1).deploy(TrainKind::Express, 0),
        &Orders::new(),
    );
    assert_ne!(
        s0.trains[0].to, s1.trains[0].to,
        "different switch choices should pick different first nodes"
    );
}

#[test]
fn turn_and_tick_counters_advance() {
    let cfg = duel_cfg();
    let mut s = BattleState::new(cfg.clone());
    resolve_turn(&mut s, &Orders::new(), &Orders::new());
    resolve_turn(&mut s, &Orders::new(), &Orders::new());
    assert_eq!(s.turn, 2);
    assert_eq!(s.tick, 2 * cfg.ticks_per_turn);
    // Regen: start + two turns of income, capped.
    assert_eq!(s.steam[0], 20);
    assert_eq!(s.steam[1], 20);
}

#[test]
fn unaffordable_deploy_is_skipped() {
    let cfg = BattleConfig {
        steam_start: 2,
        steam_per_turn: 0,
        ticks_per_turn: 0,
        ..duel_cfg()
    };
    let mut s = BattleState::new(cfg);
    resolve_turn(&mut s, &Orders::new().deploy(TrainKind::Express, 0), &Orders::new());
    assert!(s.trains.is_empty());
    assert_eq!(s.steam[0], 2);
}

#[test]
fn default_arena_shape() {
    let s = BattleState::new(BattleConfig::default());
    assert_eq!(s.arena.nodes.len(), 3 * 4 + 2);
    assert_eq!(s.arena.spawns[0].len(), 3);
    assert_eq!(s.arena.spawns[1].len(), 3);
    assert_ne!(s.arena.kings[0], s.arena.kings[1]);
    assert_eq!(s.steam, [6, 6]);
}

#[test]
fn turn_cap_ends_the_match_and_freezes_it() {
    let cfg = BattleConfig { max_turns: 2, ..BattleConfig::default() };
    let mut s = BattleState::new(cfg);
    resolve_turn(&mut s, &Orders::new(), &Orders::new());
    assert_eq!(s.status, Status::Ongoing);
    resolve_turn(&mut s, &Orders::new(), &Orders::new());
    assert_eq!(s.turn, 2);
    assert_eq!(s.status, Status::Draw);
    let frozen = s.clone();
    let events = resolve_turn(&mut s, &Orders::new().deploy(TrainKind::Rocket, 0), &Orders::new());
    assert!(events.is_empty());
    assert_eq!(s, frozen);
}

#[test]
fn self_play_always_reaches_an_end() {
    let cfg = BattleConfig::default();
    for a in AiLevel::ALL {
        for b in AiLevel::ALL {
            let (status, turns, ka, kb) = self_play(cfg.clone(), a, b).expect("default matches fit the engine");
            assert_ne!(status, Status::Ongoing);
            assert!(turns <= cfg.max_turns);
            // Replaying the same match turn by turn gives the same ending.
            let mut s = BattleState::new(cfg.clone());
            while !s.is_over() {
                let oa = ai_orders(&s, Faction::A, a);
                let ob = ai_orders(&s, Faction::B, b);
                resolve_turn(&mut s, &oa, &ob);
            }
            assert_eq!((s.status, s.turn, s.king_hp(Faction::A), s.king_hp(Faction::B)), (status, turns, ka, kb));
        }
    }
}
