//! Turn resolution: apply both players' orders, then run the fixed-tick
//! deterministic simulation (movement → shooting → collisions → win check).
use vstd::prelude::*;

use super::arena::{dist2, lemma_coord_dist_ok, spec_dist2, Arena, NodeId, Tower, TowerKind};
use super::orders::{Command, Orders};
use super::state::{spec_king_hp, same_tower_place, train_ok, BattleModel, BattleState, Status, EDGE_LIMIT, HP_FLOOR, MAX_TRAINS};
use super::unit::{spec_stats, Train, TrainKind};
use super::{spec_enemy, spec_index, Faction};

verus! {

/// Notable things that happened during a turn.
#[derive(Clone, Copy, Debug, PartialEq, Eq, Structural)]
pub enum TurnEvent {
    KingDamaged { faction: Faction, amount: i32 },
    TowerDestroyed { faction: Faction, kind: TowerKind },
    TrainDestroyed { faction: Faction },
    Victory { faction: Faction },
}

// ---------------------------------------------------------------------------
// Orders
// ---------------------------------------------------------------------------

/// The lane index a deploy lands in: `lane`, clamped to the last lane.
pub open spec fn clamp_lane(lane: usize, lanes: int) -> int {
    if lane < lanes - 1 {
        lane as int
    } else {
        lanes - 1
    }
}

/// One command of faction `f` applied to the battle.
///
/// A switch choice is recorded for nodes that exist. A deploy that is
/// affordable spends the kind's cost and puts a fresh train on the chosen
/// lane's spawn node, heading along the faction's current route from there.
pub open spec fn apply_command(a: Arena, m: BattleModel, f: Faction, c: Command) -> BattleModel {
    let fi = spec_index(f);
    match c {
        Command::SetSwitch { node, choice } => {
            if node < m.switches[fi].len() {
                BattleModel { switches: m.switches.update(fi, m.switches[fi].update(node as int, choice)), ..m }
            } else {
                m
            }
        },
        Command::Deploy { kind, lane } => {
            let st = spec_stats(kind);
            let spawns = a.spawns[fi]@;
            if m.steam[fi] < st.cost || spawns.len() == 0 {
                m
            } else {
                let node = spawns[clamp_lane(lane, spawns.len() as int)];
                let to = a.spec_route(f, node, m.switches[fi][node as int] as int);
                let t = Train {
                    faction: f,
                    kind,
                    hp: st.hp,
                    from: node,
                    to,
                    progress: 0,
                    edge_ticks: if st.edge_ticks >= 1 { st.edge_ticks } else { 1 },
                };
                BattleModel {
                    steam: m.steam.update(fi, (m.steam[fi] - st.cost) as u32),
                    trains: m.trains.push(t),
                    ..m
                }
            }
        },
    }
}

/// The first `k` commands of faction `f`, applied in order.
pub open spec fn apply_commands(a: Arena, m: BattleModel, f: Faction, cmds: Seq<Command>, k: int) -> BattleModel
    decreases k,
{
    if k <= 0 {
        m
    } else {
        apply_command(a, apply_commands(a, m, f, cmds, k - 1), f, cmds[k - 1])
    }
}

/// All of `orders` of faction `f`, applied in order.
pub open spec fn apply_orders_spec(a: Arena, m: BattleModel, f: Faction, orders: Seq<Command>) -> BattleModel {
    apply_commands(a, m, f, orders, orders.len() as int)
}

fn apply_orders(state: &mut BattleState, faction: Faction, orders: &Orders)
    requires
        old(state).frame_ok(),
        old(state).trains@.len() + orders.commands@.len() <= MAX_TRAINS,
    ensures
        final(state).frame_ok(),
        final(state)@ == apply_orders_spec(old(state).arena, old(state)@, faction, orders.commands@),
        final(state).arena == old(state).arena,
        final(state).cfg == old(state).cfg,
        final(state).trains@.len() <= old(state).trains@.len() + orders.commands@.len(),
        final(state).towers@ == old(state).towers@,
        final(state).status == old(state).status,
        final(state).tick == old(state).tick,
        final(state).turn == old(state).turn,
{
    let f = faction.index();
    let mut i: usize = 0;
    while i < orders.commands.len()
        invariant
            state.frame_ok(),
            f == spec_index(faction),
            i <= orders.commands@.len(),
            state.arena == old(state).arena,
            state.cfg == old(state).cfg,
            state@ == apply_commands(old(state).arena, old(state)@, faction, orders.commands@, i as int),
            state.trains@.len() <= old(state).trains@.len() + i,
            old(state).trains@.len() + orders.commands@.len() <= MAX_TRAINS,
            state.towers@ == old(state).towers@,
            state.status == old(state).status,
            state.tick == old(state).tick,
            state.turn == old(state).turn,
        decreases orders.commands@.len() - i,
    {
        let cmd = orders.commands[i];
        let ghost before = state@;
        match cmd {
            Command::SetSwitch { node, choice } => {
                if node < state.switches[f].len() {
                    if f == 0 {
                        state.switches[0].set(node, choice);
                    } else {
                        state.switches[1].set(node, choice);
                    }
                    proof {
                        assert(state@.switches =~= before.switches.update(f as int, before.switches[f as int].update(node as int, choice)));
                    }
                }
            },
            Command::Deploy { kind, lane } => {
                let stats = kind.stats();
                let cost = stats.cost;
                if state.steam[f] >= cost && state.arena.spawns[f].len() > 0 {
                    let nspawn = state.arena.spawns[f].len();
                    let li = if lane < nspawn - 1 { lane } else { nspawn - 1 };
                    let node = state.arena.spawns[f][li];
                    let choice = if f == 0 { state.switches[0][node] } else { state.switches[1][node] };
                    let to = state.arena.route(faction, node, choice as usize);
                    let new_steam = state.steam[f] - cost;
                    if f == 0 {
                        state.steam = [new_steam, state.steam[1]];
                    } else {
                        state.steam = [state.steam[0], new_steam];
                    }
                    let edge_ticks = if stats.edge_ticks >= 1 { stats.edge_ticks } else { 1 };
                    state.trains.push(Train {
                        faction,
                        kind,
                        hp: stats.hp,
                        from: node,
                        to,
                        progress: 0,
                        edge_ticks,
                    });
                    proof {
                        assert(state@.steam =~= before.steam.update(f as int, (before.steam[f as int] - cost) as u32));
                        assert(state@.switches =~= before.switches);
                    }
                }
            },
        }
        proof {
            assert(orders.commands@[i as int] == cmd);
        }
        i = i + 1;
    }
}

// ---------------------------------------------------------------------------
// Movement
// ---------------------------------------------------------------------------

/// The node a train currently occupies: its destination once it is at least
/// halfway along the edge, otherwise the node it left.
pub open spec fn spec_node_of(t: Train) -> NodeId {
    if t.to is Some && t.progress * 2 >= t.edge_ticks {
        t.to->0
    } else {
        t.from
    }
}

/// Siege damage when a train of `kind` rams the enemy King.
pub open spec fn spec_ram_damage(kind: TrainKind) -> i32 {
    (spec_stats(kind).damage * 2) as i32
}

/// Index of the first tower at `node` owned by `f`, searching from `i`; -1 if none.
pub open spec fn tower_at_from(towers: Seq<Tower>, node: NodeId, f: Faction, i: int) -> int
    decreases towers.len() - i,
{
    if i < 0 || i >= towers.len() {
        -1
    } else if towers[i].node == node && towers[i].faction == f {
        i
    } else {
        tower_at_from(towers, node, f, i + 1)
    }
}

/// `dmg` dealt to the first tower of `f` at `node` (if any), with a
/// `KingDamaged` event when that tower is a King.
pub open spec fn damage_tower_spec(
    towers: Seq<Tower>,
    ev: Seq<TurnEvent>,
    node: NodeId,
    f: Faction,
    dmg: i32,
) -> (Seq<Tower>, Seq<TurnEvent>) {
    let k = tower_at_from(towers, node, f, 0);
    if k < 0 {
        (towers, ev)
    } else {
        let t = towers[k];
        (
            towers.update(k, Tower { hp: (t.hp - dmg) as i32, ..t }),
            if t.kind == TowerKind::King {
                ev.push(TurnEvent::KingDamaged { faction: t.faction, amount: dmg })
            } else {
                ev
            },
        )
    }
}

/// Train `i` advances one tick. On reaching the end of its edge it either rams
/// the enemy King (and is consumed) or takes its faction's route onward; a
/// train routed into a terminal that is not the enemy King is lost.
pub open spec fn move_one(a: Arena, m: BattleModel, ev: Seq<TurnEvent>, i: int) -> (BattleModel, Seq<TurnEvent>) {
    let t = m.trains[i];
    if t.hp <= 0 || t.to is None {
        (m, ev)
    } else {
        let p = (t.progress + 1) as u32;
        if p < t.edge_ticks {
            (BattleModel { trains: m.trains.update(i, Train { progress: p, ..t }), ..m }, ev)
        } else {
            let arrived = t.to->0;
            let enemy = spec_enemy(t.faction);
            if arrived == a.kings[spec_index(enemy)] {
                let hit = damage_tower_spec(m.towers, ev, arrived, enemy, spec_ram_damage(t.kind));
                (
                    BattleModel {
                        trains: m.trains.update(i, Train { progress: p, hp: 0, ..t }),
                        towers: hit.0,
                        ..m
                    },
                    hit.1,
                )
            } else {
                let choice = m.switches[spec_index(t.faction)][arrived as int];
                let to = a.spec_route(t.faction, arrived, choice as int);
                let moved = Train {
                    from: arrived,
                    to,
                    progress: 0,
                    hp: if to is None { 0 } else { t.hp },
                    ..t
                };
                (BattleModel { trains: m.trains.update(i, moved), ..m }, ev)
            }
        }
    }
}

/// The first `k` trains moved, in index order.
pub open spec fn move_upto(a: Arena, m: BattleModel, ev: Seq<TurnEvent>, k: int) -> (BattleModel, Seq<TurnEvent>)
    decreases k,
{
    if k <= 0 {
        (m, ev)
    } else {
        let p = move_upto(a, m, ev, k - 1);
        move_one(a, p.0, p.1, k - 1)
    }
}

/// The movement phase of a tick.
pub open spec fn move_spec(a: Arena, m: BattleModel, ev: Seq<TurnEvent>) -> (BattleModel, Seq<TurnEvent>) {
    move_upto(a, m, ev, m.trains.len() as int)
}

/// In a ladder, the tower of faction `e` on `e`'s King node is `e`'s King.
proof fn lemma_king_tower(s: BattleState, e: Faction)
    requires
        s.frame_ok(),
    ensures
        tower_at_from(s.towers@, s.arena.kings[spec_index(e)], e, 0) == spec_index(e),
        s.towers@[spec_index(e)].kind == TowerKind::King,
        s.towers@[spec_index(e)].faction == e,
{
    assert(same_tower_place(s.towers@[0], s.arena.towers@[0]));
    assert(same_tower_place(s.towers@[1], s.arena.towers@[1]));
    reveal_with_fuel(tower_at_from, 3);
}

/// Damage the tower of `faction` sitting on `node`.
fn damage_tower_node(state: &mut BattleState, node: NodeId, faction: Faction, dmg: i32, events: &mut Vec<TurnEvent>)
    requires
        old(state).frame_ok(),
        0 <= dmg <= 36,
        forall|k: int| 0 <= k < old(state).towers@.len() ==> (#[trigger] old(state).towers@[k]).hp >= HP_FLOOR - 0x400_0000,
    ensures
        final(state).frame_ok(),
        (final(state)@.towers, final(events)@) == damage_tower_spec(old(state)@.towers, old(events)@, node, faction, dmg),
        final(state)@ == (BattleModel { towers: final(state)@.towers, ..old(state)@ }),
        final(state).arena == old(state).arena,
        final(state).cfg == old(state).cfg,
{
    let mut k: usize = 0;
    while k < state.towers.len()
        invariant
            *state == *old(state),
            events@ == old(events)@,
            old(state).frame_ok(),
            0 <= dmg <= 36,
            forall|j: int| 0 <= j < old(state).towers@.len() ==> (#[trigger] old(state).towers@[j]).hp >= HP_FLOOR - 0x400_0000,
            k <= state.towers@.len(),
            tower_at_from(state.towers@, node, faction, 0) == tower_at_from(state.towers@, node, faction, k as int),
        decreases state.towers@.len() - k,
    {
        let t = state.towers[k];
        if t.node == node && t.faction == faction {
            let ghost before = state.towers@;
            let hit = Tower { hp: t.hp - dmg, ..t };
            state.towers.set(k, hit);
            if t.kind == TowerKind::King {
                events.push(TurnEvent::KingDamaged { faction: t.faction, amount: dmg });
            }
            proof {
                assert(state.towers@ == before.update(k as int, hit));
                assert(same_tower_place(before[k as int], state.arena.towers@[k as int]));
                assert forall|j: int| 0 <= j < state.towers@.len() implies same_tower_place(#[trigger] state.towers@[j], state.arena.towers@[j]) by {
                    assert(same_tower_place(before[j], state.arena.towers@[j]));
                }
                assert(state@ =~= (BattleModel { towers: state@.towers, ..old(state)@ }));
            }
            return;
        }
        k = k + 1;
    }
}

/// Siege damage when a train rams the enemy King.
fn ram_damage(kind: TrainKind) -> (r: i32)
    ensures
        r == spec_ram_damage(kind),
        0 <= r <= 36,
{
    kind.stats().damage * 2
}

/// Advance every train one tick; route at nodes; ram the enemy King on arrival.
fn move_trains(state: &mut BattleState, events: &mut Vec<TurnEvent>)
    requires
        old(state).frame_ok(),
        old(state).towers_floor(),
    ensures
        final(state).frame_ok(),
        final(state).arena == old(state).arena,
        final(state).cfg == old(state).cfg,
        (final(state)@, final(events)@) == move_spec(old(state).arena, old(state)@, old(events)@),
        final(state).trains@.len() == old(state).trains@.len(),
        forall|k: int|
            0 <= k < final(state).towers@.len() ==> (#[trigger] final(state).towers@[k]).hp >= old(state).towers@[k].hp - 36 * old(state).trains@.len(),
        forall|k: int|
            2 <= k < final(state).towers@.len() ==> (#[trigger] final(state).towers@[k]).hp == old(state).towers@[k].hp,
        final(state).status == old(state).status,
        final(state).tick == old(state).tick,
        final(state).turn == old(state).turn,
{
    let n = state.trains.len();
    let mut i: usize = 0;
    while i < n
        invariant
            state.frame_ok(),
            old(state).frame_ok(),
            old(state).towers_floor(),
            n == old(state).trains@.len(),
            i <= n,
            state.arena == old(state).arena,
            state.cfg == old(state).cfg,
            state.trains@.len() == n,
            (state@, events@) == move_upto(old(state).arena, old(state)@, old(events)@, i as int),
            forall|k: int|
                0 <= k < state.towers@.len() ==> (#[trigger] state.towers@[k]).hp >= old(state).towers@[k].hp - 36 * i,
            forall|k: int|
                2 <= k < state.towers@.len() ==> (#[trigger] state.towers@[k]).hp == old(state).towers@[k].hp,
            state.status == old(state).status,
            state.tick == old(state).tick,
            state.turn == old(state).turn,
        decreases n - i,
    {
        let t = state.trains[i];
        let ghost nn = state.arena.nodes@.len();
        proof {
            assert(train_ok(state.trains@[i as int], nn as int));
            assert(n <= MAX_TRAINS);
            assert forall|k: int| 0 <= k < state.towers@.len() implies (#[trigger] state.towers@[k]).hp >= HP_FLOOR - 0x400_0000 by {
                assert(old(state).towers@[k].hp >= HP_FLOOR);
            }
        }
        if t.hp > 0 {
            match t.to {
                None => {},
                Some(dest) => {
                    let mut moved = t;
                    moved.progress = t.progress + 1;
                    if moved.progress >= moved.edge_ticks {
                        let enemy = t.faction.enemy();
                        if dest == state.arena.kings[enemy.index()] {
                            let dmg = ram_damage(t.kind);
                            proof {
                                lemma_king_tower(*state, enemy);
                            }
                            damage_tower_node(state, dest, enemy, dmg, events);
                            moved.hp = 0;
                        } else {
                            let choice = if t.faction.index() == 0 {
                                state.switches[0][dest]
                            } else {
                                state.switches[1][dest]
                            };
                            moved.from = dest;
                            moved.to = state.arena.route(t.faction, dest, choice as usize);
                            moved.progress = 0;
                            if moved.to.is_none() {
                                moved.hp = 0;
                            }
                        }
                    }
                    let ghost mid = state@;
                    state.trains.set(i, moved);
                    proof {
                        assert(state@.trains =~= mid.trains.update(i as int, moved));
                        assert forall|j: int| 0 <= j < state.trains@.len() implies train_ok(#[trigger] state.trains@[j], nn as int) by {
                            if j != i {
                                assert(state.trains@[j] == mid.trains[j]);
                            }
                        }
                    }
                },
            }
        }
        i = i + 1;
    }
}

// ---------------------------------------------------------------------------
// Shooting and collisions
// ---------------------------------------------------------------------------

/// What a shot is aimed at: a train or a tower, by index.
#[derive(Clone, Copy, Debug, PartialEq, Eq, Structural)]
pub enum Target {
    Train(usize),
    Tower(usize),
}

/// The node a train occupies while alive.
pub open spec fn spec_occ(t: Train) -> Option<NodeId> {
    if t.hp > 0 {
        Some(spec_node_of(t))
    } else {
        None
    }
}

/// Squared distance between two nodes of the arena.
pub open spec fn node_dist2(a: Arena, x: NodeId, y: NodeId) -> i64 {
    spec_dist2(a.nodes@[x as int].pos, a.nodes@[y as int].pos) as i64
}

/// Keep the closest in-range candidate; an earlier candidate wins ties.
pub open spec fn consider_spec(best: Option<(i64, Target)>, d: i64, r2: i64, target: Target) -> Option<(i64, Target)> {
    if d <= r2 && (match best {
        None => true,
        Some(b) => d < b.0,
    }) {
        Some((d, target))
    } else {
        best
    }
}

/// The best target among enemy trains `0..j` of the shooter `i` standing on `at`.
pub open spec fn scan_trains(a: Arena, trains: Seq<Train>, i: int, at: NodeId, r2: i64, j: int) -> Option<(i64, Target)>
    decreases j,
{
    if j <= 0 {
        None
    } else {
        let b = scan_trains(a, trains, i, at, r2, j - 1);
        let u = trains[j - 1];
        if j - 1 == i || u.hp <= 0 || u.faction == trains[i].faction {
            b
        } else {
            consider_spec(b, node_dist2(a, at, spec_node_of(u)), r2, Target::Train((j - 1) as usize))
        }
    }
}

/// The best target after also scanning enemy towers `0..k` (trains came first).
pub open spec fn scan_towers(
    a: Arena,
    towers: Seq<Tower>,
    f: Faction,
    at: NodeId,
    r2: i64,
    init: Option<(i64, Target)>,
    k: int,
) -> Option<(i64, Target)>
    decreases k,
{
    if k <= 0 {
        init
    } else {
        let b = scan_towers(a, towers, f, at, r2, init, k - 1);
        let tow = towers[k - 1];
        if tow.hp <= 0 || tow.faction == f {
            b
        } else {
            consider_spec(b, node_dist2(a, at, tow.node), r2, Target::Tower((k - 1) as usize))
        }
    }
}

/// What ranged train `i` fires at: the nearest enemy train or tower within its
/// range, enemy trains before towers and lower indices first on ties.
pub open spec fn rocket_target(a: Arena, m: BattleModel, i: int) -> Option<Target> {
    let t = m.trains[i];
    let st = spec_stats(t.kind);
    if t.hp <= 0 || st.range <= 0 {
        None
    } else {
        let at = spec_node_of(t);
        let r2 = (st.range * st.range) as i64;
        let best = scan_towers(a, m.towers, t.faction, at, r2, scan_trains(a, m.trains, i, at, r2, m.trains.len() as int), m.towers.len() as int);
        match best {
            None => None,
            Some(b) => Some(b.1),
        }
    }
}

/// Damage dealt by the ranged shots of trains `0..i`: per train, per tower.
pub open spec fn rocket_hits(a: Arena, m: BattleModel, i: int) -> (Seq<int>, Seq<int>)
    decreases i,
{
    if i <= 0 {
        (Seq::new(m.trains.len(), |j: int| 0int), Seq::new(m.towers.len(), |k: int| 0int))
    } else {
        let p = rocket_hits(a, m, i - 1);
        let d = spec_stats(m.trains[i - 1].kind).damage as int;
        match rocket_target(a, m, i - 1) {
            None => p,
            Some(Target::Train(j)) => (p.0.update(j as int, p.0[j as int] + d), p.1),
            Some(Target::Tower(k)) => (p.0, p.1.update(k as int, p.1[k as int] + d)),
        }
    }
}

/// The nearest enemy train among `0..j` within range `r2` of a tower of faction
/// `f` on `at`; lower indices first on ties.
pub open spec fn tower_scan(a: Arena, trains: Seq<Train>, f: Faction, at: NodeId, r2: i64, j: int) -> Option<(i64, usize)>
    decreases j,
{
    if j <= 0 {
        None
    } else {
        let b = tower_scan(a, trains, f, at, r2, j - 1);
        let u = trains[j - 1];
        let d = node_dist2(a, at, spec_node_of(u));
        if u.hp <= 0 || u.faction == f {
            b
        } else if d <= r2 && (match b {
            None => true,
            Some(x) => d < x.0,
        }) {
            Some((d, (j - 1) as usize))
        } else {
            b
        }
    }
}

/// The train a standing tower shoots, if any.
pub open spec fn tower_target(a: Arena, m: BattleModel, k: int) -> Option<usize> {
    let tow = m.towers[k];
    if tow.hp <= 0 {
        None
    } else {
        match tower_scan(a, m.trains, tow.faction, tow.node, (tow.range * tow.range) as i64, m.trains.len() as int) {
            None => None,
            Some(b) => Some(b.1),
        }
    }
}

/// Per-train damage after the ranged shots and the shots of towers `0..k`.
pub open spec fn tower_hits(a: Arena, m: BattleModel, k: int) -> Seq<int>
    decreases k,
{
    if k <= 0 {
        rocket_hits(a, m, m.trains.len() as int).0
    } else {
        let p = tower_hits(a, m, k - 1);
        match tower_target(a, m, k - 1) {
            None => p,
            Some(j) => p.update(j as int, p[j as int] + m.towers[k - 1].damage),
        }
    }
}

/// The heaviest hitter among enemy trains `0..j` standing on `node` with train
/// `i` (0 if none).
pub open spec fn melee_foe(trains: Seq<Train>, i: int, node: NodeId, j: int) -> int
    decreases j,
{
    if j <= 0 {
        0
    } else {
        let p = melee_foe(trains, i, node, j - 1);
        let u = trains[j - 1];
        if j - 1 != i && u.hp > 0 && u.faction != trains[i].faction && spec_node_of(u) == node {
            let d = spec_stats(u.kind).damage as int;
            if d > p {
                d
            } else {
                p
            }
        } else {
            p
        }
    }
}

/// Train `k` is a living train of the other side than train `i`, other than
/// it, standing on `node`.
pub open spec fn enemy_on(trains: Seq<Train>, i: int, node: NodeId, k: int) -> bool {
    &&& 0 <= k < trains.len()
    &&& k != i
    &&& trains[k].hp > 0
    &&& trains[k].faction != trains[i].faction
    &&& spec_node_of(trains[k]) == node
}

/// Scanning the first `j` trains finds the heaviest enemy among them: at least
/// every enemy's damage, equal to one of them, and 0 when there is none.
proof fn lemma_melee_foe_max(trains: Seq<Train>, i: int, node: NodeId, j: int)
    requires
        0 <= j <= trains.len(),
    ensures
        forall|k: int| 0 <= k < j && #[trigger] enemy_on(trains, i, node, k)
            ==> melee_foe(trains, i, node, j) >= spec_stats(trains[k].kind).damage,
        (exists|k: int| 0 <= k < j && #[trigger] enemy_on(trains, i, node, k)) ==> exists|k: int|
            0 <= k < j && #[trigger] enemy_on(trains, i, node, k) && melee_foe(trains, i, node, j)
                == spec_stats(trains[k].kind).damage,
        !(exists|k: int| 0 <= k < j && #[trigger] enemy_on(trains, i, node, k)) ==> melee_foe(trains, i, node, j) == 0,
    decreases j,
{
    if j > 0 {
        lemma_melee_foe_max(trains, i, node, j - 1);
        let u = trains[j - 1];
        let d = spec_stats(u.kind).damage as int;
        assert(d > 0);
        if enemy_on(trains, i, node, j - 1) {
            if !(exists|k: int| 0 <= k < j - 1 && #[trigger] enemy_on(trains, i, node, k)) {
                assert(melee_foe(trains, i, node, j) == d);
            } else if melee_foe(trains, i, node, j) == d {
            } else {
                let k = choose|k: int| 0 <= k < j - 1 && #[trigger] enemy_on(trains, i, node, k)
                    && melee_foe(trains, i, node, j - 1) == spec_stats(trains[k].kind).damage;
                assert(enemy_on(trains, i, node, k));
            }
        } else {
            if exists|k: int| 0 <= k < j && #[trigger] enemy_on(trains, i, node, k) {
                let k = choose|k: int| 0 <= k < j && #[trigger] enemy_on(trains, i, node, k);
                assert(k < j - 1);
                let k2 = choose|k: int| 0 <= k < j - 1 && #[trigger] enemy_on(trains, i, node, k)
                    && melee_foe(trains, i, node, j - 1) == spec_stats(trains[k].kind).damage;
                assert(enemy_on(trains, i, node, k2));
            }
        }
    }
}

/// The collision damage a living train takes in a tick is the damage of the
/// heaviest living enemy train on its node: at least every such enemy's
/// damage and equal to one of them; with no enemy there, and for a train
/// already destroyed, it is 0.
pub proof fn lemma_melee_is_heaviest_enemy(m: BattleModel, i: int)
    requires
        0 <= i < m.trains.len(),
    ensures
        ({
            let node = spec_node_of(m.trains[i]);
            let d = melee_damage(m, i);
            &&& m.trains[i].hp <= 0 ==> d == 0
            &&& m.trains[i].hp > 0 ==> forall|k: int| #[trigger] enemy_on(m.trains, i, node, k)
                ==> d >= spec_stats(m.trains[k].kind).damage
            &&& m.trains[i].hp > 0 && (exists|k: int| #[trigger] enemy_on(m.trains, i, node, k)) ==> exists|k: int|
                #[trigger] enemy_on(m.trains, i, node, k) && d == spec_stats(m.trains[k].kind).damage
            &&& m.trains[i].hp > 0 && !(exists|k: int| #[trigger] enemy_on(m.trains, i, node, k)) ==> d == 0
        }),
{
    let node = spec_node_of(m.trains[i]);
    let n = m.trains.len() as int;
    lemma_melee_foe_max(m.trains, i, node, n);
    if m.trains[i].hp > 0 {
        if exists|k: int| #[trigger] enemy_on(m.trains, i, node, k) {
            let k = choose|k: int| #[trigger] enemy_on(m.trains, i, node, k);
            assert(0 <= k < n && enemy_on(m.trains, i, node, k));
        }
        if exists|k: int| 0 <= k < n && #[trigger] enemy_on(m.trains, i, node, k) {
            let k = choose|k: int| 0 <= k < n && #[trigger] enemy_on(m.trains, i, node, k)
                && melee_foe(m.trains, i, node, n) == spec_stats(m.trains[k].kind).damage;
            assert(enemy_on(m.trains, i, node, k));
        }
    }
}

/// The collision damage train `i` takes: the heaviest enemy sharing its node.
pub open spec fn melee_damage(m: BattleModel, i: int) -> int {
    let t = m.trains[i];
    if t.hp > 0 {
        melee_foe(m.trains, i, spec_node_of(t), m.trains.len() as int)
    } else {
        0
    }
}

/// Total damage train `i` takes this tick (from one snapshot of the board).
pub open spec fn train_damage(a: Arena, m: BattleModel, i: int) -> int {
    tower_hits(a, m, m.towers.len() as int)[i] + melee_damage(m, i)
}

/// Damage tower `k` takes this tick.
pub open spec fn tower_damage(a: Arena, m: BattleModel, k: int) -> int {
    rocket_hits(a, m, m.trains.len() as int).1[k]
}

/// A train after this tick's damage: living trains lose positive damage.
pub open spec fn damaged_train(t: Train, d: int) -> Train {
    if d > 0 && t.hp > 0 {
        Train { hp: (t.hp - d) as i32, ..t }
    } else {
        t
    }
}

/// Towers `0..k` after this tick's damage, with their events in tower order:
/// a hit King reports the damage, and a tower brought down reports its fall.
pub open spec fn damage_towers_upto(a: Arena, m: BattleModel, ev: Seq<TurnEvent>, k: int) -> (Seq<Tower>, Seq<TurnEvent>)
    decreases k,
{
    if k <= 0 {
        (m.towers, ev)
    } else {
        let p = damage_towers_upto(a, m, ev, k - 1);
        let d = tower_damage(a, m, k - 1);
        let tow = p.0[k - 1];
        if d > 0 && tow.hp > 0 {
            let hit = Tower { hp: (tow.hp - d) as i32, ..tow };
            let e1 = if tow.kind == TowerKind::King {
                p.1.push(TurnEvent::KingDamaged { faction: tow.faction, amount: d as i32 })
            } else {
                p.1
            };
            let e2 = if hit.hp <= 0 {
                e1.push(TurnEvent::TowerDestroyed { faction: tow.faction, kind: tow.kind })
            } else {
                e1
            };
            (p.0.update(k - 1, hit), e2)
        } else {
            p
        }
    }
}

/// The shooting and collision phase of a tick: all damage is computed from one
/// snapshot of the board, then applied, so order within a tick cannot bias it.
pub open spec fn damage_spec(a: Arena, m: BattleModel, ev: Seq<TurnEvent>) -> (BattleModel, Seq<TurnEvent>) {
    let towers = damage_towers_upto(a, m, ev, m.towers.len() as int);
    (
        BattleModel {
            trains: Seq::new(m.trains.len(), |i: int| damaged_train(m.trains[i], train_damage(a, m, i))),
            towers: towers.0,
            ..m
        },
        towers.1,
    )
}

/// The square of an `i32` fits an `i64`.
proof fn lemma_square_fits(x: i32)
    ensures
        0 <= x * x <= 0x4000_0000_0000_0000,
{
    assert(0 <= x * x <= 0x4000_0000_0000_0000) by (nonlinear_arith)
        requires
            -0x8000_0000 <= x <= 0x7FFF_FFFF,
    ;
}

/// The node a train currently occupies (its near node along the current edge).
fn node_of(t: &Train) -> (r: NodeId)
    requires
        t.progress <= EDGE_LIMIT + 1,
    ensures
        r == spec_node_of(*t),
{
    match t.to {
        Some(to) => {
            if t.progress * 2 >= t.edge_ticks {
                to
            } else {
                t.from
            }
        },
        None => t.from,
    }
}

/// Keep the closest in-range candidate (tie-break: earlier index, since trains
/// are visited before towers and in index order).
fn consider(best: &mut Option<(i64, Target)>, d: i64, r2: i64, target: Target)
    ensures
        *final(best) == consider_spec(*old(best), d, r2, target),
{
    let better = match *best {
        None => true,
        Some((bd, _)) => d < bd,
    };
    if d <= r2 && better {
        *best = Some((d, target));
    }
}

/// The occupied node of every train (`None` for wrecks).
fn occupancy(state: &BattleState) -> (r: Vec<Option<NodeId>>)
    requires
        state.frame_ok(),
    ensures
        r@.len() == state.trains@.len(),
        forall|i: int| 0 <= i < r@.len() ==> #[trigger] r@[i] == spec_occ(state.trains@[i]),
        forall|i: int| 0 <= i < r@.len() && r@[i] is Some ==> (#[trigger] r@[i])->0 < state.arena.nodes@.len(),
{
    let mut occ: Vec<Option<NodeId>> = Vec::new();
    let mut i: usize = 0;
    while i < state.trains.len()
        invariant
            state.frame_ok(),
            i <= state.trains@.len(),
            occ@.len() == i,
            forall|j: int| 0 <= j < i ==> #[trigger] occ@[j] == spec_occ(state.trains@[j]),
            forall|j: int| 0 <= j < i && occ@[j] is Some ==> (#[trigger] occ@[j])->0 < state.arena.nodes@.len(),
        decreases state.trains@.len() - i,
    {
        let t = &state.trains[i];
        proof {
            assert(train_ok(state.trains@[i as int], state.arena.nodes@.len() as int));
        }
        if t.hp > 0 {
            occ.push(Some(node_of(t)));
        } else {
            occ.push(None);
        }
        i = i + 1;
    }
    occ
}

/// The target of ranged train `i`, if it fires this tick.
fn rocket_shot(state: &BattleState, occ: &Vec<Option<NodeId>>, i: usize) -> (r: Option<Target>)
    requires
        state.frame_ok(),
        i < state.trains@.len(),
        occ@.len() == state.trains@.len(),
        forall|j: int| 0 <= j < occ@.len() ==> #[trigger] occ@[j] == spec_occ(state.trains@[j]),
        forall|j: int| 0 <= j < occ@.len() && occ@[j] is Some ==> (#[trigger] occ@[j])->0 < state.arena.nodes@.len(),
    ensures
        r == rocket_target(state.arena, state@, i as int),
        r matches Some(Target::Train(j)) ==> j < state.trains@.len(),
        r matches Some(Target::Tower(k)) ==> k < state.towers@.len(),
{
    let t = &state.trains[i];
    if !t.alive() {
        return None;
    }
    let stats = t.kind.stats();
    if stats.range <= 0 {
        return None;
    }
    let node = match occ[i] {
        Some(node) => node,
        None => return None,
    };
    let p = state.arena.pos(node);
    let r2 = (stats.range as i64) * (stats.range as i64);
    let ghost n = state.arena.nodes@.len();
    let mut best: Option<(i64, Target)> = None;
    let mut j: usize = 0;
    while j < state.trains.len()
        invariant
            state.frame_ok(),
            i < state.trains@.len(),
            n == state.arena.nodes@.len(),
            node < n,
            node == spec_node_of(state.trains@[i as int]),
            p == state.arena.nodes@[node as int].pos,
            *t == state.trains@[i as int],
            r2 == (stats.range * stats.range) as i64,
            occ@.len() == state.trains@.len(),
            forall|jj: int| 0 <= jj < occ@.len() ==> #[trigger] occ@[jj] == spec_occ(state.trains@[jj]),
            forall|jj: int| 0 <= jj < occ@.len() && occ@[jj] is Some ==> (#[trigger] occ@[jj])->0 < state.arena.nodes@.len(),
            j <= state.trains@.len(),
            best == scan_trains(state.arena, state.trains@, i as int, node, r2, j as int),
            best matches Some(b) ==> (b.1 matches Target::Train(x) && x < j),
        decreases state.trains@.len() - j,
    {
        let u = &state.trains[j];
        if j != i && u.alive() && u.faction != t.faction {
            if let Some(jn) = occ[j] {
                let q = state.arena.pos(jn);
                proof {
                    lemma_coord_dist_ok(p, q);
                }
                let d = dist2(p, q);
                consider(&mut best, d, r2, Target::Train(j));
            }
        }
        j = j + 1;
    }
    let mut k: usize = 0;
    let ghost init = best;
    while k < state.towers.len()
        invariant
            state.frame_ok(),
            n == state.arena.nodes@.len(),
            node < n,
            p == state.arena.nodes@[node as int].pos,
            *t == state.trains@[i as int],
            k <= state.towers@.len(),
            best == scan_towers(state.arena, state.towers@, t.faction, node, r2, init, k as int),
            best matches Some(b) ==> ((b.1 matches Target::Train(x) && x < state.trains@.len())
                || (b.1 matches Target::Tower(x) && x < k)),
        decreases state.towers@.len() - k,
    {
        let tow = &state.towers[k];
        if tow.alive() && tow.faction != t.faction {
            proof {
                assert(same_tower_place(state.towers@[k as int], state.arena.towers@[k as int]));
            }
            let q = state.arena.pos(tow.node);
            proof {
                lemma_coord_dist_ok(p, q);
            }
            let d = dist2(p, q);
            consider(&mut best, d, r2, Target::Tower(k));
        }
        k = k + 1;
    }
    match best {
        Some((_, target)) => Some(target),
        None => None,
    }
}

/// The train a tower shoots this tick, if any.
fn tower_shot(state: &BattleState, occ: &Vec<Option<NodeId>>, k: usize) -> (r: Option<usize>)
    requires
        state.frame_ok(),
        k < state.towers@.len(),
        occ@.len() == state.trains@.len(),
        forall|j: int| 0 <= j < occ@.len() ==> #[trigger] occ@[j] == spec_occ(state.trains@[j]),
        forall|j: int| 0 <= j < occ@.len() && occ@[j] is Some ==> (#[trigger] occ@[j])->0 < state.arena.nodes@.len(),
    ensures
        r == tower_target(state.arena, state@, k as int),
        r matches Some(j) ==> j < state.trains@.len(),
{
    let tow = &state.towers[k];
    if !tow.alive() {
        return None;
    }
    proof {
        assert(same_tower_place(state.towers@[k as int], state.arena.towers@[k as int]));
    }
    let p = state.arena.pos(tow.node);
    proof {
        lemma_square_fits(tow.range);
    }
    let r2 = (tow.range as i64) * (tow.range as i64);
    let mut best: Option<(i64, usize)> = None;
    let mut j: usize = 0;
    while j < state.trains.len()
        invariant
            state.frame_ok(),
            k < state.towers@.len(),
            *tow == state.towers@[k as int],
            tow.node < state.arena.nodes@.len(),
            p == state.arena.nodes@[tow.node as int].pos,
            r2 == (tow.range * tow.range) as i64,
            occ@.len() == state.trains@.len(),
            forall|jj: int| 0 <= jj < occ@.len() ==> #[trigger] occ@[jj] == spec_occ(state.trains@[jj]),
            forall|jj: int| 0 <= jj < occ@.len() && occ@[jj] is Some ==> (#[trigger] occ@[jj])->0 < state.arena.nodes@.len(),
            j <= state.trains@.len(),
            best == tower_scan(state.arena, state.trains@, tow.faction, tow.node, r2, j as int),
            best matches Some(b) ==> b.1 < j,
        decreases state.trains@.len() - j,
    {
        let u = &state.trains[j];
        if u.alive() && u.faction != tow.faction {
            if let Some(jn) = occ[j] {
                let q = state.arena.pos(jn);
                proof {
                    lemma_coord_dist_ok(p, q);
                }
                let d = dist2(p, q);
                let better = match best {
                    None => true,
                    Some((bd, _)) => d < bd,
                };
                if d <= r2 && better {
                    best = Some((d, j));
                }
            }
        }
        j = j + 1;
    }
    match best {
        Some((_, j)) => Some(j),
        None => None,
    }
}

/// Collision damage train `i` takes: the heaviest enemy sharing its node.
fn melee_of(state: &BattleState, occ: &Vec<Option<NodeId>>, i: usize) -> (r: i32)
    requires
        state.frame_ok(),
        i < state.trains@.len(),
        occ@.len() == state.trains@.len(),
        forall|j: int| 0 <= j < occ@.len() ==> #[trigger] occ@[j] == spec_occ(state.trains@[j]),
    ensures
        r == melee_damage(state@, i as int),
        0 <= r <= 18,
{
    let node = match occ[i] {
        Some(node) => node,
        None => return 0,
    };
    let t = &state.trains[i];
    let mut foe: i32 = 0;
    let mut j: usize = 0;
    while j < state.trains.len()
        invariant
            i < state.trains@.len(),
            *t == state.trains@[i as int],
            t.hp > 0,
            node == spec_node_of(*t),
            occ@.len() == state.trains@.len(),
            forall|jj: int| 0 <= jj < occ@.len() ==> #[trigger] occ@[jj] == spec_occ(state.trains@[jj]),
            j <= state.trains@.len(),
            foe == melee_foe(state.trains@, i as int, node, j as int),
            0 <= foe <= 18,
        decreases state.trains@.len() - j,
    {
        let u = &state.trains[j];
        if j != i && u.alive() && u.faction != t.faction {
            if occ[j] == Some(node) {
                let d = u.kind.stats().damage;
                if d > foe {
                    foe = d;
                }
            }
        }
        j = j + 1;
    }
    foe
}

/// The exec damage tallies carry exactly the mathematical values.
pub open spec fn tallies(v: Seq<i32>, s: Seq<int>) -> bool {
    v.len() == s.len() && forall|j: int| 0 <= j < v.len() ==> #[trigger] v[j] as int == s[j]
}

/// Compute all shooting + collision damage from a single snapshot, then apply it
/// (so order within a tick can't bias the result).
fn apply_damage(state: &mut BattleState, events: &mut Vec<TurnEvent>)
    requires
        old(state).frame_ok(),
        forall|k: int| 0 <= k < old(state).towers@.len() ==> (#[trigger] old(state).towers@[k]).hp >= HP_FLOOR - 0x400_0000,
    ensures
        final(state).frame_ok(),
        final(state).arena == old(state).arena,
        final(state).cfg == old(state).cfg,
        (final(state)@, final(events)@) == damage_spec(old(state).arena, old(state)@, old(events)@),
        forall|k: int|
            0 <= k < final(state).towers@.len() ==> (#[trigger] final(state).towers@[k]).hp == old(state).towers@[k].hp
                || (old(state).towers@[k].hp > 0 && final(state).towers@[k].hp >= 1 - 18 * MAX_TRAINS),
        final(state).status == old(state).status,
        final(state).tick == old(state).tick,
        final(state).turn == old(state).turn,
{
    let ghost a = state.arena;
    let ghost m0 = state@;
    let n = state.trains.len();
    let nt = state.towers.len();
    let occ = occupancy(state);

    let mut train_dmg: Vec<i32> = Vec::new();
    let mut i: usize = 0;
    while i < n
        invariant
            i <= n,
            train_dmg@ == Seq::new(i as nat, |j: int| 0i32),
        decreases n - i,
    {
        train_dmg.push(0);
        i = i + 1;
        proof {
            assert(train_dmg@ =~= Seq::new(i as nat, |j: int| 0i32));
        }
    }
    let mut tower_dmg: Vec<i32> = Vec::new();
    let mut k: usize = 0;
    while k < nt
        invariant
            k <= nt,
            tower_dmg@ == Seq::new(k as nat, |j: int| 0i32),
        decreases nt - k,
    {
        tower_dmg.push(0);
        k = k + 1;
        proof {
            assert(tower_dmg@ =~= Seq::new(k as nat, |j: int| 0i32));
        }
    }

    // Ranged trains (Rockets): hit the nearest enemy train or tower in range.
    let mut i: usize = 0;
    while i < n
        invariant
            state.frame_ok(),
            state@ == m0,
            state.arena == a,
            n == state.trains@.len(),
            nt == state.towers@.len(),
            n <= MAX_TRAINS,
            i <= n,
            occ@.len() == state.trains@.len(),
            forall|j: int| 0 <= j < occ@.len() ==> #[trigger] occ@[j] == spec_occ(state.trains@[j]),
            forall|j: int| 0 <= j < occ@.len() && occ@[j] is Some ==> (#[trigger] occ@[j])->0 < state.arena.nodes@.len(),
            train_dmg@.len() == n,
            tower_dmg@.len() == nt,
            tallies(train_dmg@, rocket_hits(a, m0, i as int).0),
            tallies(tower_dmg@, rocket_hits(a, m0, i as int).1),
            forall|j: int| 0 <= j < n ==> 0 <= #[trigger] train_dmg@[j] <= 18 * i,
            forall|j: int| 0 <= j < nt ==> 0 <= #[trigger] tower_dmg@[j] <= 18 * i,
        decreases n - i,
    {
        let d = state.trains[i].kind.stats().damage;
        match rocket_shot(state, &occ, i) {
            Some(Target::Train(j)) => {
                let v = train_dmg[j] + d;
                train_dmg.set(j, v);
            },
            Some(Target::Tower(k)) => {
                let v = tower_dmg[k] + d;
                tower_dmg.set(k, v);
            },
            None => {},
        }
        i = i + 1;
    }

    // Towers shoot the nearest enemy train in range.
    let mut k: usize = 0;
    while k < nt
        invariant
            state.frame_ok(),
            state@ == m0,
            state.arena == a,
            n == state.trains@.len(),
            nt == state.towers@.len(),
            n <= MAX_TRAINS,
            nt <= 4,
            k <= nt,
            occ@.len() == state.trains@.len(),
            forall|j: int| 0 <= j < occ@.len() ==> #[trigger] occ@[j] == spec_occ(state.trains@[j]),
            forall|j: int| 0 <= j < occ@.len() && occ@[j] is Some ==> (#[trigger] occ@[j])->0 < state.arena.nodes@.len(),
            train_dmg@.len() == n,
            tower_dmg@.len() == nt,
            tallies(train_dmg@, tower_hits(a, m0, k as int)),
            tallies(tower_dmg@, rocket_hits(a, m0, n as int).1),
            forall|j: int| 0 <= j < n ==> -0x10_0000 * k <= #[trigger] train_dmg@[j] <= 18 * n + 0x10_0000 * k,
            forall|j: int| 0 <= j < nt ==> 0 <= #[trigger] tower_dmg@[j] <= 18 * n,
        decreases nt - k,
    {
        proof {
            assert(-0x10_0000 * k - 0x10_0000 == -0x10_0000 * (k + 1));
            assert(0x10_0000 * k + 0x10_0000 == 0x10_0000 * (k + 1));
            assert(same_tower_place(state.towers@[k as int], state.arena.towers@[k as int]));
            let rows = crate::battle::arena::max1(state.cfg.rows);
            let cols = crate::battle::arena::max1(state.cfg.cols);
            assert(state.arena.towers@ == crate::battle::arena::ladder_towers(state.cfg, rows, cols));
        }
        match tower_shot(state, &occ, k) {
            Some(j) => {
                let v = train_dmg[j] + state.towers[k].damage;
                train_dmg.set(j, v);
            },
            None => {},
        }
        k = k + 1;
    }

    // Melee: opposing trains sharing a node trade blows (max enemy damage there).
    let mut i: usize = 0;
    while i < n
        invariant
            state.frame_ok(),
            state@ == m0,
            state.arena == a,
            n == state.trains@.len(),
            nt == state.towers@.len(),
            n <= MAX_TRAINS,
            i <= n,
            occ@.len() == state.trains@.len(),
            forall|j: int| 0 <= j < occ@.len() ==> #[trigger] occ@[j] == spec_occ(state.trains@[j]),
            train_dmg@.len() == n,
            forall|j: int| 0 <= j < i ==> #[trigger] train_dmg@[j] as int == train_damage(a, m0, j),
            forall|j: int| i <= j < n ==> #[trigger] train_dmg@[j] as int == tower_hits(a, m0, nt as int)[j],
            forall|j: int| 0 <= j < i ==> -0x40_0000 <= #[trigger] train_dmg@[j] <= 18 * n + 0x40_0000 + 18,
            forall|j: int| i <= j < n ==> -0x40_0000 <= #[trigger] train_dmg@[j] <= 18 * n + 0x40_0000,
        decreases n - i,
    {
        let foe = melee_of(state, &occ, i);
        let v = train_dmg[i] + foe;
        let ghost before = train_dmg@;
        train_dmg.set(i, v);
        proof {
            assert(forall|j: int| 0 <= j < n && j != i ==> train_dmg@[j] == before[j]);
        }
        i = i + 1;
    }

    // Apply train damage.
    let mut i: usize = 0;
    while i < n
        invariant
            state.frame_ok(),
            state.arena == a,
            state.cfg == old(state).cfg,
            state@ == (BattleModel { trains: state@.trains, ..m0 }),
            n == state.trains@.len(),
            n == m0.trains.len(),
            n <= MAX_TRAINS,
            i <= n,
            train_dmg@.len() == n,
            forall|j: int| 0 <= j < n ==> #[trigger] train_dmg@[j] as int == train_damage(a, m0, j),
            forall|j: int| 0 <= j < n ==> -0x40_0000 <= #[trigger] train_dmg@[j] <= 18 * n + 0x40_0000 + 18,
            forall|j: int| 0 <= j < i ==> #[trigger] state.trains@[j] == damaged_train(m0.trains[j], train_damage(a, m0, j)),
            forall|j: int| i <= j < n ==> #[trigger] state.trains@[j] == m0.trains[j],
        decreases n - i,
    {
        let t = state.trains[i];
        let d = train_dmg[i];
        if d > 0 && t.hp > 0 {
            let ghost mid = state@;
            state.trains.set(i, Train { hp: t.hp - d, ..t });
            proof {
                let nn = state.arena.nodes@.len() as int;
                assert(train_ok(mid.trains[i as int], nn));
                assert forall|j: int| 0 <= j < n implies train_ok(#[trigger] state.trains@[j], nn) by {
                    if j != i {
                        assert(state.trains@[j] == mid.trains[j]);
                    }
                }
            }
        }
        proof {
            assert(state@ =~= (BattleModel { trains: state@.trains, ..m0 }));
        }
        i = i + 1;
    }
    proof {
        assert(state@.trains =~= Seq::new(m0.trains.len(), |i: int| damaged_train(m0.trains[i], train_damage(a, m0, i))));
    }
    let ghost trains_done = state@.trains;

    // Apply tower damage + events.
    let ghost ev0 = events@;
    let mut k: usize = 0;
    while k < nt
        invariant
            state.frame_ok(),
            state.arena == a,
            state.cfg == old(state).cfg,
            state@ == (BattleModel { trains: trains_done, towers: state@.towers, ..m0 }),
            nt == state.towers@.len(),
            nt == m0.towers.len(),
            n == m0.trains.len(),
            n <= MAX_TRAINS,
            k <= nt,
            tower_dmg@.len() == nt,
            tallies(tower_dmg@, rocket_hits(a, m0, n as int).1),
            forall|j: int| 0 <= j < nt ==> 0 <= #[trigger] tower_dmg@[j] <= 18 * n,
            forall|j: int| 0 <= j < nt ==> (#[trigger] m0.towers[j]).hp >= HP_FLOOR - 0x400_0000,
            (state@.towers, events@) == damage_towers_upto(a, m0, ev0, k as int),
            forall|j: int| k <= j < nt ==> #[trigger] state@.towers[j] == m0.towers[j],
            forall|j: int|
                0 <= j < k ==> (#[trigger] state.towers@[j]).hp == m0.towers[j].hp
                    || (m0.towers[j].hp > 0 && state.towers@[j].hp >= 1 - 18 * MAX_TRAINS),
        decreases nt - k,
    {
        let d = tower_dmg[k];
        let tow = state.towers[k];
        let ghost mid = state.towers@;
        let ghost ev_mid = events@;
        if d > 0 && tow.hp > 0 {
            let hit = Tower { hp: tow.hp - d, ..tow };
            state.towers.set(k, hit);
            if tow.kind == TowerKind::King {
                events.push(TurnEvent::KingDamaged { faction: tow.faction, amount: d });
            }
            if hit.hp <= 0 {
                events.push(TurnEvent::TowerDestroyed { faction: tow.faction, kind: tow.kind });
            }
            proof {
                assert(same_tower_place(mid[k as int], state.arena.towers@[k as int]));
                assert forall|j: int| 0 <= j < nt implies same_tower_place(#[trigger] state.towers@[j], state.arena.towers@[j]) by {
                    assert(same_tower_place(mid[j], state.arena.towers@[j]));
                }
            }
        }
        proof {
            assert(tower_damage(a, m0, k as int) == d as int);
            assert(state@ =~= (BattleModel { trains: trains_done, towers: state@.towers, ..m0 }));
        }
        k = k + 1;
    }
}

// ---------------------------------------------------------------------------
// Wreck removal, win check, the tick and the turn
// ---------------------------------------------------------------------------

/// The living trains among the first `k`, in order.
pub open spec fn survivors(s: Seq<Train>, k: int) -> Seq<Train>
    decreases k,
{
    if k <= 0 {
        Seq::empty()
    } else {
        let p = survivors(s, k - 1);
        if s[k - 1].hp > 0 {
            p.push(s[k - 1])
        } else {
            p
        }
    }
}

/// The verdict of a King check: a fallen King loses, two fallen Kings draw,
/// and with both Kings standing there is no verdict.
pub open spec fn king_check(towers: Seq<Tower>) -> Option<Status> {
    let a_dead = spec_king_hp(towers, Faction::A) <= 0;
    let b_dead = spec_king_hp(towers, Faction::B) <= 0;
    if a_dead && b_dead {
        Some(Status::Draw)
    } else if a_dead {
        Some(Status::Won(Faction::B))
    } else if b_dead {
        Some(Status::Won(Faction::A))
    } else {
        None
    }
}

/// Wrecks leave the board (one `TrainDestroyed` event each), then a fallen King
/// decides the battle (with a `Victory` event for a winner).
pub open spec fn prune_spec(m: BattleModel, ev: Seq<TurnEvent>) -> (BattleModel, Seq<TurnEvent>) {
    let kept = survivors(m.trains, m.trains.len() as int);
    let killed = m.trains.len() - kept.len();
    let ev1 = ev + Seq::new(killed as nat, |i: int| TurnEvent::TrainDestroyed { faction: Faction::A });
    match king_check(m.towers) {
        None => (BattleModel { trains: kept, ..m }, ev1),
        Some(status) => (
            BattleModel { trains: kept, status, ..m },
            if status is Won {
                ev1.push(TurnEvent::Victory { faction: status->0 })
            } else {
                ev1
            },
        ),
    }
}

/// One simulation tick: movement, then damage, then wreck removal and the win
/// check; the tick counter advances.
pub open spec fn tick_spec(a: Arena, m: BattleModel, ev: Seq<TurnEvent>) -> (BattleModel, Seq<TurnEvent>) {
    let moved = move_spec(a, m, ev);
    let hit = damage_spec(a, moved.0, moved.1);
    let pruned = prune_spec(hit.0, hit.1);
    (BattleModel { tick: (pruned.0.tick + 1) as u32, ..pruned.0 }, pruned.1)
}

/// Up to `k` ticks, stopping as soon as the battle is over.
pub open spec fn run_ticks(a: Arena, m: BattleModel, ev: Seq<TurnEvent>, k: int) -> (BattleModel, Seq<TurnEvent>)
    decreases k,
{
    if k <= 0 {
        (m, ev)
    } else {
        let p = run_ticks(a, m, ev, k - 1);
        if p.0.status != Status::Ongoing {
            p
        } else {
            tick_spec(a, p.0, p.1)
        }
    }
}

/// Steam after a turn's regeneration, capped.
pub open spec fn regen(steam: u32, per_turn: u32, cap: u32) -> u32 {
    if steam + per_turn < cap {
        (steam + per_turn) as u32
    } else {
        cap
    }
}

/// The end of a turn: the turn counter advances, steam regenerates, and at the
/// turn cap the healthier King wins (equal hp is a draw).
pub open spec fn end_turn(s: BattleState, m: BattleModel) -> BattleModel {
    let m1 = BattleModel {
        turn: (m.turn + 1) as u32,
        steam: seq![
            regen(m.steam[0], s.cfg.steam_per_turn, s.cfg.steam_cap),
            regen(m.steam[1], s.cfg.steam_per_turn, s.cfg.steam_cap),
        ],
        ..m
    };
    if m1.status == Status::Ongoing && m1.turn >= s.cfg.max_turns {
        let a_hp = spec_king_hp(m1.towers, Faction::A);
        let b_hp = spec_king_hp(m1.towers, Faction::B);
        BattleModel {
            status: if a_hp > b_hp {
                Status::Won(Faction::A)
            } else if a_hp < b_hp {
                Status::Won(Faction::B)
            } else {
                Status::Draw
            },
            ..m1
        }
    } else {
        m1
    }
}

/// A whole turn: nothing happens once the battle is over; otherwise A's orders
/// then B's are applied, up to `ticks_per_turn` ticks run, and the turn ends.
pub open spec fn resolve_spec(s: BattleState, a: Seq<Command>, b: Seq<Command>) -> (BattleModel, Seq<TurnEvent>) {
    let m = s@;
    if m.status != Status::Ongoing {
        (m, Seq::empty())
    } else {
        let m1 = apply_orders_spec(s.arena, m, Faction::A, a);
        let m2 = apply_orders_spec(s.arena, m1, Faction::B, b);
        let r = run_ticks(s.arena, m2, Seq::empty(), s.cfg.ticks_per_turn as int);
        (end_turn(s, r.0), r.1)
    }
}

/// The limits a turn must respect for its counters to stay exact.
pub open spec fn turn_fits(s: BattleState, a: Seq<Command>, b: Seq<Command>) -> bool {
    &&& s.trains@.len() + a.len() + b.len() <= MAX_TRAINS
    &&& s.tick + s.cfg.ticks_per_turn <= u32::MAX
    &&& s.turn < u32::MAX
}

/// Whether a turn with these orders respects the engine's limits.
pub fn turn_fits_check(state: &BattleState, a: &Orders, b: &Orders) -> (r: bool)
    ensures
        r == turn_fits(*state, a.commands@, b.commands@),
{
    state.trains.len() <= MAX_TRAINS && a.commands.len() <= MAX_TRAINS - state.trains.len()
        && b.commands.len() <= MAX_TRAINS - state.trains.len() - a.commands.len()
        && state.cfg.ticks_per_turn <= u32::MAX - state.tick && state.turn < u32::MAX
}

/// Remove dead trains, then decide victory if a King has fallen.
fn prune_and_check(state: &mut BattleState, events: &mut Vec<TurnEvent>)
    requires
        old(state).frame_ok(),
    ensures
        final(state).frame_ok(),
        final(state).arena == old(state).arena,
        final(state).cfg == old(state).cfg,
        (final(state)@, final(events)@) == prune_spec(old(state)@, old(events)@),
        final(state).trains@.len() <= old(state).trains@.len(),
        final(state).towers@ == old(state).towers@,
        final(state).tick == old(state).tick,
        final(state).turn == old(state).turn,
{
    let ghost m0 = state@;
    let ghost nn = state.arena.nodes@.len() as int;
    let before = state.trains.len();
    let mut kept: Vec<Train> = Vec::new();
    let mut i: usize = 0;
    while i < before
        invariant
            state.frame_ok(),
            state@ == m0,
            nn == state.arena.nodes@.len(),
            before == m0.trains.len(),
            i <= before,
            kept@ == survivors(m0.trains, i as int),
            kept@.len() <= i,
            forall|j: int| 0 <= j < kept@.len() ==> train_ok(#[trigger] kept@[j], nn),
        decreases before - i,
    {
        let t = state.trains[i];
        proof {
            assert(train_ok(m0.trains[i as int], nn));
        }
        if t.hp > 0 {
            kept.push(t);
        }
        i = i + 1;
    }
    let killed = before - kept.len();
    state.trains = kept;
    let ghost ev0 = events@;
    let mut j: usize = 0;
    while j < killed
        invariant
            j <= killed,
            events@ == ev0 + Seq::new(j as nat, |x: int| TurnEvent::TrainDestroyed { faction: Faction::A }),
        decreases killed - j,
    {
        // The faction of a removed train is not tracked; each wreck is reported
        // with the same generic event.
        events.push(TurnEvent::TrainDestroyed { faction: Faction::A });
        j = j + 1;
        proof {
            assert(events@ =~= ev0 + Seq::new(j as nat, |x: int| TurnEvent::TrainDestroyed { faction: Faction::A }));
        }
    }

    let a_dead = state.king_hp(Faction::A) <= 0;
    let b_dead = state.king_hp(Faction::B) <= 0;
    if a_dead && b_dead {
        state.status = Status::Draw;
    } else if a_dead {
        state.status = Status::Won(Faction::B);
        events.push(TurnEvent::Victory { faction: Faction::B });
    } else if b_dead {
        state.status = Status::Won(Faction::A);
        events.push(TurnEvent::Victory { faction: Faction::A });
    }
    proof {
        assert(state@ =~= prune_spec(m0, ev0).0);
        assert(events@ =~= prune_spec(m0, ev0).1);
    }
}

/// One simulation tick.
fn step(state: &mut BattleState, events: &mut Vec<TurnEvent>)
    requires
        old(state).wf(),
        old(state).status == Status::Ongoing,
        old(state).tick < u32::MAX,
    ensures
        final(state).wf(),
        final(state).arena == old(state).arena,
        final(state).cfg == old(state).cfg,
        (final(state)@, final(events)@) == tick_spec(old(state).arena, old(state)@, old(events)@),
        final(state).trains@.len() <= old(state).trains@.len(),
        final(state).tick == old(state).tick + 1,
        final(state).turn == old(state).turn,
{
    let ghost s0 = *state;
    move_trains(state, events);
    let ghost s1 = *state;
    proof {
        assert(s0.towers@[0] == s0.towers@[0]);
        assert forall|k: int| 0 <= k < state.towers@.len() implies (#[trigger] state.towers@[k]).hp >= HP_FLOOR - 0x400_0000 by {
            assert(s0.towers@[k].hp >= HP_FLOOR);
            if k < 2 {
                assert(s0.towers@[k].hp > 0 || s0.towers@[k].hp == s0.cfg.king_hp);
            }
        }
    }
    apply_damage(state, events);
    let ghost s2 = *state;
    prune_and_check(state, events);
    state.tick = state.tick + 1;
    proof {
        assert forall|k: int| 0 <= k < state.towers@.len() implies (#[trigger] state.towers@[k]).hp >= HP_FLOOR by {
            assert(state.towers@[k] == s2.towers@[k]);
            assert(s0.towers@[k].hp >= HP_FLOOR);
            if k < 2 {
                assert(s0.towers@[k].hp > 0 || s0.towers@[k].hp == s0.cfg.king_hp);
            } else {
                assert(s1.towers@[k].hp == s0.towers@[k].hp);
            }
        }
        if state.status == Status::Ongoing {
            crate::battle::unit::lemma_counter_triangle();
            lemma_king_tower(*state, Faction::A);
            lemma_king_tower(*state, Faction::B);
            crate::battle::state::lemma_king_hp_of_ladder(state.towers@, Faction::A);
            crate::battle::state::lemma_king_hp_of_ladder(state.towers@, Faction::B);
        }
        assert(state@ =~= tick_spec(s0.arena, s0@, old(events)@).0);
    }
}

/// Apply both committed plans and resolve the turn, mutating `state` in place.
/// Returns the events that occurred. Deterministic: identical inputs give an
/// identical result on every platform.
pub fn resolve_turn(state: &mut BattleState, a: &Orders, b: &Orders) -> (events: Vec<TurnEvent>)
    requires
        old(state).wf(),
        old(state).status == Status::Ongoing ==> turn_fits(*old(state), a.commands@, b.commands@),
    ensures
        final(state).wf(),
        final(state).arena == old(state).arena,
        final(state).cfg == old(state).cfg,
        (final(state)@, events@) == resolve_spec(*old(state), a.commands@, b.commands@),
        old(state).status == Status::Ongoing ==> final(state).turn == old(state).turn + 1,
        old(state).status != Status::Ongoing ==> final(state)@ == old(state)@ && events@.len() == 0,
        final(state).turn >= final(state).cfg.max_turns ==> final(state).status != Status::Ongoing,
{
    let mut events: Vec<TurnEvent> = Vec::new();
    if state.is_over() {
        return events;
    }
    let ghost s0 = *state;
    apply_orders(state, Faction::A, a);
    apply_orders(state, Faction::B, b);
    let ghost m2 = state@;
    proof {
        assert(state.kings_standing());
        assert(state.towers_floor());
    }
    let ticks = state.cfg.ticks_per_turn;
    let mut k: u32 = 0;
    while k < ticks
        invariant_except_break
            state.status == Status::Ongoing ==> state.tick == s0.tick + k,
        invariant
            state.wf(),
            state.arena == s0.arena,
            state.cfg == s0.cfg,
            ticks == s0.cfg.ticks_per_turn,
            s0.tick + ticks <= u32::MAX,
            k <= ticks,
            state.trains@.len() <= MAX_TRAINS,
            (state@, events@) == run_ticks(s0.arena, m2, Seq::empty(), k as int),
            state.turn == s0.turn,
            s0.turn < u32::MAX,
        ensures
            state.turn == s0.turn,
            state.wf(),
            state.arena == s0.arena,
            state.cfg == s0.cfg,
            (state@, events@) == run_ticks(s0.arena, m2, Seq::empty(), ticks as int),
        decreases ticks - k,
    {
        if state.is_over() {
            proof {
                lemma_run_ticks_stay_over(s0.arena, m2, Seq::empty(), k as int, ticks as int);
            }
            break;
        }
        step(state, &mut events);
        k = k + 1;
    }

    state.turn = state.turn + 1;
    let per = state.cfg.steam_per_turn;
    let cap = state.cfg.steam_cap;
    let s_a = if state.steam[0] + per < cap { state.steam[0] + per } else { cap };
    let s_b = if state.steam[1] + per < cap { state.steam[1] + per } else { cap };
    state.steam = [s_a, s_b];

    // Turn cap: whoever's King is healthier wins; equal is a draw.
    if !state.is_over() && state.turn >= state.cfg.max_turns {
        let a_hp = state.king_hp(Faction::A);
        let b_hp = state.king_hp(Faction::B);
        state.status = if a_hp > b_hp {
            Status::Won(Faction::A)
        } else if a_hp < b_hp {
            Status::Won(Faction::B)
        } else {
            Status::Draw
        };
    }
    proof {
        assert(state@ =~= resolve_spec(s0, a.commands@, b.commands@).0);
    }
    events
}

/// Once the battle is over, further ticks change nothing.
proof fn lemma_run_ticks_stay_over(a: Arena, m: BattleModel, ev: Seq<TurnEvent>, k: int, t: int)
    requires
        0 <= k <= t,
        run_ticks(a, m, ev, k).0.status != Status::Ongoing,
    ensures
        run_ticks(a, m, ev, t) == run_ticks(a, m, ev, k),
    decreases t - k,
{
    if t > k {
        lemma_run_ticks_stay_over(a, m, ev, k, t - 1);
    }
}

/// `resolve_turn`, also returning a snapshot of the battle after the orders are
/// applied and after every tick that runs, for frame-by-frame playback. The
/// resulting state and events are exactly those of `resolve_turn`.
pub fn resolve_turn_frames(state: &mut BattleState, a: &Orders, b: &Orders) -> (r: (Vec<TurnEvent>, Vec<BattleState>))
    requires
        old(state).wf(),
        old(state).status == Status::Ongoing ==> turn_fits(*old(state), a.commands@, b.commands@),
    ensures
        final(state).wf(),
        final(state).arena == old(state).arena,
        final(state).cfg == old(state).cfg,
        (final(state)@, r.0@) == resolve_spec(*old(state), a.commands@, b.commands@),
        old(state).status != Status::Ongoing ==> r.1@.len() == 0,
        old(state).status == Status::Ongoing ==> {
            let m2 = apply_orders_spec(old(state).arena, apply_orders_spec(old(state).arena, old(state)@, Faction::A, a.commands@), Faction::B, b.commands@);
            let n = r.1@.len() as int;
            &&& 1 <= n <= old(state).cfg.ticks_per_turn + 1
            &&& forall|k: int| 0 <= k < n ==> {
                &&& (#[trigger] r.1@[k])@ == run_ticks(old(state).arena, m2, Seq::empty(), k).0
                &&& r.1@[k].cfg == old(state).cfg
                &&& r.1@[k].arena.same_as(old(state).arena)
            }
            &&& forall|k: int| 0 <= k < n - 1 ==> (#[trigger] run_ticks(old(state).arena, m2, Seq::empty(), k)).0.status == Status::Ongoing
            &&& (n - 1 == old(state).cfg.ticks_per_turn || run_ticks(old(state).arena, m2, Seq::empty(), n - 1).0.status != Status::Ongoing)
        },
{
    let mut events: Vec<TurnEvent> = Vec::new();
    let mut frames: Vec<BattleState> = Vec::new();
    if state.is_over() {
        return (events, frames);
    }
    let ghost s0 = *state;
    apply_orders(state, Faction::A, a);
    apply_orders(state, Faction::B, b);
    let ghost m2 = state@;
    frames.push(state.snapshot());
    let ticks = state.cfg.ticks_per_turn;
    let mut k: u32 = 0;
    while k < ticks
        invariant_except_break
            state.status == Status::Ongoing ==> state.tick == s0.tick + k,
            frames@.len() == k + 1,
            forall|j: int| 0 <= j < k ==> (#[trigger] run_ticks(s0.arena, m2, Seq::empty(), j)).0.status == Status::Ongoing,
        invariant
            state.wf(),
            state.arena == s0.arena,
            state.cfg == s0.cfg,
            ticks == s0.cfg.ticks_per_turn,
            s0.tick + ticks <= u32::MAX,
            k <= ticks,
            state.trains@.len() <= MAX_TRAINS,
            (state@, events@) == run_ticks(s0.arena, m2, Seq::empty(), k as int),
            state.turn == s0.turn,
            s0.turn < u32::MAX,
            1 <= frames@.len() <= k + 1,
            forall|j: int| 0 <= j < frames@.len() ==> {
                &&& (#[trigger] frames@[j])@ == run_ticks(s0.arena, m2, Seq::empty(), j).0
                &&& frames@[j].cfg == s0.cfg
                &&& frames@[j].arena.same_as(s0.arena)
            },
        ensures
            state.wf(),
            state.arena == s0.arena,
            state.cfg == s0.cfg,
            state.turn == s0.turn,
            (state@, events@) == run_ticks(s0.arena, m2, Seq::empty(), ticks as int),
            1 <= frames@.len() <= ticks + 1,
            forall|j: int| 0 <= j < frames@.len() ==> {
                &&& (#[trigger] frames@[j])@ == run_ticks(s0.arena, m2, Seq::empty(), j).0
                &&& frames@[j].cfg == s0.cfg
                &&& frames@[j].arena.same_as(s0.arena)
            },
            forall|j: int| 0 <= j < frames@.len() - 1 ==> (#[trigger] run_ticks(s0.arena, m2, Seq::empty(), j)).0.status == Status::Ongoing,
            frames@.len() - 1 == ticks || run_ticks(s0.arena, m2, Seq::empty(), frames@.len() - 1).0.status != Status::Ongoing,
        decreases ticks - k,
    {
        if state.is_over() {
            proof {
                lemma_run_ticks_stay_over(s0.arena, m2, Seq::empty(), k as int, ticks as int);
            }
            break;
        }
        step(state, &mut events);
        k = k + 1;
        frames.push(state.snapshot());
    }

    state.turn = state.turn + 1;
    let per = state.cfg.steam_per_turn;
    let cap = state.cfg.steam_cap;
    let s_a = if state.steam[0] + per < cap { state.steam[0] + per } else { cap };
    let s_b = if state.steam[1] + per < cap { state.steam[1] + per } else { cap };
    state.steam = [s_a, s_b];
    if !state.is_over() && state.turn >= state.cfg.max_turns {
        let a_hp = state.king_hp(Faction::A);
        let b_hp = state.king_hp(Faction::B);
        state.status = if a_hp > b_hp {
            Status::Won(Faction::A)
        } else if a_hp < b_hp {
            Status::Won(Faction::B)
        } else {
            Status::Draw
        };
    }
    proof {
        assert(state@ =~= resolve_spec(s0, a.commands@, b.commands@).0);
    }
    (events, frames)
}

} // verus!
