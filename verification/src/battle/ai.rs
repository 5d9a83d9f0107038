//! A heuristic opponent.
//!
//! `ai_orders` looks at a battle and returns the orders a computer player
//! commits this turn. It is pure and deterministic: the same state and
//! difficulty always yield the same plan. The heuristic:
//! 1. Counter-pick the kind the enemy is fielding most (Armored beats Express,
//!    Rocket beats Armored, Express beats Rocket).
//! 2. Defend the lane where an enemy train is closest to our King.
//! 3. Spend steam down (never over budget), deploying the counter across lanes.
//! 4. On `Hard`, also route switches toward the enemy King.
use vstd::prelude::*;

use super::arena::{dist2, lemma_coord_dist_ok, spec_dist2, Arena, NodeId};
use super::orders::{Command, Orders};
use super::resolve::spec_node_of;
use super::state::{train_ok, BattleState, Status};
use super::unit::{spec_stats, Train, TrainKind};
use super::{spec_enemy, spec_index, Faction};
use crate::geometry::Pos;

verus! {

/// How strong (and how greedy) the computer opponent plays.
#[derive(Clone, Copy, Debug, PartialEq, Eq, Structural, Hash, PartialOrd, Ord)]
pub enum AiLevel {
    /// Deploys a single cheap unit per turn; ignores the counter-triangle.
    Easy,
    /// Counter-picks, defends the threatened lane, and spends most of its steam.
    Normal,
    /// Like Normal, and also routes its switches toward the enemy King.
    Hard,
}

impl AiLevel {
    /// Every level, in increasing strength.
    pub const ALL: [AiLevel; 3] = [AiLevel::Easy, AiLevel::Normal, AiLevel::Hard];
}

/// How many living trains of `kind` faction `f` has among the first `k`.
pub open spec fn count_kind(trains: Seq<Train>, f: Faction, kind: TrainKind, k: int) -> int
    decreases k,
{
    if k <= 0 {
        0
    } else {
        let t = trains[k - 1];
        count_kind(trains, f, kind, k - 1) + if t.faction == f && t.hp > 0 && t.kind == kind { 1int } else { 0int }
    }
}

/// The kind that best counters what the enemy of `me` fields most: Rocket
/// against Armored, Armored against Express, Express against Rocket, ties broken
/// in that order; an empty enemy board is opened with Armored.
pub open spec fn spec_counter_pick(trains: Seq<Train>, me: Faction) -> TrainKind {
    let e = spec_enemy(me);
    let express = count_kind(trains, e, TrainKind::Express, trains.len() as int);
    let armored = count_kind(trains, e, TrainKind::Armored, trains.len() as int);
    let rocket = count_kind(trains, e, TrainKind::Rocket, trains.len() as int);
    if express == 0 && armored == 0 && rocket == 0 {
        TrainKind::Armored
    } else if armored >= express && armored >= rocket {
        TrainKind::Rocket
    } else if express >= rocket {
        TrainKind::Armored
    } else {
        TrainKind::Express
    }
}

/// `a` beats `b` in the counter triangle: Armored beats Express, Rocket beats
/// Armored, Express beats Rocket.
pub open spec fn beats(a: TrainKind, b: TrainKind) -> bool {
    ||| a == TrainKind::Armored && b == TrainKind::Express
    ||| a == TrainKind::Rocket && b == TrainKind::Armored
    ||| a == TrainKind::Express && b == TrainKind::Rocket
}

/// The living trains of side `f` and kind `k`.
pub open spec fn fielded(trains: Seq<Train>, f: Faction, k: TrainKind) -> nat {
    trains.filter(|t: Train| t.faction == f && t.hp > 0 && t.kind == k).len()
}

/// The order in which kinds fielded in equal numbers are answered: Armored
/// first, then Express, then Rocket.
pub open spec fn threat_rank(k: TrainKind) -> int {
    match k {
        TrainKind::Armored => 0,
        TrainKind::Express => 1,
        TrainKind::Rocket => 2,
    }
}

/// Counting living trains of a side and kind over a prefix is filtering it.
proof fn lemma_count_kind_filter(trains: Seq<Train>, f: Faction, kind: TrainKind, k: int)
    requires
        0 <= k <= trains.len(),
    ensures
        count_kind(trains, f, kind, k)
            == trains.subrange(0, k).filter(|t: Train| t.faction == f && t.hp > 0 && t.kind == kind).len(),
    decreases k,
{
    reveal(Seq::filter);
    let pred = |t: Train| t.faction == f && t.hp > 0 && t.kind == kind;
    if k == 0 {
        assert(trains.subrange(0, 0).len() == 0);
    } else {
        lemma_count_kind_filter(trains, f, kind, k - 1);
        let sk = trains.subrange(0, k);
        assert(sk.drop_last() =~= trains.subrange(0, k - 1));
        assert(sk.last() == trains[k - 1]);
    }
}

/// The counter pick answers the enemy's main threat: with no enemy train on
/// the board it opens with Armored; otherwise it is the kind that beats the
/// kind the enemy fields most, and among kinds fielded equally often the one
/// answered is Armored before Express before Rocket.
pub proof fn lemma_counter_pick_beats_main_threat(trains: Seq<Train>, me: Faction)
    ensures
        ({
            let e = spec_enemy(me);
            let pick = spec_counter_pick(trains, me);
            &&& (forall|k: TrainKind| #[trigger] fielded(trains, e, k) == 0) ==> pick == TrainKind::Armored
            &&& (exists|k: TrainKind| #[trigger] fielded(trains, e, k) > 0) ==> exists|target: TrainKind| {
                &&& #[trigger] beats(pick, target)
                &&& forall|k: TrainKind| #[trigger] fielded(trains, e, k) <= fielded(trains, e, target)
                &&& forall|k: TrainKind| threat_rank(k) < threat_rank(target) ==> #[trigger] fielded(trains, e, k)
                    < fielded(trains, e, target)
            }
        }),
{
    let e = spec_enemy(me);
    let n = trains.len() as int;
    assert(trains.subrange(0, n) =~= trains);
    lemma_count_kind_filter(trains, e, TrainKind::Express, n);
    lemma_count_kind_filter(trains, e, TrainKind::Armored, n);
    lemma_count_kind_filter(trains, e, TrainKind::Rocket, n);
    let ex = fielded(trains, e, TrainKind::Express);
    let ar = fielded(trains, e, TrainKind::Armored);
    let ro = fielded(trains, e, TrainKind::Rocket);
    assert(count_kind(trains, e, TrainKind::Express, n) == ex);
    assert(count_kind(trains, e, TrainKind::Armored, n) == ar);
    assert(count_kind(trains, e, TrainKind::Rocket, n) == ro);
    let pick = spec_counter_pick(trains, me);
    if exists|k: TrainKind| #[trigger] fielded(trains, e, k) > 0 {
        let target = if ar >= ex && ar >= ro {
            TrainKind::Armored
        } else if ex >= ro {
            TrainKind::Express
        } else {
            TrainKind::Rocket
        };
        assert(beats(pick, target));
        assert forall|k: TrainKind| #[trigger] fielded(trains, e, k) <= fielded(trains, e, target) by {
            match k {
                TrainKind::Express => {},
                TrainKind::Armored => {},
                TrainKind::Rocket => {},
            }
        }
        assert forall|k: TrainKind| threat_rank(k) < threat_rank(target) implies #[trigger] fielded(trains, e, k)
            < fielded(trains, e, target) by {
            match k {
                TrainKind::Express => {},
                TrainKind::Armored => {},
                TrainKind::Rocket => {},
            }
        }
    } else {
        assert(fielded(trains, e, TrainKind::Express) == 0);
        assert(fielded(trains, e, TrainKind::Armored) == 0);
        assert(fielded(trains, e, TrainKind::Rocket) == 0);
    }
}

/// The cheapest kind affordable within `budget` (the first of equal cost), if any.
pub open spec fn spec_cheapest(budget: u32) -> Option<TrainKind> {
    if budget >= spec_stats(TrainKind::Express).cost {
        Some(TrainKind::Express)
    } else {
        None
    }
}

/// The grid position a train occupies.
pub open spec fn spec_occupied_pos(a: Arena, t: Train) -> Pos {
    a.nodes@[spec_node_of(t) as int].pos
}

/// The position of the enemy train among the first `j` closest to `king`
/// (the first such train on ties), with its squared distance.
pub open spec fn threat_scan(a: Arena, trains: Seq<Train>, enemy: Faction, king: Pos, j: int) -> Option<(int, Pos)>
    decreases j,
{
    if j <= 0 {
        None
    } else {
        let b = threat_scan(a, trains, enemy, king, j - 1);
        let t = trains[j - 1];
        if t.faction == enemy && t.hp > 0 {
            let p = spec_occupied_pos(a, t);
            let d = spec_dist2(p, king);
            match b {
                None => Some((d, p)),
                Some(x) => if d < x.0 {
                    Some((d, p))
                } else {
                    b
                },
            }
        } else {
            b
        }
    }
}

/// Among the first `i` spawn lanes, the one whose column is nearest `x` (the
/// first such lane on ties), with its squared column distance.
pub open spec fn lane_scan(a: Arena, spawns: Seq<NodeId>, x: i32, i: int) -> Option<(int, usize)>
    decreases i,
{
    if i <= 0 {
        None
    } else {
        let b = lane_scan(a, spawns, x, i - 1);
        let dx = a.nodes@[spawns[i - 1] as int].pos.x - x;
        let d = dx * dx;
        match b {
            None => Some((d, (i - 1) as usize)),
            Some(y) => if d < y.0 {
                Some((d, (i - 1) as usize))
            } else {
                b
            },
        }
    }
}

/// The lane (index into `me`'s spawns) nearest the enemy train that is closest
/// to `me`'s King — where to put a defender — if there is such a train.
pub open spec fn spec_threat_lane(s: BattleState, me: Faction) -> Option<usize> {
    let king = s.arena.nodes@[s.arena.kings[spec_index(me)] as int].pos;
    match threat_scan(s.arena, s.trains@, spec_enemy(me), king, s.trains@.len() as int) {
        None => None,
        Some(t) => {
            let spawns = s.arena.spawns[spec_index(me)]@;
            match lane_scan(s.arena, spawns, t.1.x, spawns.len() as int) {
                None => None,
                Some(l) => Some(l.1),
            }
        },
    }
}

/// Among the first `i` exits, the index of the one whose column is nearest `x`
/// (the first on ties), with its squared column distance.
pub open spec fn exit_scan(a: Arena, exits: Seq<NodeId>, x: i32, i: int) -> (u8, int)
    decreases i,
{
    if i <= 0 {
        (0, i64::MAX as int)
    } else {
        let b = exit_scan(a, exits, x, i - 1);
        let dx = a.nodes@[exits[i - 1] as int].pos.x - x;
        let d = dx * dx;
        if d < b.1 {
            ((i - 1) as u8, d)
        } else {
            b
        }
    }
}

/// On a switch, the choice whose target column is nearest the enemy King's
/// column — "head for the throne".
pub open spec fn spec_route_toward_king(s: BattleState, me: Faction, node: NodeId) -> u8 {
    let king_x = s.arena.nodes@[s.arena.kings[spec_index(spec_enemy(me))] as int].pos.x;
    let exits = s.arena.nodes@[node as int].exits[spec_index(me)]@;
    exit_scan(s.arena, exits, king_x, exits.len() as int).0
}

/// The routing commands of a Hard AI over its first `k` spawns: every spawn
/// that is a switch is pointed toward the enemy King.
pub open spec fn hard_switches(s: BattleState, me: Faction, k: int) -> Seq<Command>
    decreases k,
{
    if k <= 0 {
        Seq::empty()
    } else {
        let p = hard_switches(s, me, k - 1);
        let spawn = s.arena.spawns[spec_index(me)]@[k - 1];
        if s.arena.nodes@[spawn as int].exits[spec_index(me)]@.len() >= 2 {
            p.push(Command::SetSwitch { node: spawn, choice: spec_route_toward_king(s, me, spawn) })
        } else {
            p
        }
    }
}

/// The deploys of a Normal or Hard AI: the counter goes first to the threatened
/// lane (if affordable), then one per lane in turn while steam lasts.
pub open spec fn counter_deploys(s: BattleState, me: Faction) -> Seq<Command> {
    let budget = s.steam[spec_index(me)];
    let counter = spec_counter_pick(s.trains@, me);
    let cost = spec_stats(counter).cost;
    let lanes = if s.arena.spawns[spec_index(me)]@.len() >= 1 {
        s.arena.spawns[spec_index(me)]@.len() as int
    } else {
        1
    };
    let first = match spec_threat_lane(s, me) {
        Some(lane) => if budget >= cost {
            seq![Command::Deploy { kind: counter, lane }]
        } else {
            Seq::empty()
        },
        None => Seq::empty(),
    };
    let rest = budget - first.len() * cost;
    first + Seq::new((rest / (cost as int)) as nat, |i: int| Command::Deploy { kind: counter, lane: (i % lanes) as usize })
}

/// The plan the computer commits for `me` at `level`.
pub open spec fn spec_ai_orders(s: BattleState, me: Faction, level: AiLevel) -> Seq<Command> {
    if s.status != Status::Ongoing {
        Seq::empty()
    } else {
        let switches = if level == AiLevel::Hard {
            hard_switches(s, me, s.arena.spawns[spec_index(me)]@.len() as int)
        } else {
            Seq::empty()
        };
        let deploys = if level == AiLevel::Easy {
            match spec_cheapest(s.steam[spec_index(me)]) {
                Some(kind) => seq![Command::Deploy {
                    kind,
                    lane: match spec_threat_lane(s, me) {
                        Some(l) => l,
                        None => 0,
                    },
                }],
                None => Seq::empty(),
            }
        } else {
            counter_deploys(s, me)
        };
        switches + deploys
    }
}

/// The routing commands of a Hard AI deploy nothing.
proof fn lemma_hard_switches_route_only(s: BattleState, me: Faction, k: int)
    ensures
        forall|i: int| 0 <= i < hard_switches(s, me, k).len() ==> #[trigger] hard_switches(s, me, k)[i] is SetSwitch,
    decreases k,
{
    if k > 0 {
        lemma_hard_switches_route_only(s, me, k - 1);
        let p = hard_switches(s, me, k - 1);
        let h = hard_switches(s, me, k);
        assert forall|i: int| 0 <= i < h.len() implies #[trigger] h[i] is SetSwitch by {
            if i < p.len() {
                assert(h[i] == p[i]);
            }
        }
    }
}

/// Normal and Hard deploy only the counter pick: every train they deploy is
/// of the kind that answers the enemy's main threat.
pub proof fn lemma_deploys_are_the_counter(s: BattleState, me: Faction, level: AiLevel)
    requires
        level != AiLevel::Easy,
    ensures
        forall|i: int| 0 <= i < spec_ai_orders(s, me, level).len()
            && (#[trigger] spec_ai_orders(s, me, level)[i] is Deploy)
            ==> spec_ai_orders(s, me, level)[i]->kind == spec_counter_pick(s.trains@, me),
{
    let sw = if level == AiLevel::Hard {
        hard_switches(s, me, s.arena.spawns[spec_index(me)]@.len() as int)
    } else {
        Seq::empty()
    };
    lemma_hard_switches_route_only(s, me, s.arena.spawns[spec_index(me)]@.len() as int);
    let d = counter_deploys(s, me);
    let all = spec_ai_orders(s, me, level);
    if s.status == Status::Ongoing {
        assert(all == sw + d);
        assert forall|i: int| 0 <= i < all.len() && (#[trigger] all[i] is Deploy)
            implies all[i]->kind == spec_counter_pick(s.trains@, me) by {
            if i < sw.len() {
                assert(all[i] == sw[i]);
            } else {
                assert(all[i] == d[i - sw.len()]);
            }
        }
    }
}

/// The steam the first `k` commands would spend.
pub open spec fn spend(cmds: Seq<Command>, k: int) -> int
    decreases k,
{
    if k <= 0 {
        0
    } else {
        spend(cmds, k - 1) + match cmds[k - 1] {
            Command::Deploy { kind, .. } => spec_stats(kind).cost as int,
            Command::SetSwitch { .. } => 0,
        }
    }
}

/// The steam a whole plan would spend.
pub open spec fn total_spend(cmds: Seq<Command>) -> int {
    spend(cmds, cmds.len() as int)
}

/// Choose `me`'s plan for the current turn. Pure: no I/O, no randomness, no clock.
pub fn ai_orders(state: &BattleState, me: Faction, level: AiLevel) -> (r: Orders)
    requires
        state.wf(),
    ensures
        r.commands@ == spec_ai_orders(*state, me, level),
{
    if state.is_over() {
        return Orders::new();
    }
    let f = me.index();
    let mut budget = state.steam[f];
    let nspawns = state.arena.spawns[f].len();
    let lanes = if nspawns >= 1 { nspawns } else { 1 };
    let mut orders = Orders::new();

    // Hard play first commits routing: send every lane toward the enemy King.
    if level == AiLevel::Hard {
        let mut k: usize = 0;
        while k < nspawns
            invariant
                state.wf(),
                f == spec_index(me),
                nspawns == state.arena.spawns[f as int]@.len(),
                k <= nspawns,
                orders.commands@ == hard_switches(*state, me, k as int),
            decreases nspawns - k,
        {
            let spawn = state.arena.spawns[f][k];
            if state.arena.is_switch(me, spawn) {
                let choice = route_toward_king(state, me, spawn);
                orders = orders.switch(spawn, choice);
            }
            k = k + 1;
        }
    }
    let ghost switch_part = orders.commands@;

    let counter = counter_pick(state, me, level);
    let cost = counter.stats().cost;

    // Easy: one cheap unit and done.
    if level == AiLevel::Easy {
        let cheap = cheapest_affordable(budget);
        if let Some(kind) = cheap {
            let lane = match threat_lane(state, me) {
                Some(l) => l,
                None => 0,
            };
            orders = orders.deploy(kind, lane);
        }
        proof {
            assert(orders.commands@ =~= spec_ai_orders(*state, me, level));
        }
        return orders;
    }

    // Normal / Hard: defend the threatened lane first, then pressure across lanes.
    let ghost before_first = orders.commands@;
    let ghost mut first_part: Seq<Command> = Seq::empty();
    let threat = threat_lane(state, me);
    if let Some(lane) = threat {
        if budget >= cost {
            orders = orders.deploy(counter, lane);
            budget = budget - cost;
            proof {
                first_part = seq![Command::Deploy { kind: counter, lane }];
            }
        }
    }
    proof {
        assert(orders.commands@ =~= before_first + first_part);
        assert(before_first == (if level == AiLevel::Hard {
            hard_switches(*state, me, state.arena.spawns[spec_index(me)]@.len() as int)
        } else {
            Seq::empty()
        }));
        assert(budget == state.steam[spec_index(me)] - first_part.len() * cost);
    }
    let ghost budget1 = budget;
    let mut next_lane: usize = 0;
    while budget >= cost
        invariant
            cost == spec_stats(counter).cost,
            3 <= cost <= 5,
            lanes >= 1,
            budget as int == budget1 - next_lane * cost,
            budget1 <= u32::MAX,
            next_lane <= (budget1 as int) / (cost as int),
            orders.commands@ == before_first + first_part + Seq::new(next_lane as nat, |i: int| Command::Deploy { kind: counter, lane: (i % (lanes as int)) as usize }),
        decreases budget,
    {
        proof {
            lemma_next_deploy_fits(budget1 as int, cost as int, next_lane as int);
        }
        orders = orders.deploy(counter, next_lane % lanes);
        budget = budget - cost;
        next_lane = next_lane + 1;
        proof {
            assert(orders.commands@ =~= before_first + first_part + Seq::new(next_lane as nat, |i: int| Command::Deploy { kind: counter, lane: (i % (lanes as int)) as usize }));
        }
    }
    proof {
        lemma_deploy_count(budget1 as int, cost as int, next_lane as int);
        let sp = spec_ai_orders(*state, me, level);
        assert(counter_deploys(*state, me) =~= first_part + Seq::new(next_lane as nat, |i: int| Command::Deploy { kind: counter, lane: (i % (lanes as int)) as usize }));
        assert(orders.commands@ =~= sp);
    }
    orders
}

/// One more deploy still fits the budget.
proof fn lemma_next_deploy_fits(budget1: int, cost: int, k: int)
    requires
        3 <= cost,
        0 <= k,
        budget1 - k * cost >= cost,
    ensures
        k + 1 <= budget1 / cost,
        budget1 - (k + 1) * cost == budget1 - k * cost - cost,
{
    assert((k + 1) * cost == k * cost + cost) by (nonlinear_arith);
    assert(k + 1 <= budget1 / cost) by (nonlinear_arith)
        requires
            3 <= cost,
            (k + 1) * cost <= budget1,
    ;
}

/// Deploying until the budget runs out deploys exactly `budget1 / cost` trains.
proof fn lemma_deploy_count(budget1: int, cost: int, k: int)
    requires
        3 <= cost,
        0 <= k <= budget1 / cost,
        0 <= budget1 - k * cost < cost,
    ensures
        k == budget1 / cost,
{
    assert(k == budget1 / cost) by (nonlinear_arith)
        requires
            3 <= cost,
            0 <= budget1 - k * cost < cost,
    ;
}

/// The kind that best counters what the enemy is fielding most right now.
/// With an empty board, opens with a solid Armored.
fn counter_pick(state: &BattleState, me: Faction, _level: AiLevel) -> (r: TrainKind)
    requires
        state.trains@.len() <= 0x10_0000,
    ensures
        r == spec_counter_pick(state.trains@, me),
{
    let enemy = me.enemy();
    let mut express: u32 = 0;
    let mut armored: u32 = 0;
    let mut rocket: u32 = 0;
    let mut i: usize = 0;
    while i < state.trains.len()
        invariant
            state.trains@.len() <= 0x10_0000,
            enemy == spec_enemy(me),
            i <= state.trains@.len(),
            express as int == count_kind(state.trains@, enemy, TrainKind::Express, i as int),
            armored as int == count_kind(state.trains@, enemy, TrainKind::Armored, i as int),
            rocket as int == count_kind(state.trains@, enemy, TrainKind::Rocket, i as int),
            express <= i,
            armored <= i,
            rocket <= i,
        decreases state.trains@.len() - i,
    {
        let t = &state.trains[i];
        if t.faction == enemy && t.alive() {
            match t.kind {
                TrainKind::Express => express = express + 1,
                TrainKind::Armored => armored = armored + 1,
                TrainKind::Rocket => rocket = rocket + 1,
            }
        }
        i = i + 1;
    }

    // No enemy units yet: open with the value unit.
    if express == 0 && armored == 0 && rocket == 0 {
        return TrainKind::Armored;
    }

    // Counter-triangle, ties broken toward the more common threat.
    let max = if express >= armored { express } else { armored };
    let max = if max >= rocket { max } else { rocket };
    if armored == max {
        TrainKind::Rocket  // artillery shells the tank
    } else if express == max {
        TrainKind::Armored  // tank stops the rush
    } else {
        TrainKind::Express  // speed runs down the fragile rockets
    }
}

/// The cheapest train kind affordable within `budget`, if any.
fn cheapest_affordable(budget: u32) -> (r: Option<TrainKind>)
    ensures
        r == spec_cheapest(budget),
{
    let mut best: Option<TrainKind> = None;
    let mut i: usize = 0;
    while i < 3
        invariant
            i <= 3,
            best == (if i >= 1 && budget >= 3 {
                Some(TrainKind::Express)
            } else {
                None::<TrainKind>
            }),
        decreases 3 - i,
    {
        let k = TrainKind::ALL[i];
        let c = k.stats().cost;
        if c <= budget {
            best = match best {
                None => Some(k),
                Some(b) => if c < b.stats().cost {
                    Some(k)
                } else {
                    Some(b)
                },
            };
        }
        i = i + 1;
    }
    best
}

/// Lane (index into our spawns) of the enemy train closest to our King, if any —
/// i.e. where to put a defender.
fn threat_lane(state: &BattleState, me: Faction) -> (r: Option<usize>)
    requires
        state.wf(),
    ensures
        r == spec_threat_lane(*state, me),
        r matches Some(l) ==> l < state.arena.spawns[spec_index(me)]@.len(),
{
    let enemy = me.enemy();
    let king_pos = state.arena.pos(state.arena.kings[me.index()]);
    let ghost n = state.arena.nodes@.len();
    let mut threat: Option<(i64, Pos)> = None;
    let mut i: usize = 0;
    while i < state.trains.len()
        invariant
            state.wf(),
            n == state.arena.nodes@.len(),
            enemy == spec_enemy(me),
            king_pos == state.arena.nodes@[state.arena.kings[spec_index(me)] as int].pos,
            crate::battle::arena::coord_ok(king_pos),
            i <= state.trains@.len(),
            (match threat {
                None => None::<(int, Pos)>,
                Some(x) => Some((x.0 as int, x.1)),
            }) == threat_scan(state.arena, state.trains@, enemy, king_pos, i as int),
            threat matches Some(x) ==> crate::battle::arena::coord_ok(x.1),
        decreases state.trains@.len() - i,
    {
        let t = &state.trains[i];
        if t.faction == enemy && t.alive() {
            proof {
                assert(train_ok(state.trains@[i as int], n as int));
            }
            let p = occupied_pos(state, t.from, t.to, t.progress, t.edge_ticks);
            proof {
                lemma_coord_dist_ok(p, king_pos);
            }
            let d = dist2(p, king_pos);
            let better = match threat {
                None => true,
                Some((bd, _)) => d < bd,
            };
            if better {
                threat = Some((d, p));
            }
        }
        i = i + 1;
    }
    let tp = match threat {
        None => return None,
        Some((_, p)) => p,
    };
    let spawns = &state.arena.spawns[me.index()];
    let mut best: Option<(i64, usize)> = None;
    let mut j: usize = 0;
    while j < spawns.len()
        invariant
            state.wf(),
            n == state.arena.nodes@.len(),
            *spawns == state.arena.spawns[spec_index(me)],
            crate::battle::arena::coord_ok(tp),
            j <= spawns@.len(),
            (match best {
                None => None::<(int, usize)>,
                Some(x) => Some((x.0 as int, x.1)),
            }) == lane_scan(state.arena, spawns@, tp.x, j as int),
            best matches Some(x) ==> x.1 < j,
        decreases spawns@.len() - j,
    {
        proof {
            assert(spawns@[j as int] < n);
            assert(crate::battle::arena::coord_ok(state.arena.nodes@[spawns@[j as int] as int].pos));
        }
        let dx = (state.arena.pos(spawns[j]).x - tp.x) as i64;
        proof {
            assert(0 <= dx * dx <= 0x4000_0000_0000_0000) by (nonlinear_arith)
                requires
                    -0x8000_0000 <= dx <= 0x8000_0000,
            ;
        }
        let d = dx * dx;
        let better = match best {
            None => true,
            Some((bd, _)) => d < bd,
        };
        if better {
            best = Some((d, j));
        }
        j = j + 1;
    }
    match best {
        None => None,
        Some((_, l)) => Some(l),
    }
}

/// On a switch, the choice index whose target column is nearest the enemy King's
/// column.
fn route_toward_king(state: &BattleState, me: Faction, node: NodeId) -> (r: u8)
    requires
        state.wf(),
        node < state.arena.nodes@.len(),
    ensures
        r == spec_route_toward_king(*state, me, node),
{
    let king_x = state.arena.pos(state.arena.kings[me.enemy().index()]).x;
    let exits = &state.arena.nodes[node].exits[me.index()];
    let ghost n = state.arena.nodes@.len();
    proof {
        assert(crate::battle::arena::coord_ok(state.arena.nodes@[state.arena.kings[spec_index(spec_enemy(me))] as int].pos));
        assert(exits@.len() <= 2);
    }
    let mut best: u8 = 0;
    let mut best_dx: i64 = i64::MAX;
    let mut i: usize = 0;
    while i < exits.len()
        invariant
            state.wf(),
            n == state.arena.nodes@.len(),
            node < n,
            *exits == state.arena.nodes@[node as int].exits[spec_index(me)],
            exits@.len() <= 2,
            -0x3FFF_FFFF <= king_x <= 0x3FFF_FFFF,
            i <= exits@.len(),
            (best, best_dx as int) == exit_scan(state.arena, exits@, king_x, i as int),
        decreases exits@.len() - i,
    {
        let target = exits[i];
        proof {
            assert(target < n);
            assert(crate::battle::arena::coord_ok(state.arena.nodes@[target as int].pos));
        }
        let dx = (state.arena.pos(target).x - king_x) as i64;
        proof {
            assert(0 <= dx * dx <= 0x4000_0000_0000_0000) by (nonlinear_arith)
                requires
                    -0x8000_0000 <= dx <= 0x8000_0000,
            ;
        }
        let d = dx * dx;
        if d < best_dx {
            best_dx = d;
            best = i as u8;
        }
        i = i + 1;
    }
    best
}

/// The position a train currently occupies (its near node along the edge).
fn occupied_pos(state: &BattleState, from: NodeId, to: Option<NodeId>, progress: u32, edge_ticks: u32) -> (r: Pos)
    requires
        state.wf(),
        from < state.arena.nodes@.len(),
        to matches Some(x) ==> x < state.arena.nodes@.len(),
        progress <= 0x4000_0001,
    ensures
        r == state.arena.nodes@[spec_node_of(Train { faction: Faction::A, kind: TrainKind::Express, hp: 1, from, to, progress, edge_ticks }) as int].pos,
        crate::battle::arena::coord_ok(r),
{
    let r = match to {
        Some(to) => if progress * 2 >= edge_ticks {
            state.arena.pos(to)
        } else {
            state.arena.pos(from)
        },
        None => state.arena.pos(from),
    };
    r
}

/// Whether a plan deploys anything.
pub open spec fn deploys_any(cmds: Seq<Command>) -> bool {
    exists|i: int| 0 <= i < cmds.len() && #[trigger] cmds[i] is Deploy
}

proof fn lemma_spend_prefix(a: Seq<Command>, b: Seq<Command>, k: int)
    requires
        0 <= k <= a.len(),
    ensures
        spend(a + b, k) == spend(a, k),
    decreases k,
{
    if k > 0 {
        lemma_spend_prefix(a, b, k - 1);
        assert((a + b)[k - 1] == a[k - 1]);
    }
}

/// No plan spends a negative amount.
proof fn lemma_spend_nonneg(a: Seq<Command>, k: int)
    ensures
        spend(a, k) >= 0,
    decreases k,
{
    if k > 0 {
        lemma_spend_nonneg(a, k - 1);
    }
}

/// Spending is additive over concatenated plans.
proof fn lemma_spend_append(a: Seq<Command>, b: Seq<Command>, k: int)
    requires
        0 <= k <= b.len(),
    ensures
        spend(a + b, a.len() + k) == total_spend(a) + spend(b, k),
    decreases k,
{
    if k == 0 {
        lemma_spend_prefix(a, b, a.len() as int);
    } else {
        lemma_spend_append(a, b, k - 1);
        assert((a + b)[a.len() + k - 1] == b[k - 1]);
    }
}

/// Routing commands cost nothing.
proof fn lemma_spend_switches(s: BattleState, me: Faction, k: int)
    requires
        0 <= k,
    ensures
        total_spend(hard_switches(s, me, k)) == 0,
        !deploys_any(hard_switches(s, me, k)),
    decreases k,
{
    reveal_with_fuel(spend, 2);
    if k > 0 {
        let p = hard_switches(s, me, k - 1);
        lemma_spend_switches(s, me, k - 1);
        let spawn = s.arena.spawns[spec_index(me)]@[k - 1];
        if s.arena.nodes@[spawn as int].exits[spec_index(me)]@.len() >= 2 {
            let c = Command::SetSwitch { node: spawn, choice: spec_route_toward_king(s, me, spawn) };
            lemma_spend_append(p, seq![c], 1);
            assert(p + seq![c] =~= p.push(c));
            assert forall|i: int| 0 <= i < p.push(c).len() implies !(#[trigger] p.push(c)[i] is Deploy) by {
                if i < p.len() {
                    assert(p.push(c)[i] == p[i]);
                }
            }
        }
    }
}

/// `c` deploys of one kind cost `c` times its cost.
proof fn lemma_spend_uniform(kind: TrainKind, lanes: int, c: int, k: int)
    requires
        0 <= k <= c,
        lanes >= 1,
    ensures
        spend(Seq::new(c as nat, |i: int| Command::Deploy { kind, lane: (i % lanes) as usize }), k)
            == k * spec_stats(kind).cost,
    decreases k,
{
    if k > 0 {
        lemma_spend_uniform(kind, lanes, c, k - 1);
        assert((k - 1) * spec_stats(kind).cost + spec_stats(kind).cost == k * spec_stats(kind).cost) by (nonlinear_arith);
    }
}

/// The AI never plans to spend more steam than it has.
pub proof fn lemma_ai_never_overspends(s: BattleState, me: Faction, level: AiLevel)
    ensures
        total_spend(spec_ai_orders(s, me, level)) <= s.steam[spec_index(me)],
{
    if s.status == Status::Ongoing {
        let switches = if level == AiLevel::Hard {
            hard_switches(s, me, s.arena.spawns[spec_index(me)]@.len() as int)
        } else {
            Seq::empty()
        };
        lemma_spend_switches(s, me, s.arena.spawns[spec_index(me)]@.len() as int);
        let deploys = if level == AiLevel::Easy {
            match spec_cheapest(s.steam[spec_index(me)]) {
                Some(kind) => seq![Command::Deploy {
                    kind,
                    lane: match spec_threat_lane(s, me) {
                        Some(l) => l,
                        None => 0,
                    },
                }],
                None => Seq::empty(),
            }
        } else {
            counter_deploys(s, me)
        };
        lemma_spend_append(switches, deploys, deploys.len() as int);
        if level != AiLevel::Easy {
            lemma_counter_spend(s, me);
        } else {
            reveal_with_fuel(spend, 2);
        }
    }
}

/// The counter deploys spend at most the budget, and none when it is empty.
proof fn lemma_counter_spend(s: BattleState, me: Faction)
    ensures
        total_spend(counter_deploys(s, me)) <= s.steam[spec_index(me)],
        s.steam[spec_index(me)] < 3 ==> !deploys_any(counter_deploys(s, me)),
{
    let budget = s.steam[spec_index(me)];
    let counter = spec_counter_pick(s.trains@, me);
    let cost = spec_stats(counter).cost;
    let lanes = if s.arena.spawns[spec_index(me)]@.len() >= 1 {
        s.arena.spawns[spec_index(me)]@.len() as int
    } else {
        1
    };
    let first = match spec_threat_lane(s, me) {
        Some(lane) => if budget >= cost {
            seq![Command::Deploy { kind: counter, lane }]
        } else {
            Seq::empty()
        },
        None => Seq::empty(),
    };
    let rest = budget - first.len() * cost;
    let c = rest / (cost as int);
    let tail = Seq::new(c as nat, |i: int| Command::Deploy { kind: counter, lane: (i % lanes) as usize });
    assert(counter_deploys(s, me) == first + tail);
    lemma_spend_append(first, tail, tail.len() as int);
    lemma_spend_uniform(counter, lanes, c, c);
    reveal_with_fuel(spend, 2);
    assert(c * cost <= rest) by (nonlinear_arith)
        requires
            c == rest / (cost as int),
            rest >= 0,
            cost >= 3,
    ;
    if budget < 3 {
        assert(c == 0) by (nonlinear_arith)
            requires
                c == rest / (cost as int),
                0 <= rest < 3,
                cost >= 3,
        ;
        assert(first.len() == 0);
        assert(first + tail =~= Seq::<Command>::empty());
    }
}

/// With no steam, the AI deploys nothing at any level.
pub proof fn lemma_broke_ai_does_not_deploy(s: BattleState, me: Faction, level: AiLevel)
    requires
        s.steam[spec_index(me)] == 0,
    ensures
        !deploys_any(spec_ai_orders(s, me, level)),
{
    if s.status == Status::Ongoing {
        let k = s.arena.spawns[spec_index(me)]@.len() as int;
        lemma_spend_switches(s, me, k);
        lemma_counter_spend(s, me);
        let switches = if level == AiLevel::Hard { hard_switches(s, me, k) } else { Seq::empty() };
        let deploys = if level == AiLevel::Easy { Seq::empty() } else { counter_deploys(s, me) };
        assert(spec_ai_orders(s, me, level) == switches + deploys);
        assert forall|i: int| 0 <= i < (switches + deploys).len() implies !(#[trigger] (switches + deploys)[i] is Deploy) by {
            if i < switches.len() {
                assert((switches + deploys)[i] == switches[i]);
            } else {
                assert((switches + deploys)[i] == deploys[i - switches.len()]);
            }
        }
    }
}

/// Easy never outspends Normal — except with 3 or 4 steam, where Easy can buy
/// an Express while Normal saves for a 5-steam counter.
pub proof fn lemma_easy_no_greedier_than_normal(s: BattleState, me: Faction)
    requires
        s.steam[spec_index(me)] >= 5 || s.steam[spec_index(me)] < 3,
    ensures
        total_spend(spec_ai_orders(s, me, AiLevel::Easy)) <= total_spend(spec_ai_orders(s, me, AiLevel::Normal)),
{
    if s.status == Status::Ongoing {
        let budget = s.steam[spec_index(me)];
        let easy = spec_ai_orders(s, me, AiLevel::Easy);
        let normal = spec_ai_orders(s, me, AiLevel::Normal);
        assert(easy == Seq::<Command>::empty() + (match spec_cheapest(budget) {
            Some(kind) => seq![Command::Deploy {
                kind,
                lane: match spec_threat_lane(s, me) {
                    Some(l) => l,
                    None => 0,
                },
            }],
            None => Seq::empty(),
        }));
        assert(Seq::<Command>::empty() + counter_deploys(s, me) =~= counter_deploys(s, me));
        assert(normal == counter_deploys(s, me));
        let ed = match spec_cheapest(budget) {
            Some(kind) => seq![Command::Deploy {
                kind,
                lane: match spec_threat_lane(s, me) {
                    Some(l) => l,
                    None => 0,
                },
            }],
            None => Seq::empty(),
        };
        assert(Seq::<Command>::empty() + ed =~= ed);
        reveal_with_fuel(spend, 2);
        crate::battle::unit::lemma_counter_triangle();
        lemma_spend_nonneg(normal, normal.len() as int);
        if budget >= 5 {
            lemma_counter_spend_at_least(s, me);
        }
    }
}

/// With enough steam for the counter, Normal spends at least one counter's cost.
proof fn lemma_counter_spend_at_least(s: BattleState, me: Faction)
    requires
        s.steam[spec_index(me)] >= spec_stats(spec_counter_pick(s.trains@, me)).cost,
    ensures
        total_spend(counter_deploys(s, me)) >= spec_stats(spec_counter_pick(s.trains@, me)).cost,
{
    let budget = s.steam[spec_index(me)];
    let counter = spec_counter_pick(s.trains@, me);
    let cost = spec_stats(counter).cost;
    let lanes = if s.arena.spawns[spec_index(me)]@.len() >= 1 {
        s.arena.spawns[spec_index(me)]@.len() as int
    } else {
        1
    };
    let first = match spec_threat_lane(s, me) {
        Some(lane) => if budget >= cost {
            seq![Command::Deploy { kind: counter, lane }]
        } else {
            Seq::empty()
        },
        None => Seq::empty(),
    };
    let rest = budget - first.len() * cost;
    let c = rest / (cost as int);
    let tail = Seq::new(c as nat, |i: int| Command::Deploy { kind: counter, lane: (i % lanes) as usize });
    crate::battle::unit::lemma_counter_triangle();
    match spec_threat_lane(s, me) {
        Some(l) => {
            if budget >= cost {
                assert(first.len() == 1);
            } else {
                assert(first.len() == 0);
            }
        },
        None => {
            assert(first.len() == 0);
        },
    }
    assert(rest >= 0);
    assert(0 <= c) by (nonlinear_arith)
        requires
            c == rest / (cost as int),
            rest >= 0,
            cost >= 3,
    ;
    assert(counter_deploys(s, me) == first + tail);
    lemma_spend_append(first, tail, tail.len() as int);
    lemma_spend_uniform(counter, lanes, c, c);
    reveal_with_fuel(spend, 2);
    if first.len() == 0 {
        assert(c >= 1) by (nonlinear_arith)
            requires
                c == rest / (cost as int),
                rest >= cost,
                cost >= 3,
        ;
        assert(c * cost >= cost) by (nonlinear_arith)
            requires
                c >= 1,
                cost >= 3,
        ;
    }
}

/// Hard always routes every spawn switch it has.
pub proof fn lemma_hard_sets_switches(s: BattleState, me: Faction, lane: int)
    requires
        s.status == Status::Ongoing,
        0 <= lane < s.arena.spawns[spec_index(me)]@.len(),
        s.arena.nodes@[s.arena.spawns[spec_index(me)]@[lane] as int].exits[spec_index(me)]@.len() >= 2,
    ensures
        exists|i: int| 0 <= i < spec_ai_orders(s, me, AiLevel::Hard).len() && #[trigger] spec_ai_orders(s, me, AiLevel::Hard)[i] is SetSwitch,
{
    let k = s.arena.spawns[spec_index(me)]@.len() as int;
    lemma_hard_switch_kept(s, me, lane, k);
    let sw = hard_switches(s, me, k);
    let i = choose|i: int| 0 <= i < sw.len() && #[trigger] sw[i] is SetSwitch;
    let all = spec_ai_orders(s, me, AiLevel::Hard);
    assert(all[i] == sw[i]);
}

proof fn lemma_hard_switch_kept(s: BattleState, me: Faction, lane: int, k: int)
    requires
        0 <= lane < k,
        k <= s.arena.spawns[spec_index(me)]@.len(),
        s.arena.nodes@[s.arena.spawns[spec_index(me)]@[lane] as int].exits[spec_index(me)]@.len() >= 2,
    ensures
        exists|i: int| 0 <= i < hard_switches(s, me, k).len() && #[trigger] hard_switches(s, me, k)[i] is SetSwitch,
    decreases k,
{
    let p = hard_switches(s, me, k - 1);
    if lane < k - 1 {
        lemma_hard_switch_kept(s, me, lane, k - 1);
        let i = choose|i: int| 0 <= i < p.len() && #[trigger] p[i] is SetSwitch;
        assert(hard_switches(s, me, k)[i] == p[i]);
    } else {
        let h = hard_switches(s, me, k);
        assert(h[h.len() - 1] is SetSwitch);
    }
}

/// Facing an Armored-heavy enemy with steam for a Rocket, Normal and Hard
/// answer with Rockets.
pub proof fn lemma_counters_armored_with_rockets(s: BattleState, me: Faction, level: AiLevel)
    requires
        s.status == Status::Ongoing,
        level != AiLevel::Easy,
        s.steam[spec_index(me)] >= 5,
        count_kind(s.trains@, spec_enemy(me), TrainKind::Armored, s.trains@.len() as int) > 0,
        count_kind(s.trains@, spec_enemy(me), TrainKind::Armored, s.trains@.len() as int)
            >= count_kind(s.trains@, spec_enemy(me), TrainKind::Express, s.trains@.len() as int),
        count_kind(s.trains@, spec_enemy(me), TrainKind::Armored, s.trains@.len() as int)
            >= count_kind(s.trains@, spec_enemy(me), TrainKind::Rocket, s.trains@.len() as int),
    ensures
        spec_counter_pick(s.trains@, me) == TrainKind::Rocket,
        exists|i: int| 0 <= i < spec_ai_orders(s, me, level).len()
            && #[trigger] spec_ai_orders(s, me, level)[i] matches Command::Deploy { kind: TrainKind::Rocket, .. },
{
    let budget = s.steam[spec_index(me)];
    let counter = spec_counter_pick(s.trains@, me);
    let cost = spec_stats(counter).cost;
    let lanes = if s.arena.spawns[spec_index(me)]@.len() >= 1 {
        s.arena.spawns[spec_index(me)]@.len() as int
    } else {
        1
    };
    let first = match spec_threat_lane(s, me) {
        Some(lane) => if budget >= cost {
            seq![Command::Deploy { kind: counter, lane }]
        } else {
            Seq::empty()
        },
        None => Seq::empty(),
    };
    let rest = budget - first.len() * cost;
    let c = rest / (cost as int);
    let tail = Seq::new(c as nat, |i: int| Command::Deploy { kind: counter, lane: (i % lanes) as usize });
    let d = counter_deploys(s, me);
    assert(d == first + tail);
    let sw = if level == AiLevel::Hard {
        hard_switches(s, me, s.arena.spawns[spec_index(me)]@.len() as int)
    } else {
        Seq::empty()
    };
    let all = spec_ai_orders(s, me, level);
    assert(all == sw + d);
    if first.len() == 1 {
        assert(all[sw.len() as int] == first[0]);
    } else {
        assert(c >= 1) by (nonlinear_arith)
            requires
                c == rest / (cost as int),
                rest >= 5,
                cost == 5,
        ;
        assert(all[sw.len() as int] == tail[0]);
    }
}

} // verus!
