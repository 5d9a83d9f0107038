//! The mutable battle state carried between turns.
use vstd::prelude::*;

use super::arena::{Arena, BattleConfig, NodeData, NodeId, Tower, TowerKind, max1, MAX_GRID_NODES, MAX_GRID_SIDE};
use super::unit::Train;
use super::{spec_index, Faction};

verus! {

/// Most trains the board may carry. The damage a tower or train takes in one
/// tick grows with the number of trains on the board; with at most `2^20`
/// trains, and configured hp, steam and damage within `CFG_LIMIT` and
/// `DAMAGE_LIMIT`, every hp, damage and steam sum of a turn stays inside its
/// integer type, and hp never falls below `HP_FLOOR`. The three bounds are
/// sufficient ones, not the exact points of overflow (those depend on one
/// another and on the configured values), chosen far above any real battle:
/// a side deploys a few trains a turn. `turn_fits_check` tests the train bound
/// before a turn and `BattleConfig::is_valid` the configured values.
pub const MAX_TRAINS: usize = 0x10_0000;

/// Lowest hp a tower or train ever reaches.
pub const HP_FLOOR: i32 = -0x4000_0000;

/// Bound on configured starting hp and steam magnitudes (see `MAX_TRAINS`).
pub const CFG_LIMIT: i32 = 0x2000_0000;

/// Bound on configured tower damage per tick (see `MAX_TRAINS`).
pub const DAMAGE_LIMIT: i32 = 0x10_0000;

/// Most steam a faction ever holds.
pub const STEAM_LIMIT: u32 = 0x8000_0000;

/// Longest edge, in ticks, a train may travel.
pub const EDGE_LIMIT: u32 = 0x4000_0000;

/// Match status.
#[derive(Clone, Copy, Debug, PartialEq, Eq, Structural)]
pub enum Status {
    Ongoing,
    Won(Faction),
    Draw,
}

/// The full, deterministic state of a battle. Cloneable so a turn can be
/// re-simulated from any point (the basis for server verification).
#[derive(Clone, Debug, PartialEq, Eq)]
pub struct BattleState {
    pub arena: Arena,
    /// Live towers (hp mutates); starts as a copy of `arena.towers`.
    pub towers: Vec<Tower>,
    pub trains: Vec<Train>,
    /// Steam available to each faction next plan phase.
    pub steam: [u32; 2],
    /// Persisted routing choice per faction per node (`switches[f][node]`).
    pub switches: [Vec<u8>; 2],
    pub tick: u32,
    pub turn: u32,
    pub status: Status,
    pub cfg: BattleConfig,
}

/// The part of a battle that changes from tick to tick, as mathematical values.
pub struct BattleModel {
    pub towers: Seq<Tower>,
    pub trains: Seq<Train>,
    pub steam: Seq<u32>,
    pub switches: Seq<Seq<u8>>,
    pub tick: u32,
    pub turn: u32,
    pub status: Status,
}

impl View for BattleState {
    type V = BattleModel;

    open spec fn view(&self) -> BattleModel {
        BattleModel {
            towers: self.towers@,
            trains: self.trains@,
            steam: self.steam@,
            switches: seq![self.switches[0]@, self.switches[1]@],
            tick: self.tick,
            turn: self.turn,
            status: self.status,
        }
    }
}

/// The hp of the first King tower of faction `f` at or after position `i`, or 0.
pub open spec fn king_hp_from(towers: Seq<Tower>, f: Faction, i: int) -> i32
    decreases towers.len() - i,
{
    if i < 0 || i >= towers.len() {
        0
    } else if towers[i].faction == f && towers[i].kind == TowerKind::King {
        towers[i].hp
    } else {
        king_hp_from(towers, f, i + 1)
    }
}

/// The hp of faction `f`'s King tower (0 if missing).
pub open spec fn spec_king_hp(towers: Seq<Tower>, f: Faction) -> i32 {
    king_hp_from(towers, f, 0)
}

impl BattleConfig {
    /// Magnitudes small enough that every hp, damage and steam sum of a battle
    /// is computed exactly.
    pub open spec fn sane(&self) -> bool {
        &&& -CFG_LIMIT <= self.king_hp <= CFG_LIMIT
        &&& -CFG_LIMIT <= self.side_tower_hp <= CFG_LIMIT
        &&& -DAMAGE_LIMIT <= self.king_damage <= DAMAGE_LIMIT
        &&& -DAMAGE_LIMIT <= self.side_damage <= DAMAGE_LIMIT
        &&& self.steam_start <= CFG_LIMIT
        &&& self.steam_per_turn <= CFG_LIMIT
        &&& self.steam_cap <= CFG_LIMIT
    }

    /// The config describes a battle the engine can run.
    pub open spec fn valid(&self) -> bool {
        self.grid_fits() && self.sane()
    }

    /// Whether the engine can run a battle with this config.
    pub fn is_valid(&self) -> (r: bool)
        ensures
            r == self.valid(),
    {
        if self.cols > MAX_GRID_SIDE || self.rows > MAX_GRID_SIDE {
            return false;
        }
        let r = if self.rows > 1 { self.rows as u64 } else { 1 };
        let c = if self.cols > 1 { self.cols as u64 } else { 1 };
        proof {
            assert(r * c <= 0x2000_0000_0000_0000) by (nonlinear_arith)
                requires
                    1 <= r <= 0x1FFF_FFFE,
                    1 <= c <= 0x1FFF_FFFE,
            ;
        }
        r * c <= MAX_GRID_NODES as u64 && -CFG_LIMIT <= self.king_hp && self.king_hp <= CFG_LIMIT
            && -CFG_LIMIT <= self.side_tower_hp && self.side_tower_hp <= CFG_LIMIT
            && -DAMAGE_LIMIT <= self.king_damage && self.king_damage <= DAMAGE_LIMIT
            && -DAMAGE_LIMIT <= self.side_damage && self.side_damage <= DAMAGE_LIMIT
            && self.steam_start <= CFG_LIMIT as u32 && self.steam_per_turn <= CFG_LIMIT as u32
            && self.steam_cap <= CFG_LIMIT as u32
    }
}

/// A live tower sits where the arena's tower does and fires the same way.
pub open spec fn same_tower_place(t: Tower, a: Tower) -> bool {
    &&& t.faction == a.faction
    &&& t.kind == a.kind
    &&& t.node == a.node
    &&& t.range == a.range
    &&& t.damage == a.damage
}

/// A train that fits the board: its nodes exist and its counters stay small.
pub open spec fn train_ok(t: Train, n: int) -> bool {
    &&& t.from < n
    &&& (t.to matches Some(x) ==> x < n)
    &&& t.edge_ticks <= EDGE_LIMIT
    &&& t.progress <= t.edge_ticks + 1
    &&& (t.hp > 0 ==> t.progress <= t.edge_ticks)
    &&& t.hp >= HP_FLOOR
}

impl BattleState {
    /// The invariant every battle state keeps: the arena is the config's ladder,
    /// live towers mirror the arena's towers (only hp differs), switch tables
    /// cover every node, trains fit the board, and all counters stay in range.
    /// While the battle is ongoing, a King with no hp left still holds its
    /// configured hp (no tick has run since it was set up).
    pub open spec fn wf(&self) -> bool {
        &&& self.frame_ok()
        &&& self.towers_floor()
        &&& self.kings_standing()
    }

    /// The structural part of the invariant, which also holds between the
    /// phases of a tick.
    pub open spec fn frame_ok(&self) -> bool {
        let n = self.arena.nodes@.len();
        &&& self.cfg.valid()
        &&& self.arena.is_ladder_of(self.cfg)
        &&& self.arena.wf()
        &&& self.towers@.len() == self.arena.towers@.len()
        &&& forall|k: int|
            0 <= k < self.towers@.len() ==> same_tower_place(#[trigger] self.towers@[k], self.arena.towers@[k])
        &&& self.switches[0]@.len() == n
        &&& self.switches[1]@.len() == n
        &&& self.steam[0] <= STEAM_LIMIT
        &&& self.steam[1] <= STEAM_LIMIT
        &&& self.trains@.len() <= MAX_TRAINS
        &&& forall|i: int| 0 <= i < self.trains@.len() ==> train_ok(#[trigger] self.trains@[i], n as int)
    }

    /// No tower has fallen below the hp floor.
    pub open spec fn towers_floor(&self) -> bool {
        forall|k: int| 0 <= k < self.towers@.len() ==> (#[trigger] self.towers@[k]).hp >= HP_FLOOR
    }

    /// While the battle is ongoing, each King (towers 0 and 1) either stands or
    /// still holds its configured hp.
    pub open spec fn kings_standing(&self) -> bool {
        self.status == Status::Ongoing ==> forall|k: int|
            0 <= k < 2 ==> (#[trigger] self.towers@[k]).hp > 0 || self.towers@[k].hp == self.cfg.king_hp
    }

    /// Fresh battle from a config.
    pub fn new(cfg: BattleConfig) -> (r: Self)
        requires
            cfg.valid(),
        ensures
            r.wf(),
            r.cfg == cfg,
            r.arena.is_ladder_of(cfg),
            r.towers@ == r.arena.towers@,
            r.trains@.len() == 0,
            r.steam[0] == cfg.steam_start,
            r.steam[1] == cfg.steam_start,
            r.switches[0]@ == Seq::new(r.arena.nodes@.len(), |i: int| 0u8),
            r.switches[1]@ == Seq::new(r.arena.nodes@.len(), |i: int| 0u8),
            r.tick == 0,
            r.turn == 0,
            r.status == Status::Ongoing,
    {
        let arena = Arena::generate(&cfg);
        let n = arena.nodes.len();
        let towers = copy_towers(&arena.towers);
        let sw_a = zeros(n);
        let sw_b = zeros(n);
        let steam_start = cfg.steam_start;
        let r = BattleState {
            arena,
            towers,
            trains: Vec::new(),
            steam: [steam_start, steam_start],
            switches: [sw_a, sw_b],
            tick: 0,
            turn: 0,
            status: Status::Ongoing,
            cfg,
        };
        proof {
            let rows = max1(cfg.rows);
            let cols = max1(cfg.cols);
            assert(r.towers@[0] == r.arena.towers@[0]);
            assert(r.towers@[1] == r.arena.towers@[1]);
        }
        r
    }

    /// HP of a faction's King tower (0 if somehow missing).
    pub fn king_hp(&self, faction: Faction) -> (r: i32)
        ensures
            r == spec_king_hp(self.towers@, faction),
    {
        let mut i: usize = 0;
        while i < self.towers.len()
            invariant
                i <= self.towers@.len(),
                spec_king_hp(self.towers@, faction) == king_hp_from(self.towers@, faction, i as int),
            decreases self.towers@.len() - i,
        {
            let t = self.towers[i];
            if t.faction == faction && t.kind == TowerKind::King {
                return t.hp;
            }
            i = i + 1;
        }
        0
    }

    pub fn is_over(&self) -> (r: bool)
        ensures
            r == (self.status != Status::Ongoing),
    {
        match self.status {
            Status::Ongoing => false,
            _ => true,
        }
    }
}

/// In a ladder state the Kings are towers 0 and 1, so `king_hp` reads them.
pub proof fn lemma_king_hp_of_ladder(towers: Seq<Tower>, f: Faction)
    requires
        towers.len() >= 2,
        towers[0].faction == Faction::A,
        towers[0].kind == TowerKind::King,
        towers[1].faction == Faction::B,
        towers[1].kind == TowerKind::King,
    ensures
        spec_king_hp(towers, f) == towers[spec_index(f)].hp,
{
    reveal_with_fuel(king_hp_from, 3);
}

/// A copy of a tower list.
fn copy_towers(v: &Vec<Tower>) -> (r: Vec<Tower>)
    ensures
        r@ == v@,
{
    let mut r: Vec<Tower> = Vec::new();
    let mut i: usize = 0;
    while i < v.len()
        invariant
            i <= v@.len(),
            r@ == v@.subrange(0, i as int),
        decreases v@.len() - i,
    {
        r.push(v[i]);
        i = i + 1;
        proof {
            assert(r@ =~= v@.subrange(0, i as int));
        }
    }
    proof {
        assert(r@ =~= v@);
    }
    r
}

/// A switch table of `n` zero (default-route) entries.
fn zeros(n: usize) -> (r: Vec<u8>)
    ensures
        r@ == Seq::new(n as nat, |i: int| 0u8),
{
    let mut r: Vec<u8> = Vec::new();
    let mut i: usize = 0;
    while i < n
        invariant
            i <= n,
            r@ == Seq::new(i as nat, |k: int| 0u8),
        decreases n - i,
    {
        r.push(0u8);
        i = i + 1;
        proof {
            assert(r@ =~= Seq::new(i as nat, |k: int| 0u8));
        }
    }
    r
}

impl Arena {
    /// Two arenas with the same nodes, towers, spawns, Kings and dimensions.
    pub open spec fn same_as(&self, other: Arena) -> bool {
        &&& self.nodes@.len() == other.nodes@.len()
        &&& forall|i: int| 0 <= i < self.nodes@.len() ==> {
            &&& (#[trigger] self.nodes@[i]).pos == other.nodes@[i].pos
            &&& self.nodes@[i].exits[0]@ == other.nodes@[i].exits[0]@
            &&& self.nodes@[i].exits[1]@ == other.nodes@[i].exits[1]@
        }
        &&& self.towers@ == other.towers@
        &&& self.spawns[0]@ == other.spawns[0]@
        &&& self.spawns[1]@ == other.spawns[1]@
        &&& self.kings[0] == other.kings[0]
        &&& self.kings[1] == other.kings[1]
        &&& self.cols == other.cols
        &&& self.rows == other.rows
    }

    /// A deep copy of the arena.
    fn copy(&self) -> (r: Arena)
        ensures
            r.same_as(*self),
    {
        let mut nodes: Vec<NodeData> = Vec::new();
        let mut i: usize = 0;
        while i < self.nodes.len()
            invariant
                i <= self.nodes@.len(),
                nodes@.len() == i,
                forall|j: int| 0 <= j < i ==> {
                    &&& (#[trigger] nodes@[j]).pos == self.nodes@[j].pos
                    &&& nodes@[j].exits[0]@ == self.nodes@[j].exits[0]@
                    &&& nodes@[j].exits[1]@ == self.nodes@[j].exits[1]@
                },
            decreases self.nodes@.len() - i,
        {
            let nd = &self.nodes[i];
            let e0 = copy_ids(&nd.exits[0]);
            let e1 = copy_ids(&nd.exits[1]);
            nodes.push(NodeData { pos: nd.pos, exits: [e0, e1] });
            i = i + 1;
        }
        Arena {
            nodes,
            towers: copy_towers(&self.towers),
            spawns: [copy_ids(&self.spawns[0]), copy_ids(&self.spawns[1])],
            kings: [self.kings[0], self.kings[1]],
            cols: self.cols,
            rows: self.rows,
        }
    }
}

impl BattleConfig {
    /// A field-by-field copy of the config.
    fn copy(&self) -> (r: BattleConfig)
        ensures
            r == *self,
    {
        BattleConfig {
            seed: self.seed,
            cols: self.cols,
            rows: self.rows,
            ticks_per_turn: self.ticks_per_turn,
            steam_start: self.steam_start,
            steam_per_turn: self.steam_per_turn,
            steam_cap: self.steam_cap,
            king_hp: self.king_hp,
            side_tower_hp: self.side_tower_hp,
            king_range: self.king_range,
            king_damage: self.king_damage,
            side_range: self.side_range,
            side_damage: self.side_damage,
            max_turns: self.max_turns,
        }
    }
}

impl BattleState {
    /// A deep copy of the battle, for frame-by-frame playback.
    pub(crate) fn snapshot(&self) -> (r: BattleState)
        ensures
            r@ == self@,
            r.cfg == self.cfg,
            r.arena.same_as(self.arena),
    {
        let mut trains: Vec<Train> = Vec::new();
        let mut i: usize = 0;
        while i < self.trains.len()
            invariant
                i <= self.trains@.len(),
                trains@ == self.trains@.subrange(0, i as int),
            decreases self.trains@.len() - i,
        {
            trains.push(self.trains[i]);
            i = i + 1;
            proof {
                assert(trains@ =~= self.trains@.subrange(0, i as int));
            }
        }
        proof {
            assert(trains@ =~= self.trains@);
        }
        let r = BattleState {
            arena: self.arena.copy(),
            towers: copy_towers(&self.towers),
            trains,
            steam: [self.steam[0], self.steam[1]],
            switches: [copy_switches(&self.switches[0]), copy_switches(&self.switches[1])],
            tick: self.tick,
            turn: self.turn,
            status: self.status,
            cfg: self.cfg.copy(),
        };
        proof {
            assert(r@.steam =~= self@.steam);
            assert(r@.switches =~= self@.switches);
        }
        r
    }
}

/// A copy of a list of node ids.
fn copy_ids(v: &Vec<NodeId>) -> (r: Vec<NodeId>)
    ensures
        r@ == v@,
{
    let mut r: Vec<NodeId> = Vec::new();
    let mut i: usize = 0;
    while i < v.len()
        invariant
            i <= v@.len(),
            r@ == v@.subrange(0, i as int),
        decreases v@.len() - i,
    {
        r.push(v[i]);
        i = i + 1;
        proof {
            assert(r@ =~= v@.subrange(0, i as int));
        }
    }
    proof {
        assert(r@ =~= v@);
    }
    r
}

/// A copy of a switch table.
fn copy_switches(v: &Vec<u8>) -> (r: Vec<u8>)
    ensures
        r@ == v@,
{
    let mut r: Vec<u8> = Vec::new();
    let mut i: usize = 0;
    while i < v.len()
        invariant
            i <= v@.len(),
            r@ == v@.subrange(0, i as int),
        decreases v@.len() - i,
    {
        r.push(v[i]);
        i = i + 1;
        proof {
            assert(r@ =~= v@.subrange(0, i as int));
        }
    }
    proof {
        assert(r@ =~= v@);
    }
    r
}

} // verus!
