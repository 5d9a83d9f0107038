//! The battle arena: a shared rail graph with per-faction routing toward the
//! enemy, plus towers.
//!
//! Layout is a symmetric "ladder": `rows` rows of `cols` lane-nodes. Faction `A`
//! travels from row 0 up to the top and into B's King; faction `B` travels the
//! mirror. Both factions share node positions (so their trains can collide), but
//! each has its own routing edges pointing at the enemy — at a node with two
//! exits, that faction chooses the lane (a switch).
use vstd::prelude::*;

use super::{spec_index, Faction};
use crate::geometry::Pos;

verus! {

/// Index into `Arena::nodes`.
pub type NodeId = usize;

/// Largest lane count / row count whose grid coordinates the engine handles.
pub const MAX_GRID_SIDE: usize = 0x1FFF_FFFE;

/// Largest number of lane-nodes in a grid.
pub const MAX_GRID_NODES: usize = 0x3FFF_FFFF;

/// Largest coordinate magnitude the squared-distance helpers accept.
pub const MAX_COORD: i32 = 0x3FFF_FFFF;

/// Tunables for a match. Fully determines arena generation and pacing.
#[derive(Clone, Debug, PartialEq, Eq)]
pub struct BattleConfig {
    pub seed: u64,
    /// Lanes across.
    pub cols: usize,
    /// Junction rows (depth of the field).
    pub rows: usize,
    /// Simulation ticks executed per resolved turn.
    pub ticks_per_turn: u32,
    /// Steam available on turn 1 and the per-turn regen / cap.
    pub steam_start: u32,
    pub steam_per_turn: u32,
    pub steam_cap: u32,
    pub king_hp: i32,
    pub side_tower_hp: i32,
    /// King tower fire (squared range is compared; damage is per tick).
    pub king_range: i32,
    pub king_damage: i32,
    /// Side tower fire.
    pub side_range: i32,
    pub side_damage: i32,
    /// Hard cap on turns before the healthier King wins (or a draw).
    pub max_turns: u32,
}

impl BattleConfig {
    /// The grid of this config fits the engine's integer coordinates.
    pub open spec fn grid_fits(&self) -> bool {
        &&& self.cols <= MAX_GRID_SIDE
        &&& self.rows <= MAX_GRID_SIDE
        &&& max1(self.rows) * max1(self.cols) <= MAX_GRID_NODES
    }
}

impl Default for BattleConfig {
    fn default() -> (r: Self)
        ensures
            r == (BattleConfig {
                seed: 1,
                cols: 3,
                rows: 4,
                ticks_per_turn: 30,
                steam_start: 6,
                steam_per_turn: 8,
                steam_cap: 24,
                king_hp: 100,
                side_tower_hp: 50,
                king_range: 4,
                king_damage: 2,
                side_range: 5,
                side_damage: 2,
                max_turns: 24,
            }),
    {
        BattleConfig {
            seed: 1,
            cols: 3,
            rows: 4,
            ticks_per_turn: 30,
            steam_start: 6,
            steam_per_turn: 8,
            steam_cap: 24,
            king_hp: 100,
            side_tower_hp: 50,
            // Towers defend but do not melt single-file streams instantly;
            // Rockets (range 5) keep a one-tile siege edge over the King (range 4).
            king_range: 4,
            king_damage: 2,
            side_range: 5,
            side_damage: 2,
            max_turns: 24,
        }
    }
}

/// What a tower is.
#[derive(Clone, Copy, Debug, PartialEq, Eq, Structural)]
pub enum TowerKind {
    /// Destroy it to win.
    King,
    /// Gates a lane; defensive.
    Side,
}

/// A tower belonging to a faction, sitting on a node and shooting nearby enemies.
#[derive(Clone, Copy, Debug, PartialEq, Eq, Structural)]
pub struct Tower {
    pub faction: Faction,
    pub kind: TowerKind,
    pub node: NodeId,
    pub hp: i32,
    pub range: i32,
    pub damage: i32,
}

impl Tower {
    pub fn alive(&self) -> (r: bool)
        ensures
            r == (self.hp > 0),
    {
        self.hp > 0
    }
}

/// A node in the graph: a position plus, per faction, the exits toward the enemy.
#[derive(Clone, Debug, PartialEq, Eq)]
pub struct NodeData {
    pub pos: Pos,
    /// `exits[faction.index()]` = nodes this faction may route to from here.
    /// 0 exits = terminal; 2 = a switchable junction.
    pub exits: [Vec<NodeId>; 2],
}

/// The generated arena.
#[derive(Clone, Debug, PartialEq, Eq)]
pub struct Arena {
    pub nodes: Vec<NodeData>,
    pub towers: Vec<Tower>,
    /// Entry nodes per faction (one per lane); deploys pick a lane.
    pub spawns: [Vec<NodeId>; 2],
    /// Each faction's own King node (the enemy aims here).
    pub kings: [NodeId; 2],
    pub cols: usize,
    pub rows: usize,
}

/// `n`, raised to at least 1.
pub open spec fn max1(n: usize) -> int {
    if n == 0 {
        1
    } else {
        n as int
    }
}

/// Two exits, deduped to one when they coincide.
pub open spec fn dedup_seq(x: NodeId, y: NodeId) -> Seq<NodeId> {
    if x == y {
        seq![x]
    } else {
        seq![x, y]
    }
}

/// The id of the lane-node in row `r`, column `c`.
pub open spec fn grid_id(cols: int, r: int, c: int) -> int {
    r * cols + c
}

/// The exits faction `f` (by index) has from lane-node `(r, c)` of a
/// `rows x cols` ladder: up (A) or down (B) one row into the same lane or the
/// next lane (wrapping), or into the enemy King from the far row.
pub open spec fn ladder_exits(rows: int, cols: int, f: int, r: int, c: int) -> Seq<NodeId> {
    let a_king = (rows * cols) as NodeId;
    let b_king = (rows * cols + 1) as NodeId;
    if f == 0 {
        if r + 1 < rows {
            dedup_seq(grid_id(cols, r + 1, c) as NodeId, grid_id(cols, r + 1, (c + 1) % cols) as NodeId)
        } else {
            seq![b_king]
        }
    } else {
        if r >= 1 {
            dedup_seq(grid_id(cols, r - 1, c) as NodeId, grid_id(cols, r - 1, (c + 1) % cols) as NodeId)
        } else {
            seq![a_king]
        }
    }
}

/// The towers of a ladder: both Kings, then (with two or more lanes) a side
/// tower on each faction's home row, lane 0.
pub open spec fn ladder_towers(cfg: BattleConfig, rows: int, cols: int) -> Seq<Tower> {
    let kings = seq![
        Tower {
            faction: Faction::A,
            kind: TowerKind::King,
            node: (rows * cols) as NodeId,
            hp: cfg.king_hp,
            range: cfg.king_range,
            damage: cfg.king_damage,
        },
        Tower {
            faction: Faction::B,
            kind: TowerKind::King,
            node: (rows * cols + 1) as NodeId,
            hp: cfg.king_hp,
            range: cfg.king_range,
            damage: cfg.king_damage,
        },
    ];
    if cols >= 2 {
        kings + seq![
            Tower {
                faction: Faction::A,
                kind: TowerKind::Side,
                node: 0,
                hp: cfg.side_tower_hp,
                range: cfg.side_range,
                damage: cfg.side_damage,
            },
            Tower {
                faction: Faction::B,
                kind: TowerKind::Side,
                node: grid_id(cols, rows - 1, 0) as NodeId,
                hp: cfg.side_tower_hp,
                range: cfg.side_range,
                damage: cfg.side_damage,
            },
        ]
    } else {
        kings
    }
}

impl Arena {
    /// This arena is exactly the ladder that `cfg` describes.
    pub open spec fn is_ladder_of(&self, cfg: BattleConfig) -> bool {
        let cols = max1(cfg.cols);
        let rows = max1(cfg.rows);
        &&& self.cols as int == cols
        &&& self.rows as int == rows
        &&& self.nodes@.len() == rows * cols + 2
        &&& self.kings[0] as int == rows * cols
        &&& self.kings[1] as int == rows * cols + 1
        &&& forall|r: int, c: int|
            0 <= r < rows && 0 <= c < cols ==> node_ok(#[trigger] self.nodes@[grid_id(cols, r, c)], rows, cols, r, c)
        &&& self.nodes@[rows * cols].pos == Pos { x: (cols - 1) as i32, y: 0 }
        &&& self.nodes@[rows * cols + 1].pos == Pos { x: (cols - 1) as i32, y: (2 * (rows + 1)) as i32 }
        &&& self.nodes@[rows * cols].exits[0]@.len() == 0
        &&& self.nodes@[rows * cols].exits[1]@.len() == 0
        &&& self.nodes@[rows * cols + 1].exits[0]@.len() == 0
        &&& self.nodes@[rows * cols + 1].exits[1]@.len() == 0
        &&& self.towers@ == ladder_towers(cfg, rows, cols)
        &&& self.spawns[0]@ == Seq::new(cols as nat, |c: int| c as NodeId)
        &&& self.spawns[1]@ == Seq::new(cols as nat, |c: int| grid_id(cols, rows - 1, c) as NodeId)
    }

    /// Structural well-formedness the simulation relies on: every referenced node
    /// exists, junctions have at most two exits, each faction has lanes, and the
    /// two Kings are distinct, exit-less nodes.
    pub open spec fn wf(&self) -> bool {
        let n = self.nodes@.len();
        &&& n <= MAX_GRID_NODES + 2
        &&& forall|i: int, f: int, k: int|
            0 <= i < n && 0 <= f < 2 && 0 <= k < self.nodes@[i].exits[f]@.len()
                ==> #[trigger] self.nodes@[i].exits[f]@[k] < n
        &&& forall|i: int, f: int| 0 <= i < n && 0 <= f < 2 ==> #[trigger] self.nodes@[i].exits[f]@.len() <= 2
        &&& forall|i: int| 0 <= i < n ==> coord_ok(#[trigger] self.nodes@[i].pos)
        &&& forall|f: int| 0 <= f < 2 ==> #[trigger] self.spawns[f]@.len() >= 1
        &&& forall|f: int, k: int|
            0 <= f < 2 && 0 <= k < self.spawns[f]@.len() ==> #[trigger] self.spawns[f]@[k] < n
        &&& self.kings[0] < n
        &&& self.kings[1] < n
        &&& self.kings[0] != self.kings[1]
        &&& self.nodes@[self.kings[0] as int].exits[0]@.len() == 0
        &&& self.nodes@[self.kings[0] as int].exits[1]@.len() == 0
        &&& self.nodes@[self.kings[1] as int].exits[0]@.len() == 0
        &&& self.nodes@[self.kings[1] as int].exits[1]@.len() == 0
        &&& self.towers@.len() <= 4
        &&& forall|k: int| 0 <= k < self.towers@.len() ==> #[trigger] self.towers@[k].node < n
    }

    /// The exit faction `f` takes from `node` with a switch `choice` (clamped),
    /// or `None` at a terminal.
    pub open spec fn spec_route(&self, f: Faction, node: NodeId, choice: int) -> Option<NodeId> {
        let exits = self.nodes@[node as int].exits[spec_index(f)]@;
        if exits.len() == 0 {
            None
        } else if choice < exits.len() - 1 {
            Some(exits[choice])
        } else {
            Some(exits[exits.len() - 1])
        }
    }

    /// Build the symmetric ladder arena for a config.
    pub fn generate(cfg: &BattleConfig) -> (r: Arena)
        requires
            cfg.grid_fits(),
        ensures
            r.is_ladder_of(*cfg),
            r.wf(),
    {
        let cols: usize = if cfg.cols == 0 { 1 } else { cfg.cols };
        let rows: usize = if cfg.rows == 0 { 1 } else { cfg.rows };
        proof {
            lemma_grid_size(rows as int, cols as int);
        }
        let a_king: usize = rows * cols;
        let b_king: usize = a_king + 1;
        let mut nodes: Vec<NodeData> = Vec::new();
        let mut r: usize = 0;
        while r < rows
            invariant
                cols == max1(cfg.cols),
                rows == max1(cfg.rows),
                1 <= cols <= MAX_GRID_SIDE,
                1 <= rows <= MAX_GRID_SIDE,
                rows * cols <= MAX_GRID_NODES,
                a_king == rows * cols,
                b_king == a_king + 1,
                r <= rows,
                nodes@.len() == r * cols,
                forall|rr: int, cc: int|
                    0 <= rr < r && 0 <= cc < cols ==> node_ok(#[trigger] nodes@[grid_id(cols as int, rr, cc)], rows as int, cols as int, rr, cc),
            decreases rows - r,
        {
            let mut c: usize = 0;
            while c < cols
                invariant
                    cols == max1(cfg.cols),
                    rows == max1(cfg.rows),
                    1 <= cols <= MAX_GRID_SIDE,
                    1 <= rows <= MAX_GRID_SIDE,
                    rows * cols <= MAX_GRID_NODES,
                    a_king == rows * cols,
                    b_king == a_king + 1,
                    r < rows,
                    c <= cols,
                    nodes@.len() == r * cols + c,
                    forall|rr: int, cc: int|
                        0 <= rr < r && 0 <= cc < cols ==> node_ok(#[trigger] nodes@[grid_id(cols as int, rr, cc)], rows as int, cols as int, rr, cc),
                    forall|cc: int|
                        0 <= cc < c ==> node_ok(#[trigger] nodes@[grid_id(cols as int, r as int, cc)], rows as int, cols as int, r as int, cc),
                decreases cols - c,
            {
                proof {
                    lemma_grid_index(rows as int, cols as int, r as int, c as int);
                    if r + 1 < rows {
                        lemma_grid_index(rows as int, cols as int, r + 1, c as int);
                        lemma_grid_index(rows as int, cols as int, r + 1, ((c + 1) % (cols as int)));
                    }
                    if r >= 1 {
                        lemma_grid_index(rows as int, cols as int, r - 1, c as int);
                        lemma_grid_index(rows as int, cols as int, r - 1, ((c + 1) % (cols as int)));
                    }
                }
                let exits_a = if r + 1 < rows {
                    dedup_two((r + 1) * cols + c, (r + 1) * cols + (c + 1) % cols)
                } else {
                    vec![b_king]
                };
                let exits_b = if r >= 1 {
                    dedup_two((r - 1) * cols + c, (r - 1) * cols + (c + 1) % cols)
                } else {
                    vec![a_king]
                };
                let x: i32 = (c as i32) * 2;
                let y: i32 = (r as i32 + 1) * 2;
                let ghost before = nodes@;
                nodes.push(NodeData { pos: Pos::new(x, y), exits: [exits_a, exits_b] });
                proof {
                    let nd = nodes@[grid_id(cols as int, r as int, c as int)];
                    assert(nd.pos == Pos { x: (2 * c) as i32, y: (2 * (r + 1)) as i32 });
                    assert(nd.exits[0]@ == ladder_exits(rows as int, cols as int, 0, r as int, c as int));
                    assert(nd.exits[1]@ == ladder_exits(rows as int, cols as int, 1, r as int, c as int));
                    assert(node_ok(nodes@[grid_id(cols as int, r as int, c as int)], rows as int, cols as int, r as int, c as int));
                    assert forall|rr: int, cc: int|
                        0 <= rr < r && 0 <= cc < cols implies node_ok(#[trigger] nodes@[grid_id(cols as int, rr, cc)], rows as int, cols as int, rr, cc) by {
                        lemma_grid_index(rows as int, cols as int, rr, cc);
                        lemma_grid_before(cols as int, rr, cc, r as int);
                        assert(nodes@[grid_id(cols as int, rr, cc)] == before[grid_id(cols as int, rr, cc)]);
                    }
                    assert forall|cc: int|
                        0 <= cc < c + 1 implies node_ok(#[trigger] nodes@[grid_id(cols as int, r as int, cc)], rows as int, cols as int, r as int, cc) by {
                        if cc < c {
                            assert(nodes@[grid_id(cols as int, r as int, cc)] == before[grid_id(cols as int, r as int, cc)]);
                        }
                    }
                }
                c = c + 1;
            }
            proof {
                assert((r + 1) * cols == r * cols + cols) by (nonlinear_arith);
                assert forall|rr: int, cc: int|
                    0 <= rr < r + 1 && 0 <= cc < cols implies node_ok(#[trigger] nodes@[grid_id(cols as int, rr, cc)], rows as int, cols as int, rr, cc) by {
                    if rr == r {
                    }
                }
            }
            r = r + 1;
        }
        let kx: i32 = cols as i32 - 1;
        let ky: i32 = (rows as i32 + 1) * 2;
        let ghost grid = nodes@;
        nodes.push(NodeData { pos: Pos::new(kx, 0), exits: [Vec::new(), Vec::new()] });
        nodes.push(NodeData { pos: Pos::new(kx, ky), exits: [Vec::new(), Vec::new()] });
        proof {
            assert forall|rr: int, cc: int|
                0 <= rr < rows && 0 <= cc < cols implies node_ok(#[trigger] nodes@[grid_id(cols as int, rr, cc)], rows as int, cols as int, rr, cc) by {
                lemma_grid_index(rows as int, cols as int, rr, cc);
                assert(nodes@[grid_id(cols as int, rr, cc)] == grid[grid_id(cols as int, rr, cc)]);
            }
        }

        // Towers: a King each, plus a side tower guarding each home row's flank.
        let mut towers: Vec<Tower> = Vec::new();
        towers.push(Tower {
            faction: Faction::A,
            kind: TowerKind::King,
            node: a_king,
            hp: cfg.king_hp,
            range: cfg.king_range,
            damage: cfg.king_damage,
        });
        towers.push(Tower {
            faction: Faction::B,
            kind: TowerKind::King,
            node: b_king,
            hp: cfg.king_hp,
            range: cfg.king_range,
            damage: cfg.king_damage,
        });
        if cols >= 2 {
            towers.push(Tower {
                faction: Faction::A,
                kind: TowerKind::Side,
                node: 0,
                hp: cfg.side_tower_hp,
                range: cfg.side_range,
                damage: cfg.side_damage,
            });
            proof {
                lemma_grid_index(rows as int, cols as int, rows - 1, 0);
            }
            towers.push(Tower {
                faction: Faction::B,
                kind: TowerKind::Side,
                node: (rows - 1) * cols,
                hp: cfg.side_tower_hp,
                range: cfg.side_range,
                damage: cfg.side_damage,
            });
        }

        let mut spawns_a: Vec<NodeId> = Vec::new();
        let mut spawns_b: Vec<NodeId> = Vec::new();
        let mut c: usize = 0;
        while c < cols
            invariant
                1 <= cols <= MAX_GRID_SIDE,
                1 <= rows <= MAX_GRID_SIDE,
                rows * cols <= MAX_GRID_NODES,
                c <= cols,
                spawns_a@ == Seq::new(c as nat, |k: int| k as NodeId),
                spawns_b@ == Seq::new(c as nat, |k: int| grid_id(cols as int, rows - 1, k) as NodeId),
            decreases cols - c,
        {
            proof {
                lemma_grid_index(rows as int, cols as int, rows - 1, c as int);
            }
            spawns_a.push(c);
            spawns_b.push((rows - 1) * cols + c);
            proof {
                assert(spawns_a@ =~= Seq::new((c + 1) as nat, |k: int| k as NodeId));
                assert(spawns_b@ =~= Seq::new((c + 1) as nat, |k: int| grid_id(cols as int, rows - 1, k) as NodeId));
            }
            c = c + 1;
        }

        let arena = Arena {
            nodes,
            towers,
            spawns: [spawns_a, spawns_b],
            kings: [a_king, b_king],
            cols,
            rows,
        };
        proof {
            assert(arena.towers@ =~= ladder_towers(*cfg, rows as int, cols as int));
            lemma_ladder_wf(arena, *cfg);
        }
        arena
    }

    /// The exit a faction takes from `node` given a switch `choice`, or `None` at
    /// a terminal. `choice` is clamped to the available exits.
    pub fn route(&self, faction: Faction, node: NodeId, choice: usize) -> (r: Option<NodeId>)
        requires
            node < self.nodes@.len(),
        ensures
            r == self.spec_route(faction, node, choice as int),
    {
        let exits = &self.nodes[node].exits[faction.index()];
        let n = exits.len();
        if n == 0 {
            None
        } else if choice < n - 1 {
            Some(exits[choice])
        } else {
            Some(exits[n - 1])
        }
    }

    /// Whether a faction can choose a route at `node` (a real switch).
    pub fn is_switch(&self, faction: Faction, node: NodeId) -> (r: bool)
        requires
            node < self.nodes@.len(),
        ensures
            r == (self.nodes@[node as int].exits[spec_index(faction)]@.len() >= 2),
    {
        self.nodes[node].exits[faction.index()].len() >= 2
    }

    pub fn pos(&self, node: NodeId) -> (r: Pos)
        requires
            node < self.nodes@.len(),
        ensures
            r == self.nodes@[node as int].pos,
    {
        self.nodes[node].pos
    }
}

/// A coordinate small enough for exact squared distances.
pub open spec fn coord_ok(p: Pos) -> bool {
    -MAX_COORD <= p.x <= MAX_COORD && -MAX_COORD <= p.y <= MAX_COORD
}

/// Lane-node `(r, c)` has the ladder position and exits.
pub open spec fn node_ok(n: NodeData, rows: int, cols: int, r: int, c: int) -> bool {
    &&& n.pos == Pos { x: (2 * c) as i32, y: (2 * (r + 1)) as i32 }
    &&& n.exits[0]@ == ladder_exits(rows, cols, 0, r, c)
    &&& n.exits[1]@ == ladder_exits(rows, cols, 1, r, c)
}

/// Squared grid distance between two positions.
pub open spec fn spec_dist2(a: Pos, b: Pos) -> int {
    (a.x - b.x) * (a.x - b.x) + (a.y - b.y) * (a.y - b.y)
}

proof fn lemma_grid_size(rows: int, cols: int)
    requires
        1 <= rows,
        1 <= cols,
        rows * cols <= MAX_GRID_NODES,
    ensures
        rows <= rows * cols,
        cols <= rows * cols,
{
    assert(rows <= rows * cols) by (nonlinear_arith)
        requires
            1 <= rows,
            1 <= cols,
    ;
    assert(cols <= rows * cols) by (nonlinear_arith)
        requires
            1 <= rows,
            1 <= cols,
    ;
}

/// Lane-node ids of a grid are in range.
proof fn lemma_grid_index(rows: int, cols: int, r: int, c: int)
    requires
        1 <= cols,
        1 <= rows,
        0 <= r < rows,
        0 <= c < cols,
    ensures
        0 <= r * cols,
        r * cols + c < rows * cols,
        r * cols + cols <= rows * cols,
        grid_id(cols, r, c) == r * cols + c,
        (r + 1) * cols == r * cols + cols,
        r >= 1 ==> (r - 1) * cols == r * cols - cols,
{
    assert(0 <= r * cols) by (nonlinear_arith)
        requires
            0 <= r,
            1 <= cols,
    ;
    assert(r * cols + cols <= rows * cols) by (nonlinear_arith)
        requires
            r + 1 <= rows,
            1 <= cols,
    ;
    assert((r + 1) * cols == r * cols + cols) by (nonlinear_arith);
    assert((r - 1) * cols == r * cols - cols) by (nonlinear_arith);
}

/// Nodes of earlier rows come before row `r`.
proof fn lemma_grid_before(cols: int, rr: int, cc: int, r: int)
    requires
        1 <= cols,
        0 <= rr < r,
        0 <= cc < cols,
    ensures
        grid_id(cols, rr, cc) < r * cols,
        0 <= grid_id(cols, rr, cc),
{
    assert(rr * cols + cols <= r * cols) by (nonlinear_arith)
        requires
            rr + 1 <= r,
            1 <= cols,
    ;
    assert(0 <= rr * cols) by (nonlinear_arith)
        requires
            0 <= rr,
            1 <= cols,
    ;
}

/// Two lane-nodes with different coordinates have different ids.
proof fn lemma_grid_decompose(rows: int, cols: int, i: int) -> (rc: (int, int))
    requires
        1 <= cols,
        0 <= i < rows * cols,
    ensures
        0 <= rc.0 < rows,
        0 <= rc.1 < cols,
        grid_id(cols, rc.0, rc.1) == i,
{
    let r = i / cols;
    let c = i % cols;
    assert(i == r * cols + c && 0 <= c < cols && 0 <= r) by (nonlinear_arith)
        requires
            1 <= cols,
            0 <= i,
            r == i / cols,
            c == i % cols,
    ;
    assert(r < rows) by (nonlinear_arith)
        requires
            i == r * cols + c,
            0 <= c,
            1 <= cols,
            i < rows * cols,
    ;
    (r, c)
}

/// A ladder is well formed.
proof fn lemma_ladder_wf(a: Arena, cfg: BattleConfig)
    requires
        cfg.grid_fits(),
        a.is_ladder_of(cfg),
    ensures
        a.wf(),
{
    let cols = max1(cfg.cols);
    let rows = max1(cfg.rows);
    let n = a.nodes@.len();
    lemma_grid_size(rows, cols);
    assert forall|i: int, f: int, k: int|
        0 <= i < n && 0 <= f < 2 && 0 <= k < a.nodes@[i].exits[f]@.len()
            implies #[trigger] a.nodes@[i].exits[f]@[k] < n by {
        if i < rows * cols {
            let (r, c) = lemma_grid_decompose(rows, cols, i);
            assert(a.nodes@[grid_id(cols, r, c)].exits[f]@[k] < n) by {
                lemma_grid_index(rows, cols, r, c);
                if r + 1 < rows {
                    lemma_grid_index(rows, cols, r + 1, c);
                    lemma_grid_index(rows, cols, r + 1, (c + 1) % cols);
                }
                if r >= 1 {
                    lemma_grid_index(rows, cols, r - 1, c);
                    lemma_grid_index(rows, cols, r - 1, (c + 1) % cols);
                }
            }
        }
    }
    assert forall|i: int, f: int| 0 <= i < n && 0 <= f < 2 implies #[trigger] a.nodes@[i].exits[f]@.len() <= 2 by {
        if i < rows * cols {
            let (r, c) = lemma_grid_decompose(rows, cols, i);
            assert(a.nodes@[grid_id(cols, r, c)].exits[f]@.len() <= 2);
        }
    }
    assert forall|i: int| 0 <= i < n implies coord_ok(#[trigger] a.nodes@[i].pos) by {
        if i < rows * cols {
            let (r, c) = lemma_grid_decompose(rows, cols, i);
            assert(coord_ok(a.nodes@[grid_id(cols, r, c)].pos));
        }
    }
    assert forall|f: int, k: int|
        0 <= f < 2 && 0 <= k < a.spawns[f]@.len() implies #[trigger] a.spawns[f]@[k] < n by {
        lemma_grid_index(rows, cols, rows - 1, k);
    }
    assert(a.spawns[0]@.len() >= 1);
    assert(a.spawns[1]@.len() >= 1);
    assert forall|k: int| 0 <= k < a.towers@.len() implies #[trigger] a.towers@[k].node < n by {
        lemma_grid_index(rows, cols, rows - 1, 0);
    }
}

/// Two distinct exits, deduped to one when they coincide (e.g. a single lane).
fn dedup_two(x: NodeId, y: NodeId) -> (r: Vec<NodeId>)
    ensures
        r@ == dedup_seq(x, y),
{
    if x == y {
        vec![x]
    } else {
        vec![x, y]
    }
}

/// The coordinate differences of `a` and `b` fit an `i32`, and their squared
/// distance fits an `i64`.
pub open spec fn dist_ok(a: Pos, b: Pos) -> bool {
    &&& i32::MIN <= a.x - b.x <= i32::MAX
    &&& i32::MIN <= a.y - b.y <= i32::MAX
    &&& spec_dist2(a, b) <= i64::MAX
}

/// Positions of the engine's grids are close enough to measure.
pub proof fn lemma_coord_dist_ok(a: Pos, b: Pos)
    requires
        coord_ok(a),
        coord_ok(b),
    ensures
        dist_ok(a, b),
{
    let dx = a.x - b.x;
    let dy = a.y - b.y;
    assert(dx * dx + dy * dy <= i64::MAX) by (nonlinear_arith)
        requires
            -0x7FFF_FFFE <= dx <= 0x7FFF_FFFE,
            -0x7FFF_FFFE <= dy <= 0x7FFF_FFFE,
    ;
}

/// Squared grid distance between two positions — integer, for deterministic ranges.
pub fn dist2(a: Pos, b: Pos) -> (r: i64)
    requires
        dist_ok(a, b),
    ensures
        r == spec_dist2(a, b),
{
    let dx = (a.x - b.x) as i64;
    let dy = (a.y - b.y) as i64;
    assert(0 <= dx * dx <= 0x4000_0000_0000_0000 && 0 <= dy * dy <= 0x4000_0000_0000_0000) by (nonlinear_arith)
        requires
            -0x8000_0000 <= dx <= 0x7FFF_FFFF,
            -0x8000_0000 <= dy <= 0x7FFF_FFFF,
    ;
    dx * dx + dy * dy
}

} // verus!
