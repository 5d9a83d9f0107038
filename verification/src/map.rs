//! Deterministic map generation for the routing puzzle.
//!
//! A map is a tree of track segments rooted at a single node. Trains enter at
//! the root and flow outward. Internal nodes are either straight track (one
//! child) or switches (two children, one active at a time — the only thing the
//! player can change). Leaves are numbered stations or, occasionally, dead-ends.
//!
//! Geometry is a simple "tidy tree": depth maps to the x axis, and each leaf
//! occupies its own row on the y axis.
use vstd::prelude::*;

use crate::config::{ConfigView, GameConfig};
use crate::geometry::Pos;
use crate::rng::{spec_chance, Rng};

verus! {

/// Vertical spacing multiplier between adjacent leaf rows.
pub const ROW_SCALE: i32 = 2;

/// Deepest tree (in branch levels) the generator builds. A tree of height `h`
/// has `2^h` leaf rows; from height 30 on, the two lowest rows' coordinates
/// (`2 * row` each) no longer add up within `i32` when their parent switch is
/// centred between them, so 29 is the last height that lays out exactly.
pub const MAX_TREE_HEIGHT: u32 = 29;

/// Salt that separates the map's random stream from the train stream.
pub const MAP_SALT: u64 = 0x6D61705F73656564;

/// A node's role in the map.
#[derive(Clone, Copy, Debug, PartialEq, Eq, Structural)]
pub enum NodeKind {
    /// Internal track. With one child it is straight; with two it is a switch.
    Track,
    /// A numbered destination. Trains want the station whose label matches.
    Station { label: u32 },
    /// A trap. Any train that arrives here is lost.
    DeadEnd,
}

/// A single node in the map tree.
#[derive(Clone, Debug, PartialEq, Eq)]
pub struct Node {
    /// Grid position, for rendering.
    pub pos: Pos,
    /// Parent node index, or `None` for the root.
    pub parent: Option<usize>,
    /// Child node indices (0 = leaf, 1 = straight, 2 = switch).
    pub children: Vec<usize>,
    pub kind: NodeKind,
}

/// A node as a mathematical value.
pub struct NodeView {
    pub pos: Pos,
    pub parent: Option<usize>,
    pub children: Seq<usize>,
    pub kind: NodeKind,
}

impl View for Node {
    type V = NodeView;

    open spec fn view(&self) -> NodeView {
        NodeView { pos: self.pos, parent: self.parent, children: self.children@, kind: self.kind }
    }
}

/// The views of a list of nodes.
pub open spec fn views(v: Seq<Node>) -> Seq<NodeView> {
    Seq::new(v.len(), |i: int| v[i]@)
}

impl Node {
    /// A switch is an internal node with two children.
    pub fn is_switch(&self) -> (r: bool)
        ensures
            r == (self.kind == NodeKind::Track && self.children@.len() == 2),
    {
        match self.kind {
            NodeKind::Track => self.children.len() == 2,
            _ => false,
        }
    }

    /// True for stations and dead-ends (no children).
    pub fn is_terminal(&self) -> (r: bool)
        ensures
            r == (self.children@.len() == 0),
    {
        self.children.len() == 0
    }
}

/// A generated map: the node arena plus convenient indices.
#[derive(Clone, Debug, PartialEq, Eq)]
pub struct TrackMap {
    pub nodes: Vec<Node>,
    pub root: usize,
    /// Indices of every station node (dead-ends excluded).
    pub stations: Vec<usize>,
    /// All station labels, in station order.
    pub labels: Vec<u32>,
    pub width: i32,
    pub height: i32,
}

/// Most leaves a subtree of `depth` branch levels can have: `2^depth`.
pub open spec fn leaf_cap(depth: nat) -> nat
    decreases depth,
{
    if depth == 0 {
        1
    } else {
        2 * leaf_cap((depth - 1) as nat)
    }
}

/// The outcome of growing a subtree.
pub struct Grown {
    pub nodes: Seq<NodeView>,
    pub rng: Seq<u64>,
    pub next_row: int,
    pub id: int,
}

/// A fresh track node at column `col`.
pub open spec fn fresh(parent: Option<usize>, col: i32) -> NodeView {
    NodeView { pos: Pos { x: col, y: 0 }, parent, children: Seq::empty(), kind: NodeKind::Track }
}

/// Grow a subtree below `parent` at column `col` with `depth` branch levels
/// left, appending its nodes (the subtree root first, then its subtrees in
/// order). A leaf takes the next free row. Otherwise a chance roll decides
/// between a straight extension (one child, same depth) and a switch (two
/// children, one level less); an inner node sits on its child's row, or midway
/// between its two children. A branch reaching the last usable column ends as a
/// leaf, so every column fits with room for the map width.
pub open spec fn spec_grow(rng: Seq<u64>, nodes: Seq<NodeView>, next_row: int, ep: u32, parent: Option<usize>, col: i32, depth: u32) -> Grown
    decreases i32::MAX - col,
{
    let id = nodes.len() as int;
    let base = nodes.push(fresh(parent, col));
    if depth == 0 || col >= i32::MAX - 1 {
        Grown {
            nodes: base.update(id, NodeView { pos: Pos { x: col, y: (next_row * 2) as i32 }, ..fresh(parent, col) }),
            rng,
            next_row: next_row + 1,
            id,
        }
    } else {
        let roll = spec_chance(rng, ep);
        if roll.0 {
            let c = spec_grow(roll.1, base, next_row, ep, Some(id as usize), (col + 1) as i32, depth);
            Grown {
                nodes: c.nodes.update(id, NodeView {
                    pos: Pos { x: col, y: c.nodes[c.id].pos.y },
                    children: seq![c.id as usize],
                    ..fresh(parent, col)
                }),
                rng: c.rng,
                next_row: c.next_row,
                id,
            }
        } else {
            let a = spec_grow(roll.1, base, next_row, ep, Some(id as usize), (col + 1) as i32, (depth - 1) as u32);
            let b = spec_grow(a.rng, a.nodes, a.next_row, ep, Some(id as usize), (col + 1) as i32, (depth - 1) as u32);
            Grown {
                nodes: b.nodes.update(id, NodeView {
                    pos: Pos { x: col, y: ((b.nodes[a.id].pos.y + b.nodes[b.id].pos.y) / 2) as i32 },
                    children: seq![a.id as usize, b.id as usize],
                    ..fresh(parent, col)
                }),
                rng: b.rng,
                next_row: b.next_row,
                id,
            }
        }
    }
}

/// The nodes `lo..hi` form a well-linked subtree rooted at `lo`: every other
/// node's parent comes earlier in the segment and lists it as a child, every
/// child comes later in the segment and names its parent back, and nodes have
/// at most two distinct children.
pub open spec fn links_ok(nodes: Seq<NodeView>, lo: int, hi: int) -> bool {
    &&& 0 <= lo < hi <= nodes.len()
    &&& forall|j: int|
        lo < j < hi ==> {
            &&& (#[trigger] nodes[j]).parent is Some
            &&& lo <= nodes[j].parent->0 < j
            &&& nodes[nodes[j].parent->0 as int].children.contains(j as usize)
        }
    &&& forall|j: int, k: int|
        lo <= j < hi && 0 <= k < nodes[j].children.len() ==> {
            &&& j < #[trigger] nodes[j].children[k] < hi
            &&& nodes[nodes[j].children[k] as int].parent == Some(j as usize)
        }
    &&& forall|j: int|
        lo <= j < hi ==> {
            &&& (#[trigger] nodes[j]).children.len() <= 2
            &&& (nodes[j].children.len() == 2 ==> nodes[j].children[0] != nodes[j].children[1])
        }
}

/// A well-linked subtree whose nodes are all still plain track.
#[verifier::opaque]
pub open spec fn subtree_ok(nodes: Seq<NodeView>, lo: int, hi: int) -> bool {
    &&& links_ok(nodes, lo, hi)
    &&& forall|j: int| lo <= j < hi ==> (#[trigger] nodes[j]).kind == NodeKind::Track
}

/// Layout facts of the segment `lo..hi` grown from rows `r0..r1` at column
/// `col` and beyond: rows stay in range, leaves take increasing distinct rows,
/// and columns never go left of `col`.
#[verifier::opaque]
pub open spec fn layout_ok(nodes: Seq<NodeView>, lo: int, hi: int, r0: int, r1: int, col: int) -> bool {
    &&& forall|j: int| lo <= j < hi ==> 0 <= (#[trigger] nodes[j]).pos.y <= 2 * r1
    &&& forall|j: int| lo <= j < hi ==> col <= (#[trigger] nodes[j]).pos.x <= i32::MAX - 1
    &&& forall|j: int|
        lo <= j < hi && (#[trigger] nodes[j]).children.len() == 0 ==> 2 * r0 <= nodes[j].pos.y < 2 * r1 && nodes[j].pos.y % 2 == 0
    &&& forall|j: int, k: int|
        lo <= j < k < hi && (#[trigger] nodes[j]).children.len() == 0 && (#[trigger] nodes[k]).children.len() == 0
            ==> nodes[j].pos.y < nodes[k].pos.y
}

struct Builder {
    nodes: Vec<Node>,
    rng: Rng,
    extend_probability: u32,
    next_row: i32,
}

/// Leaf counts stay far below the row limit.
proof fn lemma_leaf_cap_bound(d: nat)
    requires
        d <= MAX_TREE_HEIGHT,
    ensures
        1 <= leaf_cap(d) <= 0x2000_0000,
    decreases d,
{
    if d > 0 {
        lemma_leaf_cap_bound((d - 1) as nat);
        lemma_leaf_cap_mono((d - 1) as nat, (MAX_TREE_HEIGHT - 1) as nat);
        assert(leaf_cap(0) == 1);
        assert(leaf_cap(1) == 2);
        assert(leaf_cap(2) == 4);
        assert(leaf_cap(3) == 8);
        assert(leaf_cap(4) == 16);
        assert(leaf_cap(5) == 32);
        assert(leaf_cap(6) == 64);
        assert(leaf_cap(7) == 128);
        assert(leaf_cap(8) == 256);
        assert(leaf_cap(9) == 512);
        assert(leaf_cap(10) == 1024);
        assert(leaf_cap(11) == 2048);
        assert(leaf_cap(12) == 4096);
        assert(leaf_cap(13) == 8192);
        assert(leaf_cap(14) == 16384);
        assert(leaf_cap(15) == 32768);
        assert(leaf_cap(16) == 65536);
        assert(leaf_cap(17) == 131072);
        assert(leaf_cap(18) == 262144);
        assert(leaf_cap(19) == 524288);
        assert(leaf_cap(20) == 1048576);
        assert(leaf_cap(21) == 2097152);
        assert(leaf_cap(22) == 4194304);
        assert(leaf_cap(23) == 8388608);
        assert(leaf_cap(24) == 16777216);
        assert(leaf_cap(25) == 33554432);
        assert(leaf_cap(26) == 67108864);
        assert(leaf_cap(27) == 134217728);
        assert(leaf_cap(28) == 268435456);
    }
}

proof fn lemma_leaf_cap_mono(a: nat, b: nat)
    requires
        a <= b,
    ensures
        leaf_cap(a) <= leaf_cap(b),
        leaf_cap(a) >= 1,
    decreases b,
{
    if b > a {
        lemma_leaf_cap_mono(a, (b - 1) as nat);
    } else if a > 0 {
        lemma_leaf_cap_mono((a - 1) as nat, (a - 1) as nat);
    }
}

impl Builder {
    /// Grow a subtree and return its node index. `depth_left` is the number of
    /// branch levels remaining (straight extensions don't consume it).
    fn grow(&mut self, parent: Option<usize>, col: i32, depth_left: u32) -> (id: usize)
        requires
            old(self).rng@.len() == 4,
            0 <= old(self).next_row,
            old(self).next_row + leaf_cap(depth_left as nat) <= 0x2000_0000,
            0 <= col <= i32::MAX - 1,
            parent matches Some(p) ==> p < old(self).nodes@.len(),
        ensures
            ({
                let g = spec_grow(old(self).rng@, views(old(self).nodes@), old(self).next_row as int, old(self).extend_probability, parent, col, depth_left);
                &&& views(final(self).nodes@) == g.nodes
                &&& final(self).rng@ == g.rng
                &&& final(self).next_row == g.next_row
                &&& id == g.id
            }),
            final(self).extend_probability == old(self).extend_probability,
            final(self).rng@.len() == 4,
            id == old(self).nodes@.len(),
            final(self).nodes@.len() > id,
            forall|j: int| 0 <= j < id ==> (#[trigger] final(self).nodes@[j])@ == old(self).nodes@[j]@,
            final(self).nodes@[id as int].parent == parent,
            subtree_ok(views(final(self).nodes@), id as int, final(self).nodes@.len() as int),
            old(self).next_row < final(self).next_row <= old(self).next_row + leaf_cap(depth_left as nat),
            layout_ok(views(final(self).nodes@), id as int, final(self).nodes@.len() as int, old(self).next_row as int, final(self).next_row as int, col as int),
        decreases i32::MAX - col,
    {
        let id = self.nodes.len();
        self.nodes.push(Node { pos: Pos::new(col, 0), parent, children: Vec::new(), kind: NodeKind::Track });
        let ghost base = views(self.nodes@);
        proof {
            reveal(subtree_ok);
            reveal(layout_ok);
            assert(base =~= views(old(self).nodes@).push(fresh(parent, col)));
            lemma_leaf_cap_mono(0, depth_left as nat);
        }

        if depth_left == 0 || col >= i32::MAX - 1 {
            // Leaf: claim the next row.
            let row = self.next_row;
            self.next_row = self.next_row + 1;
            self.nodes.set(id, Node { pos: Pos::new(col, row * ROW_SCALE), parent, children: Vec::new(), kind: NodeKind::Track });
            proof {
                assert(views(self.nodes@) =~= base.update(id as int, NodeView { pos: Pos { x: col, y: (row * 2) as i32 }, ..fresh(parent, col) }));
                assert forall|j: int| 0 <= j < id implies (#[trigger] self.nodes@[j])@ == old(self).nodes@[j]@ by {
                    assert(views(self.nodes@)[j] == views(old(self).nodes@)[j]);
                }
            }
            return id;
        }

        // Optionally lay a straight extension before branching (one child).
        let ghost rng0 = self.rng@;
        let extend = self.rng.chance(self.extend_probability);
        proof {
            crate::rng::lemma_below_bounds(rng0, 100);
        }
        if extend {
            let child = self.grow(Some(id), col + 1, depth_left);
            let y = self.nodes[child].pos.y;
            let ghost after = views(self.nodes@);
            let mut kids: Vec<usize> = Vec::new();
            kids.push(child);
            proof {
                assert(kids@ =~= seq![child]);
            }
            self.nodes.set(id, Node { pos: Pos::new(col, y), parent, children: kids, kind: NodeKind::Track });
            let hi = self.nodes.len();
            proof {
                let g = views(self.nodes@);
                assert(g =~= after.update(id as int, NodeView {
                    pos: Pos { x: col, y: after[child as int].pos.y },
                    children: seq![child],
                    ..fresh(parent, col)
                }));
                assert forall|j: int| 0 <= j < id implies (#[trigger] self.nodes@[j])@ == old(self).nodes@[j]@ by {
                    assert(g[j] == after[j]);
                    assert(after[j] == base[j]);
                }
                lemma_extend_ok(after, g, id as int, child as int, hi as int, parent, col,
                    old(self).next_row as int, self.next_row as int);
            }
            return id;
        }

        // Branch into two children (a switch).
        let a = self.grow(Some(id), col + 1, depth_left - 1);
        let ghost mid = views(self.nodes@);
        let ghost mid_row = self.next_row;
        proof {
            assert(leaf_cap(depth_left as nat) == 2 * leaf_cap((depth_left - 1) as nat));
        }
        let b = self.grow(Some(id), col + 1, depth_left - 1);
        let ya = self.nodes[a].pos.y;
        let yb = self.nodes[b].pos.y;
        proof {
            let af = views(self.nodes@);
            assert(af[a as int] == mid[a as int]);
            assert(0 <= mid[a as int].pos.y <= 2 * mid_row);
            assert(0 <= af[b as int].pos.y);
            assert(ya >= 0 && yb >= 0);
        }
        let ghost after = views(self.nodes@);
        let mut kids: Vec<usize> = Vec::new();
        kids.push(a);
        kids.push(b);
        proof {
            assert(kids@ =~= seq![a, b]);
        }
        self.nodes.set(id, Node { pos: Pos::new(col, (ya + yb) / 2), parent, children: kids, kind: NodeKind::Track });
        let hi = self.nodes.len();
        proof {
            let g = views(self.nodes@);
            assert(g =~= after.update(id as int, NodeView {
                pos: Pos { x: col, y: ((after[a as int].pos.y + after[b as int].pos.y) / 2) as i32 },
                children: seq![a, b],
                ..fresh(parent, col)
            }));
            assert forall|j: int| 0 <= j < id implies (#[trigger] self.nodes@[j])@ == old(self).nodes@[j]@ by {
                assert(g[j] == after[j]);
                assert(after[j] == mid[j]);
                assert(mid[j] == base[j]);
            }
            lemma_branch_ok(mid, after, g, id as int, a as int, b as int, hi as int, parent, col,
                old(self).next_row as int, mid_row as int, self.next_row as int);
        }
        id
    }
}

/// Linking a node to its single (extension) subtree keeps the segment well formed.
proof fn lemma_extend_ok(after: Seq<NodeView>, g: Seq<NodeView>, id: int, child: int, hi: int, parent: Option<usize>, col: i32, r0: int, r1: int)
    requires
        child == id + 1,
        hi == after.len(),
        subtree_ok(after, child, hi),
        layout_ok(after, child, hi, r0, r1, col + 1),
        after[child].parent == Some(id as usize),
        0 <= id,
        0 <= col <= i32::MAX - 1,
        g == after.update(id, NodeView { pos: Pos { x: col, y: after[child].pos.y }, children: seq![child as usize], ..fresh(parent, col) }),
        hi <= usize::MAX,
    ensures
        subtree_ok(g, id, hi),
        layout_ok(g, id, hi, r0, r1, col as int),
{
    reveal(subtree_ok);
    reveal(layout_ok);
    assert forall|j: int| id < j < hi implies {
        &&& (#[trigger] g[j]).parent is Some
        &&& id <= g[j].parent->0 < j
        &&& g[g[j].parent->0 as int].children.contains(j as usize)
    } by {
        if j > child {
            assert(g[j] == after[j]);
            let p = after[j].parent->0 as int;
            assert(g[p] == after[p]);
        } else {
            assert(g[id].children[0] == child as usize);
        }
    }
    assert forall|j: int, k: int| id <= j < hi && 0 <= k < g[j].children.len() implies {
        &&& j < #[trigger] g[j].children[k] < hi
        &&& g[g[j].children[k] as int].parent == Some(j as usize)
    } by {
        if j > id {
            assert(g[j] == after[j]);
            assert(g[after[j].children[k] as int] == after[after[j].children[k] as int]);
        } else {
            assert(g[child] == after[child]);
        }
    }
    assert forall|j: int| id <= j < hi implies 0 <= (#[trigger] g[j]).pos.y <= 2 * r1 by {
        if j > id {
            assert(g[j] == after[j]);
        }
    }
    assert forall|j: int| id <= j < hi implies col <= (#[trigger] g[j]).pos.x <= i32::MAX - 1 by {
        if j > id {
            assert(g[j] == after[j]);
        }
    }
    assert forall|j: int| id <= j < hi && (#[trigger] g[j]).children.len() == 0 implies 2 * r0 <= g[j].pos.y < 2 * r1 && g[j].pos.y % 2 == 0 by {
        assert(j != id);
        assert(g[j] == after[j]);
    }
    assert forall|j: int, k: int|
        id <= j < k < hi && (#[trigger] g[j]).children.len() == 0 && (#[trigger] g[k]).children.len() == 0
            implies g[j].pos.y < g[k].pos.y by {
        assert(j != id);
        assert(g[j] == after[j]);
        assert(g[k] == after[k]);
    }
}

/// Linking a node to its two subtrees keeps the segment well formed.
proof fn lemma_branch_ok(
    mid: Seq<NodeView>,
    after: Seq<NodeView>,
    g: Seq<NodeView>,
    id: int,
    a: int,
    b: int,
    hi: int,
    parent: Option<usize>,
    col: i32,
    r0: int,
    rm: int,
    r1: int,
)
    requires
        0 <= id,
        0 <= col <= i32::MAX - 1,
        a == id + 1,
        b == mid.len(),
        a < b < hi,
        hi == after.len(),
        r0 < rm < r1,
        subtree_ok(mid, a, b),
        layout_ok(mid, a, b, r0, rm, col + 1),
        mid[a].parent == Some(id as usize),
        forall|j: int| 0 <= j < b ==> #[trigger] after[j] == mid[j],
        subtree_ok(after, b, hi),
        layout_ok(after, b, hi, rm, r1, col + 1),
        after[b].parent == Some(id as usize),
        g == after.update(id, NodeView {
            pos: Pos { x: col, y: ((after[a].pos.y + after[b].pos.y) / 2) as i32 },
            children: seq![a as usize, b as usize],
            ..fresh(parent, col)
        }),
        hi <= usize::MAX,
    ensures
        subtree_ok(g, id, hi),
        layout_ok(g, id, hi, r0, r1, col as int),
{
    reveal(subtree_ok);
    reveal(layout_ok);
    assert forall|j: int| id < j < hi implies {
        &&& (#[trigger] g[j]).parent is Some
        &&& id <= g[j].parent->0 < j
        &&& g[g[j].parent->0 as int].children.contains(j as usize)
    } by {
        if j == a {
            assert(g[id].children[0] == a as usize);
        } else if j == b {
            assert(g[id].children[1] == b as usize);
        } else if j < b {
            assert(g[j] == mid[j]);
            assert(after[j] == mid[j]);
            let p = mid[j].parent->0 as int;
            assert(g[p] == after[p]);
            assert(after[p] == mid[p]);
        } else {
            assert(g[j] == after[j]);
            let p = after[j].parent->0 as int;
            assert(g[p] == after[p]);
        }
    }
    assert forall|j: int, k: int| id <= j < hi && 0 <= k < g[j].children.len() implies {
        &&& j < #[trigger] g[j].children[k] < hi
        &&& g[g[j].children[k] as int].parent == Some(j as usize)
    } by {
        if j > id && j < b {
            assert(g[j] == mid[j]);
            assert(after[j] == mid[j]);
            let c = mid[j].children[k] as int;
            assert(g[c] == after[c]);
            assert(after[c] == mid[c]);
        } else if j >= b {
            assert(g[j] == after[j]);
            let c = after[j].children[k] as int;
            assert(g[c] == after[c]);
        } else {
            assert(g[a] == after[a]);
            assert(after[a] == mid[a]);
            assert(g[b] == after[b]);
        }
    }
    assert forall|j: int| id <= j < hi implies 0 <= (#[trigger] g[j]).pos.y <= 2 * r1 by {
        if id < j < b {
            assert(g[j] == mid[j]);
            assert(after[j] == mid[j]);
        } else if j >= b {
            assert(g[j] == after[j]);
        } else {
            assert(after[a] == mid[a]);
        }
    }
    assert forall|j: int| id <= j < hi implies col <= (#[trigger] g[j]).pos.x <= i32::MAX - 1 by {
        if id < j < b {
            assert(g[j] == mid[j]);
            assert(after[j] == mid[j]);
        } else if j >= b {
            assert(g[j] == after[j]);
        }
    }
    assert forall|j: int| id <= j < hi && (#[trigger] g[j]).children.len() == 0 implies 2 * r0 <= g[j].pos.y < 2 * r1 && g[j].pos.y % 2 == 0 by {
        if id < j < b {
            assert(g[j] == mid[j]);
            assert(after[j] == mid[j]);
        } else if j >= b {
            assert(g[j] == after[j]);
        }
    }
    assert forall|j: int, k: int|
        id <= j < k < hi && (#[trigger] g[j]).children.len() == 0 && (#[trigger] g[k]).children.len() == 0
            implies g[j].pos.y < g[k].pos.y by {
        assert(j != id);
        if k < b {
            assert(g[j] == mid[j]);
            assert(after[j] == mid[j]);
            assert(g[k] == mid[k]);
            assert(after[k] == mid[k]);
        } else if j >= b {
            assert(g[j] == after[j]);
            assert(g[k] == after[k]);
        } else {
            assert(g[j] == mid[j]);
            assert(after[j] == mid[j]);
            assert(g[k] == after[k]);
        }
    }
}

// ---------------------------------------------------------------------------
// Stations, dead-ends and the finished map
// ---------------------------------------------------------------------------

/// The leaves among the first `k` nodes, in index order.
pub open spec fn spec_leaves(nodes: Seq<NodeView>, k: int) -> Seq<usize>
    decreases k,
{
    if k <= 0 {
        Seq::empty()
    } else {
        let p = spec_leaves(nodes, k - 1);
        if nodes[k - 1].children.len() == 0 {
            p.push((k - 1) as usize)
        } else {
            p
        }
    }
}

/// Position order: by column, then by row.
pub open spec fn pos_lt(p: Pos, q: Pos) -> bool {
    p.x < q.x || (p.x == q.x && p.y < q.y)
}

/// Where node `v` goes in the position-sorted list `s`: after every entry that
/// does not come after it.
pub open spec fn insert_pos(nodes: Seq<NodeView>, s: Seq<usize>, v: usize) -> int
    decreases s.len(),
{
    if s.len() == 0 {
        0
    } else if pos_lt(nodes[v as int].pos, nodes[s.last() as int].pos) {
        insert_pos(nodes, s.drop_last(), v)
    } else {
        s.len() as int
    }
}

/// The first `k` entries of `s`, stably sorted by position.
pub open spec fn sort_upto(nodes: Seq<NodeView>, s: Seq<usize>, k: int) -> Seq<usize>
    decreases k,
{
    if k <= 0 {
        Seq::empty()
    } else {
        let p = sort_upto(nodes, s, k - 1);
        p.insert(insert_pos(nodes, p, s[k - 1]), s[k - 1])
    }
}

/// The state of the leaf-labelling pass.
pub struct Labelled {
    pub nodes: Seq<NodeView>,
    pub rng: Seq<u64>,
    pub dead_ends: int,
    pub stations: Seq<usize>,
    pub labels: Seq<u32>,
}

/// The first `k` leaves (in position order) turned into stations or dead-ends.
/// A leaf becomes a dead-end when the cap allows another one, a chance roll
/// says so (rolled only while the cap allows), and it is not the last leaf
/// that could still become a station; otherwise it becomes the next numbered
/// station.
pub open spec fn spec_label(nodes: Seq<NodeView>, rng: Seq<u64>, order: Seq<usize>, max_dead: u32, p: u32, k: int) -> Labelled
    decreases k,
{
    if k <= 0 {
        Labelled { nodes, rng, dead_ends: 0, stations: Seq::empty(), labels: Seq::empty() }
    } else {
        let prev = spec_label(nodes, rng, order, max_dead, p, k - 1);
        let leaf = order[k - 1] as int;
        let room = prev.dead_ends < max_dead;
        let roll = if room { spec_chance(prev.rng, p) } else { (false, prev.rng) };
        let dead = room && roll.0 && prev.stations.len() + 1 < order.len();
        if dead {
            Labelled {
                nodes: prev.nodes.update(leaf, NodeView { kind: NodeKind::DeadEnd, ..prev.nodes[leaf] }),
                rng: roll.1,
                dead_ends: prev.dead_ends + 1,
                ..prev
            }
        } else {
            let label = (prev.stations.len() + 1) as u32;
            Labelled {
                nodes: prev.nodes.update(leaf, NodeView { kind: NodeKind::Station { label }, ..prev.nodes[leaf] }),
                rng: roll.1,
                stations: prev.stations.push(leaf as usize),
                labels: prev.labels.push(label),
                ..prev
            }
        }
    }
}

/// The largest column among the first `k` nodes (0 for none).
pub open spec fn max_x(nodes: Seq<NodeView>, k: int) -> int
    decreases k,
{
    if k <= 0 {
        0
    } else if nodes[k - 1].pos.x > max_x(nodes, k - 1) {
        nodes[k - 1].pos.x as int
    } else {
        max_x(nodes, k - 1)
    }
}

/// The largest row coordinate among the first `k` nodes (0 for none).
pub open spec fn max_y(nodes: Seq<NodeView>, k: int) -> int
    decreases k,
{
    if k <= 0 {
        0
    } else if nodes[k - 1].pos.y > max_y(nodes, k - 1) {
        nodes[k - 1].pos.y as int
    } else {
        max_y(nodes, k - 1)
    }
}

/// A map as mathematical values.
pub struct MapView {
    pub nodes: Seq<NodeView>,
    pub root: int,
    pub stations: Seq<usize>,
    pub labels: Seq<u32>,
    pub width: int,
    pub height: int,
}

impl View for TrackMap {
    type V = MapView;

    open spec fn view(&self) -> MapView {
        MapView {
            nodes: views(self.nodes@),
            root: self.root as int,
            stations: self.stations@,
            labels: self.labels@,
            width: self.width as int,
            height: self.height as int,
        }
    }
}

/// The map a config generates: grow the tree from the salted seed, sort its
/// leaves by position, label them, and measure the bounds.
#[verifier::opaque]
pub open spec fn spec_generate(config: ConfigView) -> MapView {
    let g = spec_grow(
        crate::rng::spec_seed_state(config.seed ^ MAP_SALT),
        Seq::empty(),
        0,
        config.extend_probability,
        None,
        0,
        config.tree_height,
    );
    let leaves = spec_leaves(g.nodes, g.nodes.len() as int);
    let order = sort_upto(g.nodes, leaves, leaves.len() as int);
    let l = spec_label(g.nodes, g.rng, order, config.max_dead_ends, config.dead_end_probability, order.len() as int);
    MapView {
        nodes: l.nodes,
        root: g.id,
        stations: l.stations,
        labels: l.labels,
        width: max_x(l.nodes, l.nodes.len() as int) + 1,
        height: max_y(l.nodes, l.nodes.len() as int) + 1,
    }
}

/// The leaves of a node list, in index order.
fn collect_leaves(nodes: &Vec<Node>) -> (r: Vec<usize>)
    ensures
        r@ == spec_leaves(views(nodes@), nodes@.len() as int),
        forall|i: int| 0 <= i < r@.len() ==> #[trigger] r@[i] < nodes@.len() && nodes@[r@[i] as int].children@.len() == 0,
{
    let mut r: Vec<usize> = Vec::new();
    let mut i: usize = 0;
    while i < nodes.len()
        invariant
            i <= nodes@.len(),
            r@ == spec_leaves(views(nodes@), i as int),
            forall|j: int| 0 <= j < r@.len() ==> #[trigger] r@[j] < i && nodes@[r@[j] as int].children@.len() == 0,
        decreases nodes@.len() - i,
    {
        proof {
            assert(views(nodes@)[i as int] == nodes@[i as int]@);
        }
        if nodes[i].children.len() == 0 {
            r.push(i);
        }
        i = i + 1;
    }
    r
}

/// Whether node `a` comes before node `b` in position order.
fn pos_before(nodes: &Vec<Node>, a: usize, b: usize) -> (r: bool)
    requires
        a < nodes@.len(),
        b < nodes@.len(),
    ensures
        r == pos_lt(nodes@[a as int].pos, nodes@[b as int].pos),
{
    let pa = nodes[a].pos;
    let pb = nodes[b].pos;
    pa.x < pb.x || (pa.x == pb.x && pa.y < pb.y)
}

/// Stable insertion sort of node indices by position.
fn sort_by_pos(nodes: &Vec<Node>, s: &Vec<usize>) -> (r: Vec<usize>)
    requires
        forall|i: int| 0 <= i < s@.len() ==> #[trigger] s@[i] < nodes@.len() && nodes@[s@[i] as int].children@.len() == 0,
    ensures
        r@ == sort_upto(views(nodes@), s@, s@.len() as int),
        r@.len() == s@.len(),
        forall|i: int| 0 <= i < r@.len() ==> #[trigger] r@[i] < nodes@.len() && nodes@[r@[i] as int].children@.len() == 0,
{
    let ghost vn = views(nodes@);
    let mut r: Vec<usize> = Vec::new();
    let mut k: usize = 0;
    while k < s.len()
        invariant
            vn == views(nodes@),
            forall|i: int| 0 <= i < s@.len() ==> #[trigger] s@[i] < nodes@.len() && nodes@[s@[i] as int].children@.len() == 0,
            k <= s@.len(),
            r@ == sort_upto(vn, s@, k as int),
            r@.len() == k,
            forall|i: int| 0 <= i < r@.len() ==> #[trigger] r@[i] < nodes@.len() && nodes@[r@[i] as int].children@.len() == 0,
        decreases s@.len() - k,
    {
        let v = s[k];
        let mut i = r.len();
        proof {
            assert(r@.subrange(0, i as int) =~= r@);
        }
        while i > 0 && pos_before(nodes, v, r[i - 1])
            invariant
                vn == views(nodes@),
                v < nodes@.len(),
                i <= r@.len(),
                forall|j: int| 0 <= j < r@.len() ==> #[trigger] r@[j] < nodes@.len(),
                insert_pos(vn, r@, v) == insert_pos(vn, r@.subrange(0, i as int), v),
            decreases i,
        {
            proof {
                let sub = r@.subrange(0, i as int);
                assert(sub.drop_last() =~= r@.subrange(0, i - 1));
                assert(vn[v as int] == nodes@[v as int]@);
                assert(vn[sub.last() as int] == nodes@[sub.last() as int]@);
            }
            i = i - 1;
        }
        proof {
            let sub = r@.subrange(0, i as int);
            if i > 0 {
                assert(vn[v as int] == nodes@[v as int]@);
                assert(vn[sub.last() as int] == nodes@[sub.last() as int]@);
            }
            assert(insert_pos(vn, sub, v) == i);
        }
        let ghost before = r@;
        r.insert(i, v);
        k = k + 1;
        proof {
            assert(r@ == before.insert(i as int, v));
            assert forall|j: int| 0 <= j < r@.len() implies #[trigger] r@[j] < nodes@.len() && nodes@[r@[j] as int].children@.len() == 0 by {
                if j < i {
                    assert(r@[j] == before[j]);
                } else if j > i {
                    assert(r@[j] == before[j - 1]);
                }
            }
        }
    }
    r
}

/// Inner nodes are plain track; leaves are stations or dead-ends.
pub open spec fn kinds_ok(nodes: Seq<NodeView>) -> bool {
    forall|i: int| 0 <= i < nodes.len() ==> ((#[trigger] nodes[i]).children.len() == 0 <==> nodes[i].kind !is Track)
}

/// Station `i` of the list carries label `i + 1`, the labels are `1..=n` in
/// order, and every station node is listed.
pub open spec fn stations_ok(m: MapView) -> bool {
    &&& m.labels == Seq::new(m.stations.len(), |i: int| (i + 1) as u32)
    &&& forall|i: int|
        0 <= i < m.stations.len() ==> #[trigger] m.stations[i] < m.nodes.len()
            && m.nodes[m.stations[i] as int].kind == (NodeKind::Station { label: (i + 1) as u32 })
    &&& forall|j: int| 0 <= j < m.nodes.len() && (#[trigger] m.nodes[j]).kind is Station ==> m.stations.contains(j as usize)
}

/// The shape of a finished map: a tree rooted at node 0, the only node without
/// a parent, whose inner nodes are track and whose leaves are stations or
/// dead-ends.
pub open spec fn tree_ok(m: MapView) -> bool {
    &&& m.root == 0
    &&& m.nodes.len() >= 1
    &&& m.nodes[0].parent is None
    &&& links_ok(m.nodes, 0, m.nodes.len() as int)
    &&& kinds_ok(m.nodes)
}

/// A finished map: a tree rooted at node 0 whose leaves are stations or
/// dead-ends, with at most `max_dead` dead-ends, and every leaf that is not a
/// dead-end a listed station.
pub open spec fn map_ok(m: MapView, max_dead: u32) -> bool {
    &&& tree_ok(m)
    &&& stations_ok(m)
    &&& count_dead(m.nodes, m.nodes.len() as int) <= max_dead
    &&& m.stations.len() + count_dead(m.nodes, m.nodes.len() as int) == spec_leaves(m.nodes, m.nodes.len() as int).len()
}

/// Largest column and row coordinate over all nodes.
fn bounds(nodes: &Vec<Node>) -> (r: (i32, i32))
    requires
        forall|j: int| 0 <= j < nodes@.len() ==> (#[trigger] nodes@[j]).pos.x <= i32::MAX - 1 && nodes@[j].pos.y <= i32::MAX - 1,
    ensures
        r.0 == max_x(views(nodes@), nodes@.len() as int),
        r.1 == max_y(views(nodes@), nodes@.len() as int),
        r.0 <= i32::MAX - 1,
        r.1 <= i32::MAX - 1,
{
    let mut mx: i32 = 0;
    let mut my: i32 = 0;
    let mut i: usize = 0;
    while i < nodes.len()
        invariant
            i <= nodes@.len(),
            forall|j: int| 0 <= j < nodes@.len() ==> (#[trigger] nodes@[j]).pos.x <= i32::MAX - 1 && nodes@[j].pos.y <= i32::MAX - 1,
            mx == max_x(views(nodes@), i as int),
            my == max_y(views(nodes@), i as int),
            mx <= i32::MAX - 1,
            my <= i32::MAX - 1,
        decreases nodes@.len() - i,
    {
        proof {
            assert(views(nodes@)[i as int] == nodes@[i as int]@);
        }
        let q = nodes[i].pos;
        if q.x > mx {
            mx = q.x;
        }
        if q.y > my {
            my = q.y;
        }
        i = i + 1;
    }
    (mx, my)
}

impl TrackMap {
    /// Generate the map for a config. Pure function of the config.
    pub fn generate(config: &GameConfig) -> (r: TrackMap)
        requires
            config.tree_height <= MAX_TREE_HEIGHT,
        ensures
            r@ == spec_generate(config@),
            map_ok(r@, config.max_dead_ends),
    {
        let ghost g = spec_grow(
            crate::rng::spec_seed_state(config.seed ^ MAP_SALT),
            Seq::empty(),
            0,
            config.extend_probability,
            None,
            0,
            config.tree_height,
        );
        // Salt the seed so the map stream is independent of the train stream.
        let rng = Rng::new(config.seed ^ MAP_SALT);
        let mut b = Builder { nodes: Vec::new(), rng, extend_probability: config.extend_probability, next_row: 0 };
        proof {
            lemma_leaf_cap_bound(config.tree_height as nat);
            assert(views(b.nodes@) =~= Seq::<NodeView>::empty());
        }
        let root = b.grow(None, 0, config.tree_height);
        let mut nodes = b.nodes;
        let mut rng = b.rng;
        let ghost rows = b.next_row;

        // Turn leaves into stations / dead-ends, in a stable position order.
        let leaves = collect_leaves(&nodes);
        let order = sort_by_pos(&nodes, &leaves);
        let nn = nodes.len();
        proof {
            let vn = views(nodes@);
            assert(vn.len() == nn);
            assert forall|i: int| 0 <= i < g.nodes.len() implies (#[trigger] g.nodes[i]).kind == NodeKind::Track by {
                reveal(subtree_ok);
            }
            lemma_order_facts(vn, leaves@, order@, root as int, 0, rows as int, 0);
        }
        let ghost grown = nodes@;
        let (stations, labels) = label_leaves(&mut nodes, &mut rng, &order, config.max_dead_ends, config.dead_end_probability, Ghost(g.nodes), Ghost(g.rng));
        proof {
            assert forall|j: int| 0 <= j < nodes@.len() implies (#[trigger] nodes@[j]).pos.x <= i32::MAX - 1 && nodes@[j].pos.y <= i32::MAX - 1 by {
                assert(g.nodes[j] == views(grown)[j]);
                assert(nodes@[j].pos == g.nodes[j].pos);
            }
        }
        let (mx, my) = bounds(&nodes);
        let r = TrackMap { nodes, root, stations, labels, width: mx + 1, height: my + 1 };
        proof {
            reveal(spec_generate);
            lemma_map_ok(g.nodes, r.nodes@, order@, leaves@, r@, config.max_dead_ends);
        }
        r
    }
}

/// The node a train at `n` moves to next: nothing from a terminal, the only
/// child of straight track, and the child picked by `active` at a switch.
pub open spec fn spec_next(n: NodeView, active: bool) -> Option<usize> {
    if n.children.len() == 0 {
        None
    } else if n.children.len() == 1 {
        Some(n.children[0])
    } else {
        Some(n.children[if active { 1int } else { 0int }])
    }
}

impl TrackMap {
    /// The active next node from `node`, given the current switch state.
    pub fn next(&self, node: usize, active: bool) -> (r: Option<usize>)
        requires
            node < self.nodes@.len(),
        ensures
            r == spec_next(self@.nodes[node as int], active),
    {
        let n = &self.nodes[node];
        proof {
            assert(self@.nodes[node as int] == n@);
        }
        if n.children.len() == 0 {
            None
        } else if n.children.len() == 1 {
            Some(n.children[0])
        } else if active {
            Some(n.children[1])
        } else {
            Some(n.children[0])
        }
    }
}

/// The chain of nodes from the root down to node `j`, following parents back.
pub open spec fn path_to(nodes: Seq<NodeView>, j: int) -> Seq<int>
    decreases j,
{
    if j <= 0 {
        seq![j]
    } else {
        match nodes[j].parent {
            Some(q) => if (q as int) < j { path_to(nodes, q as int).push(j) } else { seq![j] },
            None => seq![j],
        }
    }
}

/// `p` walks from `from` to `to` along child links.
pub open spec fn is_walk(nodes: Seq<NodeView>, p: Seq<int>, from: int, to: int) -> bool {
    &&& p.len() >= 1
    &&& p[0] == from
    &&& p.last() == to
    &&& forall|i: int| 0 <= i < p.len() - 1 ==> nodes[#[trigger] p[i]].children.contains(p[i + 1] as usize)
}

/// In a well-shaped map the root is the only node without a parent.
pub proof fn lemma_single_root(m: MapView, j: int)
    requires
        tree_ok(m),
        0 <= j < m.nodes.len(),
    ensures
        m.nodes[j].parent is None <==> j == m.root,
{
}

/// Every node of a well-shaped map is reached from the root by following
/// child links.
pub proof fn lemma_reachable_from_root(m: MapView, j: int)
    requires
        tree_ok(m),
        0 <= j < m.nodes.len(),
    ensures
        is_walk(m.nodes, path_to(m.nodes, j), m.root, j),
    decreases j,
{
    if j > 0 {
        let q = m.nodes[j].parent->0 as int;
        lemma_reachable_from_root(m, q);
        let pq = path_to(m.nodes, q);
        let pj = path_to(m.nodes, j);
        assert(pj == pq.push(j));
        assert forall|i: int| 0 <= i < pj.len() - 1 implies m.nodes[#[trigger] pj[i]].children.contains(pj[i + 1] as usize) by {
            if i < pq.len() - 1 {
                assert(pj[i] == pq[i]);
                assert(pj[i + 1] == pq[i + 1]);
            } else {
                assert(pj[i] == q);
            }
        }
    }
}

/// A finished map with more leaves than the dead-end cap has a station.
pub proof fn lemma_has_station(m: MapView, max_dead: u32)
    requires
        map_ok(m, max_dead),
        spec_leaves(m.nodes, m.nodes.len() as int).len() > max_dead,
    ensures
        m.stations.len() >= 1,
        m.labels[0] == 1,
{
}

/// Moving on from a node always follows one of its child links, and stops
/// exactly at terminals.
pub proof fn lemma_next_is_child(m: MapView, node: int, active: bool)
    requires
        tree_ok(m),
        0 <= node < m.nodes.len(),
    ensures
        spec_next(m.nodes[node], active) is None <==> m.nodes[node].kind !is Track,
        spec_next(m.nodes[node], active) is None <==> m.nodes[node].children.len() == 0,
        spec_next(m.nodes[node], active) matches Some(c) ==> m.nodes[node].children.contains(c) && node < c < m.nodes.len()
            && m.nodes[c as int].parent == Some(node as usize),
{
    let n = m.nodes[node];
    if n.children.len() == 1 {
        assert(n.children[0] == n.children[0]);
        assert(n.children.contains(n.children[0]));
    } else if n.children.len() >= 2 {
        let k: int = if active { 1 } else { 0 };
        assert(n.children.contains(n.children[k]));
    }
}

/// Facts about the leaf order handed to the labelling pass: it lists exactly
/// the leaves, each once, and there are no more of them than rows used.
proof fn lemma_order_facts(nodes: Seq<NodeView>, leaves: Seq<usize>, order: Seq<usize>, lo: int, r0: int, rows: int, col: int)
    requires
        lo == 0,
        r0 == 0,
        col == 0,
        layout_ok(nodes, lo, nodes.len() as int, r0, rows, col),
        leaves == spec_leaves(nodes, nodes.len() as int),
        order == sort_upto(nodes, leaves, leaves.len() as int),
        nodes.len() >= 1,
        nodes.len() <= usize::MAX,
        rows <= 0x2000_0000,
    ensures
        order.len() == leaves.len(),
        order.len() <= 0x2000_0000,
        order.no_duplicates(),
        forall|i: int| 0 <= i < nodes.len() && (#[trigger] nodes[i]).children.len() == 0 ==> order.contains(i as usize),
        forall|i: int| 0 <= i < order.len() ==> #[trigger] order[i] < nodes.len() && nodes[order[i] as int].children.len() == 0,
        forall|i: int| 0 <= i < nodes.len() ==> (#[trigger] nodes[i]).pos.x <= i32::MAX - 1 && 0 <= nodes[i].pos.y <= 2 * rows,
{
    reveal(layout_ok);
    lemma_leaves_sorted(nodes, nodes.len() as int);
    lemma_leaf_count(nodes, leaves, rows);
    lemma_leaves_complete(nodes, nodes.len() as int);
    lemma_sort_perm(nodes, leaves, leaves.len() as int);
    assert(leaves.subrange(0, leaves.len() as int) =~= leaves);
    assert forall|i: int| 0 <= i < nodes.len() && (#[trigger] nodes[i]).children.len() == 0 implies order.contains(i as usize) by {
        let t = choose|t: int| 0 <= t < leaves.len() && leaves[t] == i as usize;
        assert(order.contains(leaves[t]));
    }
    assert forall|i: int| 0 <= i < order.len() implies #[trigger] order[i] < nodes.len() && nodes[order[i] as int].children.len() == 0 by {
        assert(order.contains(order[i]));
        let t = choose|t: int| 0 <= t < leaves.len() && leaves[t] == order[i];
        assert(leaves[t] < nodes.len());
    }
}

/// Every leaf among the first `k` nodes is in the leaf list.
proof fn lemma_leaves_complete(nodes: Seq<NodeView>, k: int)
    requires
        0 <= k <= nodes.len(),
        nodes.len() <= usize::MAX,
    ensures
        forall|i: int| 0 <= i < k && (#[trigger] nodes[i]).children.len() == 0 ==> exists|t: int| 0 <= t < spec_leaves(nodes, k).len() && spec_leaves(nodes, k)[t] == i as usize,
    decreases k,
{
    if k > 0 {
        lemma_leaves_complete(nodes, k - 1);
        let p = spec_leaves(nodes, k - 1);
        let l = spec_leaves(nodes, k);
        assert forall|i: int| 0 <= i < k && (#[trigger] nodes[i]).children.len() == 0 implies exists|t: int| 0 <= t < l.len() && l[t] == i as usize by {
            if i == k - 1 {
                assert(l[l.len() - 1] == i as usize);
            } else {
                let t = choose|t: int| 0 <= t < p.len() && p[t] == i as usize;
                assert(l[t] == p[t]);
            }
        }
    }
}

/// The leaf list depends only on the children.
proof fn lemma_leaves_same(a: Seq<NodeView>, b: Seq<NodeView>, k: int)
    requires
        0 <= k <= a.len(),
        a.len() == b.len(),
        forall|i: int| 0 <= i < a.len() ==> (#[trigger] a[i]).children == b[i].children,
    ensures
        spec_leaves(a, k) == spec_leaves(b, k),
    decreases k,
{
    if k > 0 {
        lemma_leaves_same(a, b, k - 1);
        assert(a[k - 1].children == b[k - 1].children);
    }
}

/// Links depend only on parents and children.
proof fn lemma_links_same(a: Seq<NodeView>, b: Seq<NodeView>, lo: int, hi: int)
    requires
        links_ok(a, lo, hi),
        a.len() == b.len(),
        forall|i: int| 0 <= i < a.len() ==> (#[trigger] a[i]).children == b[i].children && a[i].parent == b[i].parent,
    ensures
        links_ok(b, lo, hi),
{
    assert forall|j: int| lo < j < hi implies {
        &&& (#[trigger] b[j]).parent is Some
        &&& lo <= b[j].parent->0 < j
        &&& b[b[j].parent->0 as int].children.contains(j as usize)
    } by {
        assert(a[j].children == b[j].children);
        let q = a[j].parent->0 as int;
        assert(a[q].children == b[q].children);
    }
    assert forall|j: int, k: int| lo <= j < hi && 0 <= k < b[j].children.len() implies {
        &&& j < #[trigger] b[j].children[k] < hi
        &&& b[b[j].children[k] as int].parent == Some(j as usize)
    } by {
        assert(a[j].children == b[j].children);
        let c = a[j].children[k] as int;
        assert(a[c].parent == b[c].parent);
    }
    assert forall|j: int| lo <= j < hi implies {
        &&& (#[trigger] b[j]).children.len() <= 2
        &&& (b[j].children.len() == 2 ==> b[j].children[0] != b[j].children[1])
    } by {
        assert(a[j].children == b[j].children);
    }
}

/// The labelled tree is a finished map.
proof fn lemma_map_ok(g: Seq<NodeView>, f: Seq<Node>, order: Seq<usize>, leaves: Seq<usize>, m: MapView, max_dead: u32)
    requires
        subtree_ok(g, 0, g.len() as int),
        g[0].parent is None,
        g.len() <= usize::MAX,
        leaves == spec_leaves(g, g.len() as int),
        order.len() == leaves.len(),
        forall|i: int| 0 <= i < g.len() && (#[trigger] g[i]).children.len() == 0 ==> order.contains(i as usize),
        forall|i: int| 0 <= i < order.len() ==> #[trigger] order[i] < g.len() && g[order[i] as int].children.len() == 0,
        f.len() == g.len(),
        forall|i: int| 0 <= i < g.len() ==> (#[trigger] f[i]).children@ == g[i].children,
        forall|i: int| 0 <= i < g.len() ==> (#[trigger] f[i]).parent == g[i].parent,
        forall|t: int| 0 <= t < order.len() ==> (#[trigger] f[order[t] as int]).kind !is Track,
        forall|i: int| 0 <= i < g.len() && !order.contains(i as usize) ==> (#[trigger] f[i]).kind == NodeKind::Track,
        m.nodes == views(f),
        m.root == 0,
        m.labels == Seq::new(m.stations.len(), |i: int| (i + 1) as u32),
        forall|i: int|
            0 <= i < m.stations.len() ==> order.contains(#[trigger] m.stations[i]) && f[m.stations[i] as int].kind == (NodeKind::Station { label: (i + 1) as u32 }),
        forall|j: int| 0 <= j < g.len() && (#[trigger] f[j]).kind is Station ==> m.stations.contains(j as usize),
        count_dead(views(f), g.len() as int) <= max_dead,
        m.stations.len() + count_dead(views(f), g.len() as int) == order.len(),
    ensures
        map_ok(m, max_dead),
{
    reveal(subtree_ok);
    let v = views(f);
    assert forall|i: int| 0 <= i < g.len() implies (#[trigger] g[i]).children == v[i].children && g[i].parent == v[i].parent by {
        assert(v[i] == f[i]@);
    }
    lemma_links_same(g, v, 0, g.len() as int);
    lemma_leaves_same(g, v, g.len() as int);
    assert forall|i: int| 0 <= i < v.len() implies ((#[trigger] v[i]).children.len() == 0 <==> v[i].kind !is Track) by {
        assert(v[i] == f[i]@);
        assert(g[i].children == v[i].children);
        if g[i].children.len() == 0 {
            assert(order.contains(i as usize));
            let t = choose|t: int| 0 <= t < order.len() && order[t] == i as usize;
            assert(f[order[t] as int].kind !is Track);
        } else if order.contains(i as usize) {
            let t = choose|t: int| 0 <= t < order.len() && order[t] == i as usize;
            assert(g[order[t] as int].children.len() == 0);
        }
    }
    assert forall|i: int| 0 <= i < m.stations.len() implies #[trigger] m.stations[i] < m.nodes.len()
        && m.nodes[m.stations[i] as int].kind == (NodeKind::Station { label: (i + 1) as u32 }) by {
        assert(order.contains(m.stations[i]));
        let t = choose|t: int| 0 <= t < order.len() && order[t] == m.stations[i];
        assert(order[t] < g.len());
        assert(v[m.stations[i] as int] == f[m.stations[i] as int]@);
    }
    assert forall|j: int| 0 <= j < m.nodes.len() && (#[trigger] m.nodes[j]).kind is Station implies m.stations.contains(j as usize) by {
        assert(v[j] == f[j]@);
    }
}

/// The leaves list is strictly increasing and holds exactly leaves.
proof fn lemma_leaves_sorted(nodes: Seq<NodeView>, k: int)
    requires
        0 <= k <= nodes.len(),
        nodes.len() <= usize::MAX,
    ensures
        forall|i: int, j: int| 0 <= i < j < spec_leaves(nodes, k).len() ==> spec_leaves(nodes, k)[i] < spec_leaves(nodes, k)[j],
        forall|i: int| 0 <= i < spec_leaves(nodes, k).len() ==> #[trigger] spec_leaves(nodes, k)[i] < k && nodes[spec_leaves(nodes, k)[i] as int].children.len() == 0,
        spec_leaves(nodes, k).len() <= k,
    decreases k,
{
    if k > 0 {
        lemma_leaves_sorted(nodes, k - 1);
        let p = spec_leaves(nodes, k - 1);
        let l = spec_leaves(nodes, k);
        if nodes[k - 1].children.len() == 0 {
            assert(l == p.push((k - 1) as usize));
            assert forall|i: int| 0 <= i < l.len() implies #[trigger] l[i] < k && nodes[l[i] as int].children.len() == 0 by {
                if i < p.len() {
                    assert(l[i] == p[i]);
                }
            }
            assert forall|i: int, j: int| 0 <= i < j < l.len() implies l[i] < l[j] by {
                assert(l[i] == p[i]);
                if j < p.len() {
                    assert(l[j] == p[j]);
                }
            }
        }
    }
}

/// A tree grown from rows `0..rows` has at most `rows` leaves.
proof fn lemma_leaf_count(nodes: Seq<NodeView>, leaves: Seq<usize>, rows: int)
    requires
        leaves == spec_leaves(nodes, nodes.len() as int),
        nodes.len() >= 1,
        nodes.len() <= usize::MAX,
        layout_ok(nodes, 0, nodes.len() as int, 0, rows, 0),
    ensures
        leaves.len() <= rows,
{
    reveal(layout_ok);
    lemma_leaves_sorted(nodes, nodes.len() as int);
    if leaves.len() > 0 {
        assert forall|i: int| 0 <= i < leaves.len() implies nodes[#[trigger] leaves[i] as int].pos.y >= 2 * i by {
            lemma_leaf_rows(nodes, leaves, rows, i);
        }
        let last = leaves.len() - 1;
        assert(nodes[leaves[last] as int].pos.y >= 2 * last);
        assert(nodes[leaves[last] as int].children.len() == 0);
    }
}

proof fn lemma_leaf_rows(nodes: Seq<NodeView>, leaves: Seq<usize>, rows: int, i: int)
    requires
        leaves == spec_leaves(nodes, nodes.len() as int),
        layout_ok(nodes, 0, nodes.len() as int, 0, rows, 0),
        forall|a: int, b: int| 0 <= a < b < leaves.len() ==> leaves[a] < leaves[b],
        forall|a: int| 0 <= a < leaves.len() ==> #[trigger] leaves[a] < nodes.len() && nodes[leaves[a] as int].children.len() == 0,
        0 <= i < leaves.len(),
    ensures
        nodes[leaves[i] as int].pos.y >= 2 * i,
    decreases i,
{
    reveal(layout_ok);
    assert(nodes[leaves[i] as int].children.len() == 0);
    if i > 0 {
        lemma_leaf_rows(nodes, leaves, rows, i - 1);
        let a = leaves[i - 1] as int;
        let b = leaves[i] as int;
        assert(nodes[a].children.len() == 0);
        assert(nodes[a].pos.y < nodes[b].pos.y);
        assert(nodes[a].pos.y % 2 == 0 && nodes[b].pos.y % 2 == 0);
    }
}

/// Number of dead-ends among the first `k` nodes.
pub open spec fn count_dead(nodes: Seq<NodeView>, k: int) -> nat
    decreases k,
{
    if k <= 0 {
        0
    } else {
        count_dead(nodes, k - 1) + if nodes[k - 1].kind == NodeKind::DeadEnd { 1nat } else { 0nat }
    }
}

/// Changing one node changes the dead-end count by what that node's kind
/// contributes before and after.
proof fn lemma_count_dead_update(nodes: Seq<NodeView>, idx: int, v: NodeView, k: int)
    requires
        0 <= idx < nodes.len(),
        k <= nodes.len(),
    ensures
        count_dead(nodes.update(idx, v), k) + (if idx < k && nodes[idx].kind == NodeKind::DeadEnd { 1int } else { 0int })
            == count_dead(nodes, k) + (if idx < k && v.kind == NodeKind::DeadEnd { 1int } else { 0int }),
    decreases k,
{
    if k > 0 {
        lemma_count_dead_update(nodes, idx, v, k - 1);
    }
}

/// With no dead-ends anywhere, the count is zero.
proof fn lemma_count_dead_none(nodes: Seq<NodeView>, k: int)
    requires
        k <= nodes.len(),
        forall|i: int| 0 <= i < k ==> (#[trigger] nodes[i]).kind == NodeKind::Track,
    ensures
        count_dead(nodes, k) == 0,
    decreases k,
{
    if k > 0 {
        lemma_count_dead_none(nodes, k - 1);
    }
}

/// Turn the leaves, in `order`, into stations or dead-ends.
fn label_leaves(
    nodes: &mut Vec<Node>,
    rng: &mut Rng,
    order: &Vec<usize>,
    max_dead: u32,
    p: u32,
    Ghost(g_nodes): Ghost<Seq<NodeView>>,
    Ghost(g_rng): Ghost<Seq<u64>>,
) -> (r: (Vec<usize>, Vec<u32>))
    requires
        views(old(nodes)@) == g_nodes,
        old(rng)@ == g_rng,
        g_rng.len() == 4,
        order@.len() <= 0x2000_0000,
        forall|i: int| 0 <= i < order@.len() ==> #[trigger] order@[i] < g_nodes.len() && g_nodes[order@[i] as int].children.len() == 0,
        order@.no_duplicates(),
        forall|i: int| 0 <= i < g_nodes.len() ==> (#[trigger] g_nodes[i]).kind == NodeKind::Track,
    ensures
        ({
            let l = spec_label(g_nodes, g_rng, order@, max_dead, p, order@.len() as int);
            &&& views(final(nodes)@) == l.nodes
            &&& final(rng)@ == l.rng
            &&& r.0@ == l.stations
            &&& r.1@ == l.labels
        }),
        final(nodes)@.len() == g_nodes.len(),
        forall|i: int| 0 <= i < g_nodes.len() ==> (#[trigger] final(nodes)@[i]).pos == g_nodes[i].pos,
        forall|i: int| 0 <= i < g_nodes.len() ==> (#[trigger] final(nodes)@[i]).children@ == g_nodes[i].children,
        forall|i: int| 0 <= i < g_nodes.len() ==> (#[trigger] final(nodes)@[i]).parent == g_nodes[i].parent,
        forall|t: int| 0 <= t < order@.len() ==> (#[trigger] final(nodes)@[order@[t] as int]).kind !is Track,
        forall|i: int| 0 <= i < g_nodes.len() && !order@.contains(i as usize) ==> (#[trigger] final(nodes)@[i]).kind == NodeKind::Track,
        r.1@ == Seq::new(r.0@.len(), |i: int| (i + 1) as u32),
        forall|i: int|
            0 <= i < r.0@.len() ==> order@.contains(#[trigger] r.0@[i]) && final(nodes)@[r.0@[i] as int].kind == (NodeKind::Station { label: (i + 1) as u32 }),
        forall|j: int| 0 <= j < g_nodes.len() && (#[trigger] final(nodes)@[j]).kind is Station ==> r.0@.contains(j as usize),
        count_dead(views(final(nodes)@), g_nodes.len() as int) <= max_dead,
        r.0@.len() + count_dead(views(final(nodes)@), g_nodes.len() as int) == order@.len(),
{
    let mut dead_ends: u32 = 0;
    let mut next_label: u32 = 1;
    let mut stations: Vec<usize> = Vec::new();
    let mut labels: Vec<u32> = Vec::new();
    let mut k: usize = 0;
    proof {
        assert forall|i: int| 0 <= i < g_nodes.len() implies (#[trigger] nodes@[i]).kind == NodeKind::Track by {
            assert(views(nodes@)[i] == nodes@[i]@);
        }
        lemma_count_dead_none(g_nodes, g_nodes.len() as int);
    }
    while k < order.len()
        invariant
            order@.len() <= 0x2000_0000,
            nodes@.len() == g_nodes.len(),
            forall|i: int| 0 <= i < order@.len() ==> #[trigger] order@[i] < g_nodes.len() && g_nodes[order@[i] as int].children.len() == 0,
            k <= order@.len(),
            ({
                let l = spec_label(g_nodes, g_rng, order@, max_dead, p, k as int);
                &&& views(nodes@) == l.nodes
                &&& rng@ == l.rng
                &&& dead_ends == l.dead_ends
                &&& stations@ == l.stations
                &&& labels@ == l.labels
            }),
            rng@.len() == 4,
            stations@.len() + dead_ends == k,
            next_label == stations@.len() + 1,
            forall|i: int| 0 <= i < g_nodes.len() ==> (#[trigger] nodes@[i]).children@ == g_nodes[i].children,
            forall|i: int| 0 <= i < g_nodes.len() ==> (#[trigger] nodes@[i]).pos == g_nodes[i].pos,
            forall|i: int| 0 <= i < g_nodes.len() ==> (#[trigger] nodes@[i]).parent == g_nodes[i].parent,
            order@.no_duplicates(),
            forall|t: int| 0 <= t < k ==> (#[trigger] nodes@[order@[t] as int]).kind !is Track,
            forall|t: int| k <= t < order@.len() ==> (#[trigger] nodes@[order@[t] as int]).kind == NodeKind::Track,
            forall|i: int| 0 <= i < g_nodes.len() && !order@.contains(i as usize) ==> (#[trigger] nodes@[i]).kind == NodeKind::Track,
            labels@ == Seq::new(stations@.len(), |i: int| (i + 1) as u32),
            forall|i: int|
                0 <= i < stations@.len() ==> order@.contains(#[trigger] stations@[i])
                    && nodes@[stations@[i] as int].kind == (NodeKind::Station { label: (i + 1) as u32 }),
            forall|j: int| 0 <= j < g_nodes.len() && (#[trigger] nodes@[j]).kind is Station ==> stations@.contains(j as usize),
            dead_ends <= max_dead,
            count_dead(views(nodes@), g_nodes.len() as int) == dead_ends,
        decreases order@.len() - k,
    {
        let leaf = order[k];
        let ghost prev = spec_label(g_nodes, g_rng, order@, max_dead, p, k as int);
        let mut dead = false;
        if dead_ends < max_dead {
            proof {
                crate::rng::lemma_below_bounds(rng@, 100);
            }
            let roll = rng.chance(p);
            if roll && stations.len() + 1 < order.len() {
                dead = true;
            }
        }
        let pos = nodes[leaf].pos;
        let parent = nodes[leaf].parent;
        let ghost before = views(nodes@);
        let ghost raw = nodes@;
        proof {
            assert(before[leaf as int] == nodes@[leaf as int]@);
            assert(before[leaf as int].children =~= Seq::<usize>::empty());
            assert(order@[k as int] == leaf);
            assert(raw[leaf as int].kind == NodeKind::Track);
        }
        if dead {
            nodes.set(leaf, Node { pos, parent, children: Vec::new(), kind: NodeKind::DeadEnd });
            dead_ends = dead_ends + 1;
        } else {
            nodes.set(leaf, Node { pos, parent, children: Vec::new(), kind: NodeKind::Station { label: next_label } });
            stations.push(leaf);
            labels.push(next_label);
            next_label = next_label + 1;
        }
        proof {
            let nl = spec_label(g_nodes, g_rng, order@, max_dead, p, k + 1);
            assert(views(nodes@) =~= nl.nodes);
            assert(views(nodes@) =~= before.update(leaf as int, nodes@[leaf as int]@));
            lemma_count_dead_update(before, leaf as int, nodes@[leaf as int]@, g_nodes.len() as int);
            assert forall|i: int| 0 <= i < g_nodes.len() && i != leaf implies #[trigger] nodes@[i] == raw[i] by {}
            assert forall|i: int| 0 <= i < g_nodes.len() implies (#[trigger] nodes@[i]).children@ == g_nodes[i].children by {
                if i != leaf {
                    assert(nodes@[i] == raw[i]);
                }
            }
            assert forall|t: int| 0 <= t <= k implies (#[trigger] nodes@[order@[t] as int]).kind !is Track by {
                if t < k {
                    assert(order@[t] != order@[k as int]);
                    assert(nodes@[order@[t] as int] == raw[order@[t] as int]);
                }
            }
            assert forall|t: int| k < t < order@.len() implies (#[trigger] nodes@[order@[t] as int]).kind == NodeKind::Track by {
                assert(order@[t] != order@[k as int]);
                assert(nodes@[order@[t] as int] == raw[order@[t] as int]);
            }
            assert forall|i: int| 0 <= i < g_nodes.len() && !order@.contains(i as usize) implies (#[trigger] nodes@[i]).kind == NodeKind::Track by {
                if i == leaf {
                    assert(order@.contains(leaf));
                }
                assert(nodes@[i] == raw[i]);
            }
            assert forall|i: int| 0 <= i < stations@.len() implies order@.contains(#[trigger] stations@[i])
                && nodes@[stations@[i] as int].kind == (NodeKind::Station { label: (i + 1) as u32 }) by {
                if i < prev.stations.len() {
                    assert(stations@[i] == prev.stations[i]);
                    assert(raw[stations@[i] as int].kind is Station);
                    assert(stations@[i] != leaf);
                    assert(nodes@[stations@[i] as int] == raw[stations@[i] as int]);
                } else {
                    assert(stations@[i] == leaf);
                    assert(order@[k as int] == leaf);
                }
            }
            assert forall|j: int| 0 <= j < g_nodes.len() && (#[trigger] nodes@[j]).kind is Station implies stations@.contains(j as usize) by {
                if j == leaf {
                    assert(stations@[stations@.len() - 1] == leaf);
                } else {
                    assert(nodes@[j] == raw[j]);
                    assert(prev.stations.contains(j as usize));
                    let x = choose|x: int| 0 <= x < prev.stations.len() && prev.stations[x] == j as usize;
                    assert(stations@[x] == j as usize);
                }
            }
            assert(labels@ =~= Seq::new(stations@.len(), |i: int| (i + 1) as u32));
        }
        k = k + 1;
    }
    (stations, labels)
}

/// Where a value lands when inserted: within bounds.
proof fn lemma_insert_pos_bounds(nodes: Seq<NodeView>, s: Seq<usize>, v: usize)
    ensures
        0 <= insert_pos(nodes, s, v) <= s.len(),
    decreases s.len(),
{
    if s.len() > 0 && pos_lt(nodes[v as int].pos, nodes[s.last() as int].pos) {
        lemma_insert_pos_bounds(nodes, s.drop_last(), v);
    }
}

/// Sorting keeps exactly the entries it was given: same length, every entry
/// present, nothing else, and no entry twice when none was given twice.
proof fn lemma_sort_perm(nodes: Seq<NodeView>, s: Seq<usize>, k: int)
    requires
        0 <= k <= s.len(),
    ensures
        sort_upto(nodes, s, k).len() == k,
        forall|i: int| 0 <= i < k ==> sort_upto(nodes, s, k).contains(#[trigger] s[i]),
        forall|y: usize| sort_upto(nodes, s, k).contains(y) ==> exists|i: int| 0 <= i < k && s[i] == y,
        s.subrange(0, k).no_duplicates() ==> sort_upto(nodes, s, k).no_duplicates(),
    decreases k,
{
    if k > 0 {
        lemma_sort_perm(nodes, s, k - 1);
        let p = sort_upto(nodes, s, k - 1);
        let x = s[k - 1];
        let q = sort_upto(nodes, s, k);
        let at = insert_pos(nodes, p, x);
        lemma_insert_pos_bounds(nodes, p, x);
        assert(q == p.insert(at, x));
        assert(q[at] == x);
        assert forall|i: int| 0 <= i < k implies q.contains(#[trigger] s[i]) by {
            if i < k - 1 {
                assert(p.contains(s[i]));
                let j = choose|j: int| 0 <= j < p.len() && p[j] == s[i];
                if j < at {
                    assert(q[j] == p[j]);
                } else {
                    assert(q[j + 1] == p[j]);
                }
            }
        }
        assert forall|y: usize| q.contains(y) implies exists|i: int| 0 <= i < k && s[i] == y by {
            let j = choose|j: int| 0 <= j < q.len() && q[j] == y;
            if j == at {
                assert(s[k - 1] == y);
            } else if j < at {
                assert(p[j] == y);
                assert(p.contains(y));
            } else {
                assert(p[j - 1] == y);
                assert(p.contains(y));
            }
        }
        if s.subrange(0, k).no_duplicates() {
            assert(s.subrange(0, k - 1).no_duplicates()) by {
                assert forall|a: int, b: int| 0 <= a < b < k - 1 implies #[trigger] s.subrange(0, k - 1)[a] != #[trigger] s.subrange(0, k - 1)[b] by {
                    assert(s.subrange(0, k)[a] != s.subrange(0, k)[b]);
                }
            }
            assert(!p.contains(x)) by {
                if p.contains(x) {
                    let i = choose|i: int| 0 <= i < k - 1 && s[i] == x;
                    assert(s.subrange(0, k)[i] == s.subrange(0, k)[k - 1]);
                }
            }
            assert forall|a: int, b: int| 0 <= a < b < q.len() implies q[a] != q[b] by {
                if a == at {
                    assert(p[b - 1] == q[b]);
                    assert(p.contains(q[b]));
                } else if b == at {
                    assert(p[a] == q[a]);
                    assert(p.contains(q[a]));
                } else {
                    let pa = if a < at { a } else { a - 1 };
                    let pb = if b < at { b } else { b - 1 };
                    assert(q[a] == p[pa]);
                    assert(q[b] == p[pb]);
                }
            }
        }
    }
}

} // verus!
