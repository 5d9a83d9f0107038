//! Train types, their stats, and live train instances.
use vstd::prelude::*;

use super::arena::NodeId;
use super::Faction;

verus! {

/// The deployable train types. The counter-triangle keeps any single pick from
/// dominating.
#[derive(Clone, Copy, Debug, PartialEq, Eq, Structural, Hash, PartialOrd, Ord)]
pub enum TrainKind {
    /// Fast, fragile; first to a junction, good for contesting routes.
    Express,
    /// Slow, very tanky; wins collisions and soaks tower fire.
    Armored,
    /// Slow, fragile, hits at range; softens tanks and towers from safety.
    Rocket,
}

/// Fixed per-kind stats. `range` is in grid units (squared distance is compared);
/// `range == 0` means melee.
#[derive(Clone, Copy, Debug, PartialEq, Eq, Structural)]
pub struct TrainStats {
    pub hp: i32,
    pub damage: i32,
    pub range: i32,
    pub edge_ticks: u32,
    pub cost: u32,
}

/// Base stats of a kind: hp, damage, range (0 = melee), ticks per edge, cost.
pub open spec fn spec_stats(k: TrainKind) -> TrainStats {
    match k {
        TrainKind::Express => TrainStats { hp: 20, damage: 8, range: 0, edge_ticks: 6, cost: 3 },
        TrainKind::Armored => TrainStats { hp: 80, damage: 10, range: 0, edge_ticks: 12, cost: 5 },
        TrainKind::Rocket => TrainStats { hp: 24, damage: 18, range: 5, edge_ticks: 10, cost: 5 },
    }
}

impl TrainKind {
    /// Every selectable kind, in a stable order.
    pub const ALL: [TrainKind; 3] = [TrainKind::Express, TrainKind::Armored, TrainKind::Rocket];

    /// Base stats for this kind. All integers, for cross-platform determinism.
    pub fn stats(self) -> (r: TrainStats)
        ensures
            r == spec_stats(self),
    {
        match self {
            TrainKind::Express => TrainStats::new(20, 8, 0, 6, 3),
            TrainKind::Armored => TrainStats::new(80, 10, 0, 12, 5),
            TrainKind::Rocket => TrainStats::new(24, 18, 5, 10, 5),
        }
    }
}

impl TrainStats {
    pub fn new(hp: i32, damage: i32, range: i32, edge_ticks: u32, cost: u32) -> (r: Self)
        ensures
            r == (TrainStats { hp, damage, range, edge_ticks, cost }),
    {
        TrainStats { hp, damage, range, edge_ticks, cost }
    }
}

/// A train on the board, occupying the edge `from -> to` and advancing one tick
/// at a time.
#[derive(Clone, Copy, Debug, PartialEq, Eq, Structural)]
pub struct Train {
    pub faction: Faction,
    pub kind: TrainKind,
    pub hp: i32,
    pub from: NodeId,
    /// Next node, or `None` once it has reached a terminal.
    pub to: Option<NodeId>,
    pub progress: u32,
    pub edge_ticks: u32,
}

impl Train {
    pub fn alive(&self) -> (r: bool)
        ensures
            r == (self.hp > 0),
    {
        self.hp > 0
    }
}

/// The counter-triangle in numbers: Armored outlasts Express, Rocket outranges
/// Armored, and Express outpaces Rocket.
pub proof fn lemma_counter_triangle()
    ensures
        spec_stats(TrainKind::Armored).hp > spec_stats(TrainKind::Express).damage * 2,
        spec_stats(TrainKind::Rocket).range > spec_stats(TrainKind::Armored).range,
        spec_stats(TrainKind::Express).edge_ticks < spec_stats(TrainKind::Rocket).edge_ticks,
        forall|k: TrainKind| 3 <= #[trigger] spec_stats(k).cost <= 5,
{
}

} // verus!
