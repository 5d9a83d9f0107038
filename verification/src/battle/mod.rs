//! Rail Royale — the deterministic battle engine.
//!
//! Two factions push armed trains across a shared rail graph to destroy the
//! enemy King tower. Each turn both players submit `Orders` (deploy trains, set
//! their routing switches), then `resolve_turn` runs a fixed number of integer
//! ticks and produces the next `BattleState`.
use vstd::prelude::*;

pub mod ai;
pub mod arena;
pub mod orders;
pub mod resolve;
pub mod selfplay;
pub mod state;
pub mod unit;

pub use ai::{ai_orders, AiLevel};
pub use arena::{dist2, Arena, BattleConfig, NodeData, NodeId, Tower, TowerKind};
pub use orders::{Command, Orders};
pub use resolve::{resolve_turn, resolve_turn_frames, turn_fits_check, TurnEvent};
pub use selfplay::self_play;
pub use state::{BattleState, Status};
pub use unit::{Train, TrainKind, TrainStats};

verus! {

/// The two sides. `A` starts at the bottom of the arena, `B` at the top.
#[derive(Clone, Copy, Debug, PartialEq, Eq, Structural, Hash, PartialOrd, Ord)]
pub enum Faction {
    A,
    B,
}

/// The opposing faction.
pub open spec fn spec_enemy(f: Faction) -> Faction {
    match f {
        Faction::A => Faction::B,
        Faction::B => Faction::A,
    }
}

/// The stable per-faction array index.
pub open spec fn spec_index(f: Faction) -> int {
    match f {
        Faction::A => 0,
        Faction::B => 1,
    }
}

impl Faction {
    /// The opposing faction.
    pub fn enemy(self) -> (r: Faction)
        ensures
            r == spec_enemy(self),
    {
        match self {
            Faction::A => Faction::B,
            Faction::B => Faction::A,
        }
    }

    /// Stable index `0`/`1` for per-faction arrays.
    pub fn index(self) -> (r: usize)
        ensures
            r == spec_index(self),
            r < 2,
    {
        match self {
            Faction::A => 0,
            Faction::B => 1,
        }
    }
}

/// Each faction is the enemy of its enemy, and never its own enemy.
pub proof fn lemma_enemy_involution(f: Faction)
    ensures
        spec_enemy(spec_enemy(f)) == f,
        spec_enemy(f) != f,
        spec_index(spec_enemy(f)) == 1 - spec_index(f),
{
}

} // verus!
