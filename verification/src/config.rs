//! Difficulty configuration of the routing puzzle.
//!
//! A `GameConfig` is fully determined by `(seed, level)`, so a server only needs
//! those two numbers (plus the player's switch inputs) to rebuild and verify a
//! whole run.
use vstd::prelude::*;

verus! {

/// Number of simulation ticks per second. Rendering interpolates between ticks.
pub const TICKS_PER_SECOND: u32 = 60;

/// Highest level whose difficulty curve is computed without overflow.
pub const MAX_LEVEL: u32 = 357_913_941;

/// Everything needed to generate a map and a train schedule, deterministically.
#[derive(Clone, Debug, PartialEq, Eq)]
pub struct GameConfig {
    /// Master seed. Map, dead-ends, train destinations and timings derive from it.
    pub seed: u64,
    /// Difficulty level (1 = gentlest).
    pub level: u32,
    /// Target depth of the track tree (more depth = bigger map, more stations).
    pub tree_height: u32,
    /// Percent chance (0..=100) that a branch extends straight before splitting.
    pub extend_probability: u32,
    /// Percent chance (0..=100) that a station is replaced by a dead-end trap.
    pub dead_end_probability: u32,
    /// Hard cap on intentional dead-ends so a map is never unfair.
    pub max_dead_ends: u32,
    /// How many trains will be dispatched this round.
    pub trains: u32,
    /// Allowed per-edge traversal times in ticks (smaller = faster).
    pub edge_ticks_choices: Vec<u32>,
    /// Allowed gaps (in edges) between consecutive train dispatches.
    pub interval_choices: Vec<u32>,
}

/// The level actually used: at least 1.
pub open spec fn eff_level(level: u32) -> int {
    if level == 0 {
        1
    } else {
        level as int
    }
}

/// `x` capped at `hi`.
pub open spec fn cap(x: int, hi: int) -> int {
    if x < hi {
        x
    } else {
        hi
    }
}

/// Tree depth: 2, 2, 3, 3, 4, ... up to 7.
pub open spec fn spec_tree_height(level: u32) -> int {
    cap(2 + eff_level(level) / 2, 7)
}

/// Straight-extension chance: 38% at level 1, +8 per level up to 78%.
pub open spec fn spec_extend_probability(level: u32) -> int {
    30 + cap(eff_level(level), 6) * 8
}

/// Dead-end chance: none up to level 2, then one percent per level up to 15%.
pub open spec fn spec_dead_end_probability(level: u32) -> int {
    if eff_level(level) <= 2 {
        0
    } else {
        cap(eff_level(level) - 2, 15)
    }
}

/// Dead-end cap: one per three levels, at most three.
pub open spec fn spec_max_dead_ends(level: u32) -> int {
    cap(eff_level(level) / 3, 3)
}

/// Trains per round: 10 at level 1, two more per level, at most 30.
pub open spec fn spec_trains(level: u32) -> int {
    cap(8 + eff_level(level) * 2, 30)
}

/// Base ticks per edge: 240 less 12 per level, never below 96.
pub open spec fn spec_base_edge(level: u32) -> int {
    let slowed = if 240 - eff_level(level) * 12 > 0 { 240 - eff_level(level) * 12 } else { 0 };
    if slowed > 96 {
        slowed
    } else {
        96
    }
}

/// Edge-time choices: the base alone at level 1, then the base and a faster
/// four-fifths of it (never below 90).
pub open spec fn spec_edge_choices(level: u32) -> Seq<u32> {
    let base = spec_base_edge(level);
    let fast = if base * 4 / 5 > 90 { base * 4 / 5 } else { 90 };
    if eff_level(level) <= 1 {
        seq![base as u32]
    } else {
        seq![base as u32, fast as u32]
    }
}

/// Dispatch-gap choices, denser from level 3.
pub open spec fn spec_interval_choices(level: u32) -> Seq<u32> {
    if eff_level(level) <= 2 {
        seq![3u32, 2u32]
    } else {
        seq![3u32, 2u32, 2u32, 1u32]
    }
}

/// A config as mathematical values.
pub struct ConfigView {
    pub seed: u64,
    pub level: u32,
    pub tree_height: u32,
    pub extend_probability: u32,
    pub dead_end_probability: u32,
    pub max_dead_ends: u32,
    pub trains: u32,
    pub edge_ticks_choices: Seq<u32>,
    pub interval_choices: Seq<u32>,
}

impl View for GameConfig {
    type V = ConfigView;

    open spec fn view(&self) -> ConfigView {
        ConfigView {
            seed: self.seed,
            level: self.level,
            tree_height: self.tree_height,
            extend_probability: self.extend_probability,
            dead_end_probability: self.dead_end_probability,
            max_dead_ends: self.max_dead_ends,
            trains: self.trains,
            edge_ticks_choices: self.edge_ticks_choices@,
            interval_choices: self.interval_choices@,
        }
    }
}

/// The config of the difficulty curve at `(seed, level)`.
pub open spec fn spec_curve(seed: u64, level: u32) -> ConfigView {
    ConfigView {
        seed,
        level: eff_level(level) as u32,
        tree_height: spec_tree_height(level) as u32,
        extend_probability: spec_extend_probability(level) as u32,
        dead_end_probability: spec_dead_end_probability(level) as u32,
        max_dead_ends: spec_max_dead_ends(level) as u32,
        trains: spec_trains(level) as u32,
        edge_ticks_choices: spec_edge_choices(level),
        interval_choices: spec_interval_choices(level),
    }
}

impl GameConfig {
    /// Build a config for a given seed and level using a smooth difficulty curve:
    /// bigger maps, more and faster trains as the level climbs, all capped so
    /// endless mode stays playable.
    pub fn new(seed: u64, level: u32) -> (r: Self)
        requires
            level <= MAX_LEVEL,
        ensures
            r@ == spec_curve(seed, level),
    {
        let level = if level == 0 { 1 } else { level };
        let th = 2 + level / 2;
        let tree_height = if th < 7 { th } else { 7 };
        let l6 = if level < 6 { level } else { 6 };
        let extend_probability = 30 + l6 * 8;
        let dead_end_probability = if level <= 2 {
            0
        } else {
            let d = level - 2;
            if d < 15 { d } else { 15 }
        };
        let md = level / 3;
        let max_dead_ends = if md < 3 { md } else { 3 };
        let tr = 8 + level * 2;
        let trains = if tr < 30 { tr } else { 30 };

        // Base traversal time shrinks with level (trains speed up), with a floor.
        let slowed = 240u32.saturating_sub(level * 12);
        let base = if slowed > 96 { slowed } else { 96 };
        let edge_ticks_choices = if level <= 1 {
            vec![base]
        } else {
            let fast = base * 4 / 5;
            vec![base, if fast > 90 { fast } else { 90 }]
        };
        let interval_choices = if level <= 2 { vec![3, 2] } else { vec![3, 2, 2, 1] };
        let r = GameConfig {
            seed,
            level,
            tree_height,
            extend_probability,
            dead_end_probability,
            max_dead_ends,
            trains,
            edge_ticks_choices,
            interval_choices,
        };
        proof {
            assert(r.edge_ticks_choices@ =~= spec_edge_choices(level));
            assert(r.interval_choices@ =~= spec_interval_choices(level));
        }
        r
    }
}

/// Level 0 is played as level 1.
pub proof fn lemma_level_zero_is_one(seed: u64)
    ensures
        spec_curve(seed, 0) == spec_curve(seed, 1),
{
}

/// Difficulty never eases as the level climbs: maps grow, trains multiply and
/// the fastest edge time only shrinks.
pub proof fn lemma_difficulty_monotone(lo: u32, hi: u32)
    requires
        lo <= hi,
    ensures
        spec_tree_height(lo) <= spec_tree_height(hi),
        spec_trains(lo) <= spec_trains(hi),
        spec_base_edge(hi) <= spec_base_edge(lo),
        spec_edge_choices(hi)[spec_edge_choices(hi).len() - 1] <= spec_edge_choices(lo)[spec_edge_choices(lo).len() - 1],
{
}

/// Every edge time is at least 90 ticks.
pub proof fn lemma_edge_times_floor(level: u32)
    ensures
        forall|i: int| 0 <= i < spec_edge_choices(level).len() ==> #[trigger] spec_edge_choices(level)[i] >= 90,
        spec_edge_choices(level).len() >= 1,
        spec_interval_choices(level).len() >= 1,
{
}

/// The curve keeps maps at most seven levels deep, rounds at most 30 trains,
/// edges at most 240 ticks and dispatch gaps at most 3 edges.
pub proof fn lemma_curve_bounds(level: u32)
    ensures
        2 <= spec_tree_height(level) <= 7,
        10 <= spec_trains(level) <= 30,
        forall|i: int| 0 <= i < spec_edge_choices(level).len() ==> #[trigger] spec_edge_choices(level)[i] <= 240,
        forall|i: int| 0 <= i < spec_interval_choices(level).len() ==> #[trigger] spec_interval_choices(level)[i] <= 3,
        0 <= spec_max_dead_ends(level) <= 3,
        0 <= spec_dead_end_probability(level) <= 15,
        38 <= spec_extend_probability(level) <= 78,
{
}

} // verus!
