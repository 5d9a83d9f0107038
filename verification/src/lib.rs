//! # train_core — the Rail Royale engine
//!
//! A deterministic, integer-tick battle engine. Two factions commit orders each
//! turn (deploy trains, set routing switches); `resolve_turn` runs a fixed number
//! of ticks — movement, shooting, collisions — and produces the next battle
//! state. Destroy the enemy King tower to win. It contains no I/O and no
//! rendering, so a server can re-simulate a match to validate it.
//!
//! The crate also holds the engine of the daily routing puzzle (map
//! generation, train schedule, scoring and replay verification) and the small
//! lookup tables the web client draws with.
use vstd::prelude::*;

pub mod battle;
pub mod client;
pub mod config;
pub mod delivery;
pub mod geometry;
pub mod map;
pub mod rng;
pub mod score;
pub mod replay;
pub mod sim;

pub use battle::{
    ai_orders, resolve_turn, resolve_turn_frames, self_play, turn_fits_check, AiLevel, Arena, BattleConfig, BattleState, Command, Faction,
    NodeId, Orders, Status, Tower, TowerKind, Train, TrainKind, TrainStats, TurnEvent,
};
pub use config::GameConfig;
pub use geometry::{Direction, Pos};
pub use map::{Node, NodeKind, TrackMap};
pub use replay::{verify, Input, RejectReason, Run, Verified};
pub use score::{Outcome, Scorer};
pub use sim::{generate_schedule, Simulation, TrainSpawn};

verus! {

/// Salt mixed into the day index so unix-day seeds differ from date seeds.
pub const DAY_INDEX_SALT: u64 = 0x6461795F696E6478;

/// Seconds in a UTC day.
pub const SECONDS_PER_DAY: u64 = 86_400;

/// The SplitMix64 finalizer.
pub open spec fn spec_splitmix64(x: u64) -> u64 {
    rng::spec_mix64(x.wrapping_add(rng::GOLDEN_GAMMA))
}

/// The packed `YYYYMMDD`-style key of a calendar date.
pub open spec fn spec_pack_date(year: i32, month: u32, day: u32) -> u64 {
    ((year as u64) << 16u64) | ((month as u64) << 8u64) | (day as u64)
}

/// The daily seed of a calendar date.
pub open spec fn spec_daily_seed(year: i32, month: u32, day: u32) -> u64 {
    spec_splitmix64(spec_pack_date(year, month, day))
}

/// The daily seed of a unix timestamp: keyed on its UTC day index.
pub open spec fn spec_daily_seed_from_unix(unix_seconds: u64) -> u64 {
    spec_splitmix64((unix_seconds / SECONDS_PER_DAY) ^ DAY_INDEX_SALT)
}

/// Derive the deterministic daily seed for a calendar date (UTC): SplitMix64
/// over a packed `YYYYMMDD`, stable across platforms.
pub fn daily_seed(year: i32, month: u32, day: u32) -> (r: u64)
    ensures
        r == spec_daily_seed(year, month, day),
{
    let packed = ((year as u64) << 16u64) | ((month as u64) << 8u64) | (day as u64);
    splitmix64(packed)
}

/// Derive the deterministic daily seed from a Unix timestamp (seconds): keyed on
/// the day index `floor(secs / 86400)`, so one UTC day shares a seed.
pub fn daily_seed_from_unix(unix_seconds: u64) -> (r: u64)
    ensures
        r == spec_daily_seed_from_unix(unix_seconds),
{
    let day_index = unix_seconds / SECONDS_PER_DAY;
    splitmix64(day_index ^ DAY_INDEX_SALT)
}

/// SplitMix64 finalizer — wrapping integer math only.
fn splitmix64(x: u64) -> (r: u64)
    ensures
        r == spec_splitmix64(x),
{
    let mut z = x.wrapping_add(rng::GOLDEN_GAMMA);
    z = (z ^ (z >> 30u64)).wrapping_mul(0xBF58476D1CE4E5B9);
    z = (z ^ (z >> 27u64)).wrapping_mul(0x94D049BB133111EB);
    z ^ (z >> 31u64)
}

/// Everything within one UTC day shares a seed.
pub proof fn lemma_same_day_same_seed(a: u64, b: u64)
    requires
        a / SECONDS_PER_DAY == b / SECONDS_PER_DAY,
    ensures
        spec_daily_seed_from_unix(a) == spec_daily_seed_from_unix(b),
{
}

/// The SplitMix64 finalizer never maps two inputs to one seed.
pub proof fn lemma_splitmix64_injective(a: u64, b: u64)
    ensures
        spec_splitmix64(a) == spec_splitmix64(b) ==> a == b,
{
    rng::lemma_mix64_injective(a.wrapping_add(rng::GOLDEN_GAMMA), b.wrapping_add(rng::GOLDEN_GAMMA));
}

/// Timestamps on different UTC days get different seeds.
pub proof fn lemma_different_days_differ(a: u64, b: u64)
    requires
        a / SECONDS_PER_DAY != b / SECONDS_PER_DAY,
    ensures
        spec_daily_seed_from_unix(a) != spec_daily_seed_from_unix(b),
{
    let da = a / SECONDS_PER_DAY;
    let db = b / SECONDS_PER_DAY;
    assert((da ^ DAY_INDEX_SALT) == (db ^ DAY_INDEX_SALT) ==> da == db) by (bit_vector);
    lemma_splitmix64_injective(da ^ DAY_INDEX_SALT, db ^ DAY_INDEX_SALT);
}

/// Different calendar dates (months and days below 256) get different seeds.
pub proof fn lemma_different_dates_differ(y1: i32, m1: u32, d1: u32, y2: i32, m2: u32, d2: u32)
    requires
        m1 < 256 && d1 < 256 && m2 < 256 && d2 < 256,
        y1 != y2 || m1 != m2 || d1 != d2,
    ensures
        spec_daily_seed(y1, m1, d1) != spec_daily_seed(y2, m2, d2),
{
    let p1 = spec_pack_date(y1, m1, d1);
    let p2 = spec_pack_date(y2, m2, d2);
    assert(p1 == p2 ==> y1 == y2 && m1 == m2 && d1 == d2) by (bit_vector)
        requires
            m1 < 256 && d1 < 256 && m2 < 256 && d2 < 256,
            p1 == ((y1 as u64) << 16u64) | ((m1 as u64) << 8u64) | (d1 as u64),
            p2 == ((y2 as u64) << 16u64) | ((m2 as u64) << 8u64) | (d2 as u64),
    ;
    lemma_splitmix64_injective(p1, p2);
}

} // verus!
