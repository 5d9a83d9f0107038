//! The deterministic simulation of the routing puzzle.
//!
//! Everything advances in fixed integer ticks. Given a config and a sequence of
//! switch toggles at known ticks, the simulation always produces the same
//! outcomes and the same final score, wherever it runs.
use vstd::prelude::*;

use crate::config::{spec_curve, ConfigView, GameConfig};
use crate::map::{spec_generate, spec_next, tree_ok, MapView, NodeKind, TrackMap, MAX_TREE_HEIGHT};

use crate::rng::{spec_below, spec_seed_state, Rng};
use crate::score::{spec_apply, Outcome, Scorer};

verus! {

/// Salt that separates the train stream from the map stream.
pub const TRAINS_SALT: u64 = 0x747261696E73;

/// Most trains a round can schedule while every score stays in range.
pub const MAX_SCHEDULE: u32 = 80_000_000;

/// A scheduled train: when it appears, where it wants to go, and how fast it moves.
#[derive(Clone, Copy, Debug, PartialEq, Eq, Structural)]
pub struct TrainSpawn {
    /// Tick at which the train enters at the root.
    pub tick: u32,
    /// The station label this train is trying to reach.
    pub dest: u32,
    /// Ticks to traverse one edge (smaller = faster).
    pub edge_ticks: u32,
}

/// A train on the board, travelling along one edge.
#[derive(Clone, Copy, Debug, PartialEq, Eq, Structural)]
pub struct Train {
    pub dest: u32,
    pub edge_ticks: u32,
    /// Node the train is leaving.
    pub from: usize,
    /// Node the train is heading to (`None` only if `from` is terminal).
    pub to: Option<usize>,
    /// Ticks elapsed on the current edge, `0..edge_ticks`.
    pub progress: u32,
}

/// The schedule built so far and the state of its random stream.
pub struct Sched {
    pub spawns: Seq<TrainSpawn>,
    pub rng: Seq<u64>,
    pub tick: int,
    /// No dispatch gap so far overflowed a tick counter.
    pub fits: bool,
}

/// The label at a drawn index, or 1 when there is none.
pub open spec fn label_or_one(labels: Seq<u32>, i: u32) -> u32 {
    if (i as int) < labels.len() {
        labels[i as int]
    } else {
        1
    }
}

/// The first `n` trains of the schedule. Each train draws its destination from
/// the labels, then an edge time and a dispatch interval from the config's
/// choices; the next train leaves `interval * edge_ticks` ticks later, and the
/// first one leaves at once.
pub open spec fn spec_schedule(config: ConfigView, labels: Seq<u32>, n: nat) -> Sched
    decreases n,
{
    if n == 0 {
        Sched { spawns: Seq::empty(), rng: spec_seed_state(config.seed ^ TRAINS_SALT), tick: 0, fits: true }
    } else {
        let p = spec_schedule(config, labels, (n - 1) as nat);
        let d = spec_below(p.rng, (if labels.len() > 1 { labels.len() } else { 1 }) as u32);
        let e = spec_below(d.1, config.edge_ticks_choices.len() as u32);
        let v = spec_below(e.1, config.interval_choices.len() as u32);
        let edge = config.edge_ticks_choices[e.0 as int];
        let interval = config.interval_choices[v.0 as int];
        let more = n < config.trains;
        Sched {
            spawns: p.spawns.push(TrainSpawn { tick: p.tick as u32, dest: label_or_one(labels, d.0), edge_ticks: edge }),
            rng: v.1,
            tick: if more { p.tick + interval * edge } else { p.tick },
            fits: p.fits && (more ==> interval * edge <= u32::MAX && p.tick + interval * edge <= u32::MAX),
        }
    }
}

/// A truncating cast never grows the value.
proof fn lemma_trunc_le(x: usize)
    ensures
        (x as u32) as int <= x as int,
{
    assert((x as u32) as usize <= x) by (bit_vector);
}

/// Build the deterministic train schedule for a config.
///
/// Destinations, speeds and spacing all come from the seed, so two parties
/// generate an identical schedule.
pub fn generate_schedule(config: &GameConfig, labels: &[u32]) -> (r: Vec<TrainSpawn>)
    requires
        config@.trains > 0 ==> config@.edge_ticks_choices.len() > 0 && config@.interval_choices.len() > 0,
        spec_schedule(config@, labels@, config.trains as nat).fits,
    ensures
        r@ == spec_schedule(config@, labels@, config.trains as nat).spawns,
        r@.len() == config.trains,
        r@.len() > 0 ==> r@[0].tick == 0,
        forall|i: int, j: int| 0 <= i <= j < r@.len() ==> r@[i].tick <= r@[j].tick,
        forall|i: int| 0 <= i < r@.len() ==> config@.edge_ticks_choices.contains(#[trigger] r@[i].edge_ticks),
        forall|i: int| 0 <= i < r@.len() - 1 ==> #[trigger] dispatch_gap_ok(config@, r@[i], r@[i + 1]),
        forall|i: int|
            0 <= i < r@.len() ==> if labels@.len() > 0 {
                labels@.contains(#[trigger] r@[i].dest)
            } else {
                r@[i].dest == 1
            },
{
    let mut rng = Rng::new(config.seed ^ TRAINS_SALT);
    let mut schedule: Vec<TrainSpawn> = Vec::new();
    let mut tick: u32 = 0;
    let mut n: u32 = 0;
    while n < config.trains
        invariant
            n <= config.trains,
            config@.trains > 0 ==> config@.edge_ticks_choices.len() > 0 && config@.interval_choices.len() > 0,
            spec_schedule(config@, labels@, config.trains as nat).fits,
            ({
                let s = spec_schedule(config@, labels@, n as nat);
                &&& schedule@ == s.spawns
                &&& rng@ == s.rng
                &&& tick == s.tick
            }),
            rng@.len() == 4,
        decreases config.trains - n,
    {
        proof {
            lemma_schedule_fits_prefix(config@, labels@, config.trains as nat, (n + 1) as nat);
            lemma_trunc_le(config@.edge_ticks_choices.len() as usize);
            lemma_trunc_le(config@.interval_choices.len() as usize);
            crate::rng::lemma_below_bounds(rng@, (if labels@.len() > 1 { labels@.len() } else { 1 }) as u32);
        }
        let count = if labels.len() > 1 { labels.len() } else { 1 };
        let di = rng.below(count as u32);
        let dest = if (di as usize) < labels.len() { labels[di as usize] } else { 1 };
        proof {
            crate::rng::lemma_below_bounds(rng@, config@.edge_ticks_choices.len() as u32);
        }
        let ei = rng.below(config.edge_ticks_choices.len() as u32);
        let edge_ticks = config.edge_ticks_choices[ei as usize];
        proof {
            crate::rng::lemma_below_bounds(rng@, config@.interval_choices.len() as u32);
        }
        let vi = rng.below(config.interval_choices.len() as u32);
        let interval = config.interval_choices[vi as usize];
        schedule.push(TrainSpawn { tick, dest, edge_ticks });
        if n + 1 < config.trains {
            tick = tick + interval * edge_ticks;
        }
        n = n + 1;
    }
    proof {
        lemma_schedule_ticks(config@, labels@, config.trains as nat);
        lemma_schedule_edges(config@, labels@, config.trains as nat);
        lemma_schedule_dests(config@, labels@, config.trains as nat);
        lemma_schedule_gaps(config@, labels@, config.trains as nat);
    }
    schedule
}

/// A schedule prefix that fits has one spawn per train, dispatch ticks that
/// start at 0 and never decrease, all at most the running tick.
pub proof fn lemma_schedule_ticks(config: ConfigView, labels: Seq<u32>, n: nat)
    requires
        spec_schedule(config, labels, n).fits,
    ensures
        ({
            let s = spec_schedule(config, labels, n);
            &&& s.spawns.len() == n
            &&& 0 <= s.tick <= u32::MAX
            &&& n > 0 ==> s.spawns[0].tick == 0
            &&& forall|i: int| 0 <= i < n ==> (#[trigger] s.spawns[i]).tick <= s.tick
            &&& forall|i: int, j: int| 0 <= i <= j < n ==> s.spawns[i].tick <= s.spawns[j].tick
        }),
    decreases n,
{
    if n > 0 {
        let p = spec_schedule(config, labels, (n - 1) as nat);
        let s = spec_schedule(config, labels, n);
        lemma_schedule_ticks(config, labels, (n - 1) as nat);
        assert(s.spawns == p.spawns.push(s.spawns[n - 1]));
        assert(s.spawns[n - 1].tick == p.tick);
        assert forall|i: int| 0 <= i < n implies (#[trigger] s.spawns[i]).tick <= s.tick by {
            if i < n - 1 {
                assert(s.spawns[i] == p.spawns[i]);
            }
        }
        assert forall|i: int, j: int| 0 <= i <= j < n implies s.spawns[i].tick <= s.spawns[j].tick by {
            if i < n - 1 {
                assert(s.spawns[i] == p.spawns[i]);
                if j < n - 1 {
                    assert(s.spawns[j] == p.spawns[j]);
                }
            }
        }
        if n > 1 {
            assert(s.spawns[0] == p.spawns[0]);
        }
    }
}

/// The schedule's random stream keeps its four-word shape.
proof fn lemma_schedule_rng(config: ConfigView, labels: Seq<u32>, n: nat)
    ensures
        spec_schedule(config, labels, n).rng.len() == 4,
    decreases n,
{
    if n > 0 {
        let p = spec_schedule(config, labels, (n - 1) as nat);
        lemma_schedule_rng(config, labels, (n - 1) as nat);
        let cnt = (if labels.len() > 1 { labels.len() } else { 1 }) as u32;
        let d = spec_below(p.rng, cnt);
        crate::rng::lemma_below_bounds(p.rng, cnt);
        let e = spec_below(d.1, config.edge_ticks_choices.len() as u32);
        crate::rng::lemma_below_bounds(d.1, config.edge_ticks_choices.len() as u32);
        crate::rng::lemma_below_bounds(e.1, config.interval_choices.len() as u32);
    }
}

/// Every scheduled edge time is one of the config's choices.
proof fn lemma_schedule_edges(config: ConfigView, labels: Seq<u32>, n: nat)
    requires
        n > 0 ==> config.edge_ticks_choices.len() > 0,
    ensures
        spec_schedule(config, labels, n).spawns.len() == n,
        forall|i: int| 0 <= i < n ==> config.edge_ticks_choices.contains(#[trigger] spec_schedule(config, labels, n).spawns[i].edge_ticks),
    decreases n,
{
    if n > 0 {
        let p = spec_schedule(config, labels, (n - 1) as nat);
        let s = spec_schedule(config, labels, n);
        lemma_schedule_edges(config, labels, (n - 1) as nat);
        lemma_schedule_rng(config, labels, (n - 1) as nat);
        let cnt = (if labels.len() > 1 { labels.len() } else { 1 }) as u32;
        let d = spec_below(p.rng, cnt);
        let len = config.edge_ticks_choices.len();
        crate::rng::lemma_below_bounds(p.rng, cnt);
        let e = spec_below(d.1, len as u32);
        crate::rng::lemma_below_bounds(d.1, len as u32);
        lemma_trunc_le(len as usize);
        assert(config.edge_ticks_choices[e.0 as int] == s.spawns[n - 1].edge_ticks);
        assert forall|i: int| 0 <= i < n implies config.edge_ticks_choices.contains(#[trigger] s.spawns[i].edge_ticks) by {
            if i < n - 1 {
                assert(s.spawns[i] == p.spawns[i]);
            }
        }
    }
}

/// Every scheduled destination is one of the labels, or 1 when there are none.
proof fn lemma_schedule_dests(config: ConfigView, labels: Seq<u32>, n: nat)
    ensures
        spec_schedule(config, labels, n).spawns.len() == n,
        forall|i: int|
            0 <= i < n ==> if labels.len() > 0 {
                labels.contains(#[trigger] spec_schedule(config, labels, n).spawns[i].dest)
            } else {
                spec_schedule(config, labels, n).spawns[i].dest == 1
            },
    decreases n,
{
    if n > 0 {
        let p = spec_schedule(config, labels, (n - 1) as nat);
        let s = spec_schedule(config, labels, n);
        lemma_schedule_dests(config, labels, (n - 1) as nat);
        lemma_schedule_rng(config, labels, (n - 1) as nat);
        let cnt = (if labels.len() > 1 { labels.len() } else { 1 }) as u32;
        let d = spec_below(p.rng, cnt);
        crate::rng::lemma_below_bounds(p.rng, cnt);
        lemma_trunc_le((if labels.len() > 1 { labels.len() } else { 1 }) as usize);
        let last = s.spawns[n - 1];
        assert(last.dest == label_or_one(labels, d.0));
        if labels.len() > 0 {
            if (d.0 as int) < labels.len() {
                assert(labels[d.0 as int] == last.dest);
            } else {
                assert(cnt == 0);
                assert(false);
            }
        }
        assert forall|i: int| 0 <= i < n implies if labels.len() > 0 {
            labels.contains(#[trigger] s.spawns[i].dest)
        } else {
            s.spawns[i].dest == 1
        } by {
            if i < n - 1 {
                assert(s.spawns[i] == p.spawns[i]);
            }
        }
    }
}

/// A schedule that fits fits at every prefix.
proof fn lemma_schedule_fits_prefix(config: ConfigView, labels: Seq<u32>, n: nat, k: nat)
    requires
        k <= n,
        spec_schedule(config, labels, n).fits,
    ensures
        spec_schedule(config, labels, k).fits,
    decreases n - k,
{
    if k < n {
        lemma_schedule_fits_prefix(config, labels, (n - 1) as nat, k);
    }
}

/// Train `b` leaves a whole number of train `a`'s edge times after `a`: the
/// gap is `a`'s edge time times one of the config's dispatch intervals.
pub open spec fn dispatch_gap_ok(config: ConfigView, a: TrainSpawn, b: TrainSpawn) -> bool {
    exists|j: int| 0 <= j < config.interval_choices.len() && b.tick == a.tick + config.interval_choices[j] * a.edge_ticks
}

/// The running tick of a schedule prefix: while trains remain to be drawn it
/// sits one dispatch gap after the last train drawn.
proof fn lemma_schedule_running_tick(config: ConfigView, labels: Seq<u32>, n: nat)
    requires
        1 <= n < config.trains,
        config.interval_choices.len() > 0,
        spec_schedule(config, labels, n).fits,
    ensures
        spec_schedule(config, labels, n).spawns.len() == n,
        exists|j: int| 0 <= j < config.interval_choices.len()
            && spec_schedule(config, labels, n).tick
                == spec_schedule(config, labels, n).spawns[n - 1].tick as int
                + config.interval_choices[j] * spec_schedule(config, labels, n).spawns[n - 1].edge_ticks,
{
    let p = spec_schedule(config, labels, (n - 1) as nat);
    let s = spec_schedule(config, labels, n);
    lemma_schedule_fits_prefix(config, labels, n, (n - 1) as nat);
    lemma_schedule_ticks(config, labels, (n - 1) as nat);
    lemma_schedule_rng(config, labels, (n - 1) as nat);
    lemma_schedule_edges_len(config, labels, n);
    let cnt = (if labels.len() > 1 { labels.len() } else { 1 }) as u32;
    let d = spec_below(p.rng, cnt);
    crate::rng::lemma_below_bounds(p.rng, cnt);
    let e = spec_below(d.1, config.edge_ticks_choices.len() as u32);
    crate::rng::lemma_below_bounds(d.1, config.edge_ticks_choices.len() as u32);
    let len = config.interval_choices.len();
    let v = spec_below(e.1, len as u32);
    crate::rng::lemma_below_bounds(e.1, len as u32);
    lemma_trunc_le(len as usize);
    let edge = config.edge_ticks_choices[e.0 as int];
    let interval = config.interval_choices[v.0 as int];
    assert(0 <= v.0 < len);
    assert(s.spawns == p.spawns.push(TrainSpawn { tick: p.tick as u32, dest: label_or_one(labels, d.0), edge_ticks: edge }));
    assert(s.spawns[n - 1].tick as int == p.tick);
    assert(s.spawns[n - 1].edge_ticks == edge);
    assert(s.tick == p.tick + interval * edge);
    assert(0 <= v.0 < config.interval_choices.len() && s.tick == s.spawns[n - 1].tick as int
        + config.interval_choices[v.0 as int] * s.spawns[n - 1].edge_ticks);
}

/// The tick stored in the last spawn is the running tick it was drawn at.
proof fn lemma_schedule_tick_cast(config: ConfigView, labels: Seq<u32>, n: nat)
    requires
        n >= 1,
    ensures
        spec_schedule(config, labels, n).spawns.len() == n,
        spec_schedule(config, labels, n).spawns[n - 1].tick == spec_schedule(config, labels, (n - 1) as nat).tick as u32,
{
    lemma_schedule_edges_len(config, labels, n);
}

/// A schedule of `n` trains has `n` spawns.
proof fn lemma_schedule_edges_len(config: ConfigView, labels: Seq<u32>, n: nat)
    ensures
        spec_schedule(config, labels, n).spawns.len() == n,
    decreases n,
{
    if n > 0 {
        lemma_schedule_edges_len(config, labels, (n - 1) as nat);
    }
}

/// Consecutive trains of a schedule that fits leave a whole number of the
/// earlier train's edge times apart: the gap is its edge time times one of the
/// config's dispatch intervals.
pub proof fn lemma_schedule_gaps(config: ConfigView, labels: Seq<u32>, n: nat)
    requires
        n <= config.trains,
        n > 1 ==> config.interval_choices.len() > 0,
        spec_schedule(config, labels, n).fits,
    ensures
        spec_schedule(config, labels, n).spawns.len() == n,
        forall|i: int| 0 <= i < n - 1 ==> #[trigger] dispatch_gap_ok(
            config,
            spec_schedule(config, labels, n).spawns[i],
            spec_schedule(config, labels, n).spawns[i + 1],
        ),
    decreases n,
{
    lemma_schedule_edges_len(config, labels, n);
    if n > 1 {
        let p = spec_schedule(config, labels, (n - 1) as nat);
        let s = spec_schedule(config, labels, n);
        lemma_schedule_fits_prefix(config, labels, n, (n - 1) as nat);
        lemma_schedule_gaps(config, labels, (n - 1) as nat);
        lemma_schedule_ticks(config, labels, n);
        lemma_schedule_ticks(config, labels, (n - 1) as nat);
        if n - 1 >= 1 {
            lemma_schedule_running_tick(config, labels, (n - 1) as nat);
        }
        lemma_schedule_tick_cast(config, labels, n);
        assert forall|i: int| 0 <= i < n - 1 implies #[trigger] dispatch_gap_ok(config, s.spawns[i], s.spawns[i + 1]) by {
            assert(s.spawns[i] == p.spawns[i]);
            if i < n - 2 {
                assert(s.spawns[i + 1] == p.spawns[i + 1]);
                assert(dispatch_gap_ok(config, p.spawns[i], p.spawns[i + 1]));
            } else {
                let j = choose|j: int| 0 <= j < config.interval_choices.len()
                    && p.tick == p.spawns[n - 2].tick as int + config.interval_choices[j] * p.spawns[n - 2].edge_ticks;
                assert(s.spawns[i + 1].tick == p.tick);
            }
        }
    }
}

/// The scorer after applying `outs` in order to a fresh one.
pub open spec fn score_of(outs: Seq<Outcome>) -> Scorer
    decreases outs.len(),
{
    if outs.len() == 0 {
        Scorer { score: 0, combo: 0, best_combo: 0, correct: 0, total: 0 }
    } else {
        spec_apply(score_of(outs.drop_last()), outs.last())
    }
}

/// A scorer built from few enough outcomes counts each one and stays in range.
pub proof fn lemma_score_of(outs: Seq<Outcome>)
    requires
        outs.len() <= MAX_SCHEDULE,
    ensures
        score_of(outs).total == outs.len(),
        score_of(outs).correct <= outs.len(),
        score_of(outs).combo <= outs.len(),
        score_of(outs).combo <= score_of(outs).best_combo,
        -20 * outs.len() <= score_of(outs).score <= 25 * outs.len(),
        outs.len() < MAX_SCHEDULE ==> score_of(outs).has_room(),
    decreases outs.len(),
{
    if outs.len() > 0 {
        let p = outs.drop_last();
        lemma_score_of(p);
        crate::score::lemma_points_bounds(score_of(p), outs.last());
        crate::score::lemma_combo_rules(score_of(p), outs.last());
    }
}

/// The simulation as mathematical values.
pub struct SimView {
    pub map: MapView,
    pub switches: Seq<bool>,
    pub schedule: Seq<TrainSpawn>,
    pub next_spawn: int,
    pub trains: Seq<Train>,
    pub scorer: Scorer,
    pub tick: int,
    pub outcomes: Seq<Outcome>,
}

/// Record one delivery outcome.
pub open spec fn record(v: SimView, o: Outcome) -> SimView {
    SimView { outcomes: v.outcomes.push(o), scorer: spec_apply(v.scorer, o), ..v }
}

/// Score a train at the node it is heading to (the root if it has none): a
/// dead-end loses it, a station scores it good when the label matches and bad
/// otherwise, and plain track records nothing.
pub open spec fn resolve_spec(v: SimView, t: Train) -> SimView {
    let node = match t.to {
        Some(n) => n as int,
        None => v.map.root,
    };
    match v.map.nodes[node].kind {
        NodeKind::DeadEnd => record(v, Outcome::Ugly),
        NodeKind::Station { label } => record(v, if label == t.dest { Outcome::Good } else { Outcome::Bad }),
        NodeKind::Track => v,
    }
}

/// The train a schedule entry puts on the board at the root.
pub open spec fn spawned(v: SimView, s: TrainSpawn) -> Train {
    Train {
        dest: s.dest,
        edge_ticks: if s.edge_ticks > 1 { s.edge_ticks } else { 1 },
        from: v.map.root as usize,
        to: spec_next(v.map.nodes[v.map.root], v.switches[v.map.root]),
        progress: 0,
    }
}

/// Where a train is scored decides its outcome: running into a dead-end
/// records `Ugly`, reaching the station with its own number records `Good`,
/// any other station records `Bad`; each is appended to the outcomes and fed
/// to the scorer. Plain track records nothing.
pub proof fn lemma_arrival_outcome(v: SimView, t: Train)
    ensures
        ({
            let node = match t.to {
                Some(n) => n as int,
                None => v.map.root,
            };
            let w = resolve_spec(v, t);
            &&& v.map.nodes[node].kind == NodeKind::DeadEnd ==> w.outcomes == v.outcomes.push(Outcome::Ugly)
                && w.scorer == spec_apply(v.scorer, Outcome::Ugly)
            &&& v.map.nodes[node].kind == (NodeKind::Station { label: t.dest }) ==> w.outcomes == v.outcomes.push(
                Outcome::Good,
            ) && w.scorer == spec_apply(v.scorer, Outcome::Good)
            &&& (v.map.nodes[node].kind matches NodeKind::Station { label } && label != t.dest) ==> w.outcomes
                == v.outcomes.push(Outcome::Bad) && w.scorer == spec_apply(v.scorer, Outcome::Bad)
            &&& v.map.nodes[node].kind == NodeKind::Track ==> w == v
        }),
{
}

/// Spawn every train due at the current tick: each heads for the root's active
/// child, or is scored at once when the root has none.
pub open spec fn spawn_all(v: SimView) -> SimView
    decreases v.schedule.len() - v.next_spawn,
{
    if 0 <= v.next_spawn < v.schedule.len() && v.schedule[v.next_spawn].tick == v.tick {
        let t = spawned(v, v.schedule[v.next_spawn]);
        let v1 = SimView { next_spawn: v.next_spawn + 1, ..v };
        if t.to is None {
            spawn_all(resolve_spec(v1, t))
        } else {
            spawn_all(SimView { trains: v1.trains.push(t), ..v1 })
        }
    } else {
        v
    }
}

/// The board while trains advance, with the indices of those already scored.
pub struct Advance {
    pub v: SimView,
    pub resolved: Seq<usize>,
}

/// Advance train `i` by one tick. On reaching the end of its edge it is scored
/// at a terminal, or turns onto the active next edge otherwise.
pub open spec fn advance_one(a: Advance, i: int) -> Advance {
    let t0 = a.v.trains[i];
    let t = Train { progress: (t0.progress + 1) as u32, ..t0 };
    if t.progress >= t.edge_ticks {
        let arrived = t.to->0 as int;
        if a.v.map.nodes[arrived].children.len() == 0 {
            let v1 = resolve_spec(a.v, t);
            Advance { v: SimView { trains: v1.trains.update(i, t), ..v1 }, resolved: a.resolved.push(i as usize) }
        } else {
            let t2 = Train {
                from: arrived as usize,
                to: spec_next(a.v.map.nodes[arrived], a.v.switches[arrived]),
                progress: 0,
                ..t
            };
            Advance { v: SimView { trains: a.v.trains.update(i, t2), ..a.v }, resolved: a.resolved }
        }
    } else {
        Advance { v: SimView { trains: a.v.trains.update(i, t), ..a.v }, resolved: a.resolved }
    }
}

/// Advance the first `k` trains, in index order.
pub open spec fn advance_upto(v: SimView, k: int) -> Advance
    decreases k,
{
    if k <= 0 {
        Advance { v, resolved: Seq::empty() }
    } else {
        advance_one(advance_upto(v, k - 1), k - 1)
    }
}

/// Remove entry `i` by moving the last entry into its place.
pub open spec fn swap_out(s: Seq<Train>, i: int) -> Seq<Train> {
    s.update(i, s.last()).drop_last()
}

/// Remove the entries at `r`, highest index first.
pub open spec fn remove_rev(s: Seq<Train>, r: Seq<usize>) -> Seq<Train>
    decreases r.len(),
{
    if r.len() == 0 {
        s
    } else {
        remove_rev(swap_out(s, r.last() as int), r.drop_last())
    }
}

/// One tick: spawn the trains due now, advance every train, drop the scored
/// ones, and move the clock on.
#[verifier::opaque]
pub open spec fn step_spec(v: SimView) -> SimView {
    let s = spawn_all(v);
    let a = advance_upto(s, s.trains.len() as int);
    SimView {
        map: v.map,
        switches: v.switches,
        schedule: v.schedule,
        next_spawn: s.next_spawn,
        trains: remove_rev(a.v.trains, a.resolved),
        scorer: a.v.scorer,
        tick: v.tick + 1,
        outcomes: a.v.outcomes,
    }
}

/// A step moves the clock on by one and keeps the map, the switches and the
/// schedule.
pub proof fn lemma_step_tick(v: SimView)
    ensures
        step_spec(v).tick == v.tick + 1,
        step_spec(v).map == v.map,
        step_spec(v).switches == v.switches,
        step_spec(v).schedule == v.schedule,
{
    reveal(step_spec);
}

/// Every scheduled train has spawned and left the board.
pub open spec fn finished(v: SimView) -> bool {
    v.next_spawn >= v.schedule.len() && v.trains.len() == 0
}

/// Step until finished or until the clock reaches `max_ticks`.
pub open spec fn run_spec(v: SimView, max_ticks: u32) -> SimView
    decreases max_ticks - v.tick,
{
    if !finished(v) && v.tick < max_ticks {
        proof {
            lemma_step_tick(v);
        }
        run_spec(step_spec(v), max_ticks)
    } else {
        v
    }
}

/// Flip the switch at `node` when it is one.
pub open spec fn toggle_spec(v: SimView, node: int) -> SimView {
    if 0 <= node < v.map.nodes.len() && v.map.nodes[node].kind == NodeKind::Track && v.map.nodes[node].children.len() == 2 {
        SimView { switches: v.switches.update(node, !v.switches[node]), ..v }
    } else {
        v
    }
}

/// A train on the board of `m`: it travels an edge that exists, with at least
/// one tick per edge and progress short of the end.
pub open spec fn train_ok(m: MapView, t: Train) -> bool {
    &&& t.from < m.nodes.len()
    &&& t.to matches Some(c) && c < m.nodes.len()
    &&& 1 <= t.edge_ticks
    &&& t.progress < t.edge_ticks
}

/// A running game: the map is a finished tree with one switch state per node,
/// every spawned train is either on the board or scored exactly once, and the
/// scorer is the sum of the recorded outcomes.
pub open spec fn sim_ok(v: SimView) -> bool {
    &&& tree_ok(v.map)
    &&& v.switches.len() == v.map.nodes.len()
    &&& 0 <= v.next_spawn <= v.schedule.len() <= MAX_SCHEDULE
    &&& v.next_spawn == v.trains.len() + v.outcomes.len()
    &&& v.scorer == score_of(v.outcomes)
    &&& forall|i: int| 0 <= i < v.trains.len() ==> train_ok(v.map, #[trigger] v.trains[i])
    &&& 0 <= v.tick <= u32::MAX
}

/// A running game.
#[derive(Clone, Debug)]
pub struct Simulation {
    map: TrackMap,
    /// Active child per node (`false` = child 0). Only meaningful for switches.
    switches: Vec<bool>,
    schedule: Vec<TrainSpawn>,
    next_spawn: usize,
    trains: Vec<Train>,
    scorer: Scorer,
    tick: u32,
    outcomes: Vec<Outcome>,
}

impl View for Simulation {
    type V = SimView;

    closed spec fn view(&self) -> SimView {
        SimView {
            map: self.map@,
            switches: self.switches@,
            schedule: self.schedule@,
            next_spawn: self.next_spawn as int,
            trains: self.trains@,
            scorer: self.scorer,
            tick: self.tick as int,
            outcomes: self.outcomes@,
        }
    }
}

/// The simulation a config starts: its map, all switches on child 0, its
/// schedule, and nothing spawned or scored yet.
pub open spec fn spec_start(config: ConfigView) -> SimView {
    let map = spec_generate(config);
    SimView {
        map,
        switches: Seq::new(map.nodes.len(), |i: int| false),
        schedule: spec_schedule(config, map.labels, config.trains as nat).spawns,
        next_spawn: 0,
        trains: Seq::empty(),
        scorer: Scorer { score: 0, combo: 0, best_combo: 0, correct: 0, total: 0 },
        tick: 0,
        outcomes: Seq::empty(),
    }
}

/// What a config must satisfy for its round to be simulated: a tree the
/// generator can build, room in every score counter, and a schedule whose
/// dispatch ticks fit.
pub open spec fn config_ok(config: ConfigView) -> bool {
    &&& config.tree_height <= MAX_TREE_HEIGHT
    &&& config.trains <= MAX_SCHEDULE
    &&& config.trains > 0 ==> config.edge_ticks_choices.len() > 0 && config.interval_choices.len() > 0
    &&& spec_schedule(config, spec_generate(config).labels, config.trains as nat).fits
}

impl Simulation {
    /// The game is in a consistent state (see `sim_ok`).
    pub closed spec fn wf(&self) -> bool {
        sim_ok(self@)
    }

    /// A consistent game satisfies every clause of `sim_ok`.
    pub proof fn lemma_wf(&self)
        requires
            self.wf(),
        ensures
            sim_ok(self@),
    {
    }

    /// Create a fresh simulation from a config.
    pub fn new(config: &GameConfig) -> (r: Self)
        requires
            config_ok(config@),
        ensures
            r@ == spec_start(config@),
            r.wf(),
    {
        let map = TrackMap::generate(config);
        let schedule = generate_schedule(config, map.labels.as_slice());
        let mut switches: Vec<bool> = Vec::new();
        let mut i: usize = 0;
        while i < map.nodes.len()
            invariant
                i <= map.nodes@.len(),
                switches@ == Seq::new(i as nat, |j: int| false),
            decreases map.nodes@.len() - i,
        {
            switches.push(false);
            i = i + 1;
            proof {
                assert(switches@ =~= Seq::new(i as nat, |j: int| false));
            }
        }
        let r = Simulation {
            map,
            switches,
            schedule,
            next_spawn: 0,
            trains: Vec::new(),
            scorer: Scorer::new(),
            tick: 0,
            outcomes: Vec::new(),
        };
        proof {
            assert(r@.switches.len() == r@.map.nodes.len());
            assert(score_of(r@.outcomes) == r.scorer);
        }
        r
    }

    /// The map, for rendering.
    pub fn map(&self) -> (r: &TrackMap)
        ensures
            r@ == self@.map,
    {
        &self.map
    }

    /// The switch states, one per node.
    pub fn switches(&self) -> (r: &[bool])
        ensures
            r@ == self@.switches,
    {
        self.switches.as_slice()
    }

    /// The trains on the board.
    pub fn trains(&self) -> (r: &[Train])
        ensures
            r@ == self@.trains,
    {
        self.trains.as_slice()
    }

    /// The scorer so far.
    pub fn scorer(&self) -> (r: &Scorer)
        ensures
            *r == self@.scorer,
    {
        &self.scorer
    }

    /// The current tick.
    pub fn tick(&self) -> (r: u32)
        ensures
            r == self@.tick,
    {
        self.tick
    }

    /// The whole train schedule.
    pub fn schedule(&self) -> (r: &[TrainSpawn])
        ensures
            r@ == self@.schedule,
    {
        self.schedule.as_slice()
    }

    /// Every outcome so far, in order.
    pub fn outcomes(&self) -> (r: &[Outcome])
        ensures
            r@ == self@.outcomes,
    {
        self.outcomes.as_slice()
    }

    /// Flip the switch at `node`; nothing happens when `node` is not a switch.
    /// This is the only player action.
    pub fn toggle(&mut self, node: usize)
        requires
            old(self).wf(),
        ensures
            final(self)@ == toggle_spec(old(self)@, node as int),
            final(self).wf(),
    {
        if node < self.map.nodes.len() && self.map.nodes[node].is_switch() {
            proof {
                assert(self@.map.nodes[node as int] == self.map.nodes@[node as int]@);
            }
            let cur = self.switches[node];
            self.switches.set(node, !cur);
        } else {
            proof {
                if (node as int) < self@.map.nodes.len() {
                    assert(self@.map.nodes[node as int] == self.map.nodes@[node as int]@);
                }
            }
        }
    }

    /// True once every scheduled train has spawned and left the board.
    pub fn is_finished(&self) -> (r: bool)
        ensures
            r == finished(self@),
    {
        self.next_spawn >= self.schedule.len() && self.trains.len() == 0
    }

    /// The active next node from `node`.
    fn active_next(&self, node: usize) -> (r: Option<usize>)
        requires
            node < self.map.nodes@.len(),
            self.switches@.len() == self.map.nodes@.len(),
        ensures
            r == spec_next(self@.map.nodes[node as int], self@.switches[node as int]),
    {
        self.map.next(node, self.switches[node])
    }

    /// Score a train at the node it is heading to.
    fn resolve(&mut self, train: &Train)
        requires
            old(self).scorer == score_of(old(self).outcomes@),
            old(self).outcomes@.len() < MAX_SCHEDULE,
            old(self).map.root < old(self).map.nodes@.len(),
            train.to matches Some(n) ==> n < old(self).map.nodes@.len(),
        ensures
            final(self)@ == resolve_spec(old(self)@, *train),
    {
        let node = match train.to {
            Some(n) => n,
            None => self.map.root,
        };
        proof {
            assert(self@.map.nodes[node as int] == self.map.nodes@[node as int]@);
            lemma_score_of(self.outcomes@);
        }
        let outcome = match self.map.nodes[node].kind {
            NodeKind::DeadEnd => Outcome::Ugly,
            NodeKind::Station { label } => {
                if label == train.dest {
                    Outcome::Good
                } else {
                    Outcome::Bad
                }
            },
            NodeKind::Track => {
                return ;
            },
        };
        self.outcomes.push(outcome);
        self.scorer.apply(outcome);
    }

    /// Spawn every train due at the current tick.
    fn spawn_due(&mut self)
        requires
            old(self).wf(),
        ensures
            final(self)@ == spawn_all(old(self)@),
            final(self).wf(),
            final(self)@.map == old(self)@.map,
            final(self)@.switches == old(self)@.switches,
            final(self)@.schedule == old(self)@.schedule,
            final(self)@.tick == old(self)@.tick,
    {
        let ghost v0 = self@;
        while self.next_spawn < self.schedule.len() && self.schedule[self.next_spawn].tick == self.tick
            invariant
                self.wf(),
                spawn_all(v0) == spawn_all(self@),
                self@.map == v0.map,
                self@.switches == v0.switches,
                self@.schedule == v0.schedule,
                self@.tick == v0.tick,
            decreases self@.schedule.len() - self@.next_spawn,
        {
            let ghost cur = self@;
            let s = self.schedule[self.next_spawn];
            self.next_spawn = self.next_spawn + 1;
            let root = self.map.root;
            proof {
                crate::map::lemma_next_is_child(self@.map, root as int, self@.switches[root as int]);
            }
            let to = self.active_next(root);
            let train = Train {
                dest: s.dest,
                edge_ticks: if s.edge_ticks > 1 { s.edge_ticks } else { 1 },
                from: root,
                to,
                progress: 0,
            };
            proof {
                assert(train == spawned(cur, cur.schedule[cur.next_spawn]));
                lemma_score_of(self.outcomes@);
            }
            if train.to.is_none() {
                let ghost mid = self@;
                self.resolve(&train);
                proof {
                    assert(mid.map.nodes[mid.map.root].kind !is Track);
                    assert(self@.outcomes.drop_last() =~= mid.outcomes);
                }
            } else {
                let ghost mid = self@;
                self.trains.push(train);
                proof {
                    assert forall|i: int| 0 <= i < self@.trains.len() implies train_ok(self@.map, #[trigger] self@.trains[i]) by {
                        if i < mid.trains.len() {
                            assert(self@.trains[i] == mid.trains[i]);
                        }
                    }
                }
            }
        }
    }

    /// Advance every train one tick, scoring those that reach a terminal.
    /// Returns the indices of the scored trains, in increasing order.
    fn advance_all(&mut self) -> (resolved: Vec<usize>)
        requires
            old(self).wf(),
        ensures
            ({
                let a = advance_upto(old(self)@, old(self)@.trains.len() as int);
                &&& final(self)@ == a.v
                &&& resolved@ == a.resolved
            }),
            final(self)@.map == old(self)@.map,
            final(self)@.switches == old(self)@.switches,
            final(self)@.schedule == old(self)@.schedule,
            final(self)@.tick == old(self)@.tick,
            final(self)@.next_spawn == old(self)@.next_spawn,
            final(self)@.trains.len() == old(self)@.trains.len(),
            final(self)@.scorer == score_of(final(self)@.outcomes),
            final(self)@.outcomes.len() + final(self)@.trains.len() == final(self)@.next_spawn + resolved@.len(),
            forall|x: int, y: int| 0 <= x < y < resolved@.len() ==> resolved@[x] < resolved@[y],
            forall|x: int| 0 <= x < resolved@.len() ==> #[trigger] resolved@[x] < final(self)@.trains.len(),
            forall|j: int|
                0 <= j < final(self)@.trains.len() && (forall|x: int| 0 <= x < resolved@.len() ==> resolved@[x] != j)
                    ==> train_ok(final(self)@.map, #[trigger] final(self)@.trains[j]),
    {
        let ghost v0 = self@;
        let mut resolved: Vec<usize> = Vec::new();
        let mut i: usize = 0;
        while i < self.trains.len()
            invariant
                v0 == old(self)@,
                sim_ok(v0),
                i <= self@.trains.len(),
                ({
                    let a = advance_upto(v0, i as int);
                    &&& self@ == a.v
                    &&& resolved@ == a.resolved
                }),
                self@.map == v0.map,
                self@.switches == v0.switches,
                self@.schedule == v0.schedule,
                self@.tick == v0.tick,
                self@.next_spawn == v0.next_spawn,
                self@.trains.len() == v0.trains.len(),
                self.map.root < self.map.nodes@.len(),
                self.scorer == score_of(self.outcomes@),
                self@.outcomes.len() + self@.trains.len() == self@.next_spawn + resolved@.len(),
                forall|x: int, y: int| 0 <= x < y < resolved@.len() ==> resolved@[x] < resolved@[y],
                forall|x: int| 0 <= x < resolved@.len() ==> #[trigger] resolved@[x] < i,
                forall|j: int| i <= j < self@.trains.len() ==> #[trigger] self@.trains[j] == v0.trains[j],
                forall|j: int|
                    0 <= j < i && (forall|x: int| 0 <= x < resolved@.len() ==> resolved@[x] != j)
                        ==> train_ok(self@.map, #[trigger] self@.trains[j]),
            decreases self@.trains.len() - i,
        {
            let ghost cur = self@;
            let ghost a = advance_upto(v0, i as int);
            let mut t = self.trains[i];
            proof {
                assert(self@.trains[i as int] == v0.trains[i as int]);
                assert(train_ok(v0.map, v0.trains[i as int]));
                if resolved@.len() > 0 {
                    lemma_incr_bound(resolved@, i as int, 0);
                }
            }
            t.progress = t.progress + 1;
            if t.progress >= t.edge_ticks {
                let arrived = t.to.unwrap();
                proof {
                    assert(self@.map.nodes[arrived as int] == self.map.nodes@[arrived as int]@);
                }
                if self.map.nodes[arrived].is_terminal() {
                    self.resolve(&t);
                    proof {
                        crate::map::lemma_next_is_child(self@.map, arrived as int, false);
                        assert(cur.map.nodes[arrived as int].kind !is Track);
                        assert(self@.outcomes.drop_last() =~= cur.outcomes);
                    }
                    resolved.push(i);
                } else {
                    proof {
                        crate::map::lemma_next_is_child(self@.map, arrived as int, self@.switches[arrived as int]);
                    }
                    t.from = arrived;
                    t.to = self.active_next(arrived);
                    t.progress = 0;
                }
            }
            let ghost mid = self@;
            self.trains.set(i, t);
            proof {
                let na = advance_upto(v0, i + 1);
                assert(na == advance_one(a, i as int));
                assert(self@ == na.v);
                assert forall|j: int|
                    0 <= j < i + 1 && (forall|x: int| 0 <= x < resolved@.len() ==> resolved@[x] != j)
                        implies train_ok(self@.map, #[trigger] self@.trains[j]) by {
                    if j < i {
                        assert(self@.trains[j] == cur.trains[j]);
                        assert forall|x: int| 0 <= x < a.resolved.len() implies a.resolved[x] != j by {
                            assert(resolved@[x] == a.resolved[x]);
                        }
                    } else if resolved@.len() > a.resolved.len() {
                        assert(resolved@[resolved@.len() - 1] == j);
                    }
                }
            }
            i = i + 1;
        }
        resolved
    }

    /// Advance the simulation by exactly one tick: spawn the trains due now,
    /// advance every train and score arrivals, then move the clock on. Switch
    /// inputs for this tick are applied by the caller before the call.
    pub fn step(&mut self)
        requires
            old(self).wf(),
            old(self)@.tick < u32::MAX,
        ensures
            final(self)@ == step_spec(old(self)@),
            final(self).wf(),
    {
        proof {
            reveal(step_spec);
        }
        self.spawn_due();
        let resolved = self.advance_all();
        let ghost m = self@.map;
        remove_resolved(&mut self.trains, &resolved, Ghost(m));
        self.tick = self.tick + 1;
    }

    /// Run to completion, or until the clock reaches `max_ticks`, and return
    /// the final scorer.
    pub fn run_to_end(&mut self, max_ticks: u32) -> (r: &Scorer)
        requires
            old(self).wf(),
        ensures
            final(self)@ == run_spec(old(self)@, max_ticks),
            final(self).wf(),
            *r == final(self)@.scorer,
    {
        while !self.is_finished() && self.tick < max_ticks
            invariant
                self.wf(),
                run_spec(old(self)@, max_ticks) == run_spec(self@, max_ticks),
            decreases max_ticks - self@.tick,
        {
            let ghost prev = self@;
            self.step();
            proof {
                lemma_step_tick(prev);
            }
        }
        &self.scorer
    }
}

/// Remove the trains at the increasing indices `resolved`, highest first, each
/// by moving the last train into its place.
fn remove_resolved(trains: &mut Vec<Train>, resolved: &Vec<usize>, Ghost(m): Ghost<MapView>)
    requires
        forall|x: int, y: int| 0 <= x < y < resolved@.len() ==> resolved@[x] < resolved@[y],
        forall|x: int| 0 <= x < resolved@.len() ==> #[trigger] resolved@[x] < old(trains)@.len(),
        forall|j: int|
            0 <= j < old(trains)@.len() && (forall|x: int| 0 <= x < resolved@.len() ==> resolved@[x] != j)
                ==> train_ok(m, #[trigger] old(trains)@[j]),
    ensures
        final(trains)@ == remove_rev(old(trains)@, resolved@),
        final(trains)@.len() == old(trains)@.len() - resolved@.len(),
        forall|j: int| 0 <= j < final(trains)@.len() ==> train_ok(m, #[trigger] final(trains)@[j]),
{
    let ghost r = resolved@;
    let ghost n = old(trains)@.len();
    let mut k = resolved.len();
    proof {
        assert(r.subrange(0, k as int) =~= r);
    }
    while k > 0
        invariant
            r == resolved@,
            n == old(trains)@.len(),
            k <= r.len(),
            forall|x: int, y: int| 0 <= x < y < r.len() ==> r[x] < r[y],
            forall|x: int| 0 <= x < r.len() ==> #[trigger] r[x] < n,
            remove_rev(old(trains)@, r) == remove_rev(trains@, r.subrange(0, k as int)),
            trains@.len() == n - (r.len() - k),
            forall|j: int|
                0 <= j < trains@.len() && (forall|x: int| 0 <= x < k ==> r[x] != j)
                    ==> train_ok(m, #[trigger] trains@[j]),
        decreases k,
    {
        k = k - 1;
        let x = resolved[k];
        proof {
            lemma_incr_bound(r, n as int, k as int);
        }
        let ghost cur = trains@;
        trains.swap_remove(x);
        proof {
            assert(r.subrange(0, k + 1).drop_last() =~= r.subrange(0, k as int));
            assert(trains@ == swap_out(cur, x as int));
            assert forall|j: int|
                0 <= j < trains@.len() && (forall|y: int| 0 <= y < k ==> r[y] != j)
                    implies train_ok(m, #[trigger] trains@[j]) by {
                if j == x {
                    assert(trains@[j] == cur[cur.len() - 1]);
                    assert forall|y: int| 0 <= y < k + 1 implies r[y] != cur.len() - 1 by {
                        if y < k {
                            assert(r[y] < r[k as int]);
                        }
                    }
                } else {
                    assert(trains@[j] == cur[j]);
                    assert forall|y: int| 0 <= y < k + 1 implies r[y] != j by {}
                }
            }
        }
    }
    proof {
        assert(r.subrange(0, 0) =~= Seq::<usize>::empty());
    }
}

/// A strictly increasing list of indices below `n` leaves room for its tail.
proof fn lemma_incr_bound(r: Seq<usize>, n: int, t: int)
    requires
        forall|x: int, y: int| 0 <= x < y < r.len() ==> r[x] < r[y],
        forall|x: int| 0 <= x < r.len() ==> #[trigger] r[x] < n,
        0 <= t < r.len(),
    ensures
        r[t] + (r.len() - t) <= n,
    decreases r.len() - t,
{
    if t + 1 < r.len() {
        lemma_incr_bound(r, n, t + 1);
    }
}

/// Toggling the same node twice leaves the game as it was.
pub proof fn lemma_toggle_twice(v: SimView, node: int)
    requires
        sim_ok(v),
    ensures
        toggle_spec(toggle_spec(v, node), node) == v,
{
    let t = toggle_spec(v, node);
    if t != v {
        assert(t.switches.update(node, !t.switches[node]) =~= v.switches);
    }
}

/// Toggling a node that is not a switch (a terminal, straight track, or an
/// index past the map) changes nothing.
pub proof fn lemma_toggle_non_switch(v: SimView, node: int)
    requires
        !(0 <= node < v.map.nodes.len() && v.map.nodes[node].kind == NodeKind::Track && v.map.nodes[node].children.len() == 2),
    ensures
        toggle_spec(v, node) == v,
{
}

/// Once a game is finished, every scheduled train has been scored exactly once.
pub proof fn lemma_finished_all_scored(v: SimView)
    requires
        sim_ok(v),
        finished(v),
    ensures
        v.outcomes.len() == v.schedule.len(),
        v.scorer.total == v.schedule.len(),
{
    lemma_score_of(v.outcomes);
}

/// With edge times of at most 240 ticks and intervals of at most 3 edges, a
/// schedule of `n` trains dispatches within `720 * n` ticks.
proof fn lemma_schedule_bounded(config: ConfigView, labels: Seq<u32>, n: nat)
    requires
        n <= 1_000_000,
        n > 0 ==> config.edge_ticks_choices.len() > 0 && config.interval_choices.len() > 0,
        forall|i: int| 0 <= i < config.edge_ticks_choices.len() ==> #[trigger] config.edge_ticks_choices[i] <= 240,
        forall|i: int| 0 <= i < config.interval_choices.len() ==> #[trigger] config.interval_choices[i] <= 3,
    ensures
        spec_schedule(config, labels, n).fits,
        0 <= spec_schedule(config, labels, n).tick <= 720 * n,
    decreases n,
{
    if n > 0 {
        let p = spec_schedule(config, labels, (n - 1) as nat);
        lemma_schedule_bounded(config, labels, (n - 1) as nat);
        lemma_schedule_rng(config, labels, (n - 1) as nat);
        let cnt = (if labels.len() > 1 { labels.len() } else { 1 }) as u32;
        let d = spec_below(p.rng, cnt);
        crate::rng::lemma_below_bounds(p.rng, cnt);
        let e = spec_below(d.1, config.edge_ticks_choices.len() as u32);
        crate::rng::lemma_below_bounds(d.1, config.edge_ticks_choices.len() as u32);
        let v = spec_below(e.1, config.interval_choices.len() as u32);
        crate::rng::lemma_below_bounds(e.1, config.interval_choices.len() as u32);
        lemma_trunc_le(config.edge_ticks_choices.len() as usize);
        lemma_trunc_le(config.interval_choices.len() as usize);
        let edge = config.edge_ticks_choices[e.0 as int];
        let interval = config.interval_choices[v.0 as int];
        assert(edge <= 240);
        assert(interval <= 3);
        assert(interval * edge <= 720) by (nonlinear_arith)
            requires
                0 <= interval <= 3,
                0 <= edge <= 240,
        ;
    }
}

/// Every config on the difficulty curve can be simulated.
pub proof fn lemma_curve_ok(seed: u64, level: u32)
    ensures
        config_ok(spec_curve(seed, level)),
{
    let c = spec_curve(seed, level);
    crate::config::lemma_edge_times_floor(level);
    crate::config::lemma_curve_bounds(level);
    lemma_schedule_bounded(c, spec_generate(c).labels, c.trains as nat);
}

} // verus!
