//! Every train reaches a leaf: because the map is a tree whose child links
//! always lead to higher node indices, a train can take only so many edges
//! before it lands on a station or dead-end, whatever the switches say. So a
//! run finishes a bounded number of ticks after its last dispatch.
use vstd::prelude::*;

use crate::map::{spec_next, tree_ok, MapView, NodeKind};
use crate::sim::{
    advance_one, advance_upto, finished, remove_rev, resolve_spec, run_spec, spawn_all, spawned, spec_start,
    step_spec, swap_out, train_ok, score_of, config_ok, sim_ok, toggle_spec, Advance, SimView, Simulation, Train,
    MAX_SCHEDULE,
};
use crate::config::ConfigView;
use crate::map::spec_generate;

verus! {

/// An upper bound on the ticks train `t` still needs: the rest of its current
/// edge, then at most one edge of at most `e_max` ticks per node index left
/// above its target.
pub open spec fn remaining(t: Train, n: int, e_max: int) -> int {
    (t.edge_ticks - t.progress) + (n - 1 - t.to->0) * e_max
}

/// A train on the board with edges of at most `e_max` ticks and at most `k`
/// ticks left.
pub open spec fn train_within(m: MapView, t: Train, e_max: int, k: int) -> bool {
    &&& train_ok(m, t)
    &&& t.edge_ticks <= e_max
    &&& remaining(t, m.nodes.len() as int, e_max) <= k
}

/// The board: a tree map with one switch per node, room for every train still
/// to come, and every train within `k`.
pub open spec fn board_within(v: SimView, e_max: int, k: int) -> bool {
    &&& tree_ok(v.map)
    &&& v.trains.len() + (v.schedule.len() - v.next_spawn) <= MAX_SCHEDULE
    &&& v.switches.len() == v.map.nodes.len()
    &&& forall|i: int| 0 <= i < v.trains.len() ==> train_within(v.map, #[trigger] v.trains[i], e_max, k)
}

/// The schedule still to come: in tick order, none of it in the past, and
/// every edge time (raised to at least 1) at most `e_max`.
pub open spec fn pending_ok(v: SimView, e_max: int) -> bool {
    &&& 0 <= v.next_spawn <= v.schedule.len()
    &&& forall|i: int, j: int| 0 <= i <= j < v.schedule.len() ==> v.schedule[i].tick <= v.schedule[j].tick
    &&& forall|i: int| v.next_spawn <= i < v.schedule.len() ==> (#[trigger] v.schedule[i]).tick >= v.tick
    &&& forall|i: int| 0 <= i < v.schedule.len() ==> (#[trigger] v.schedule[i]).edge_ticks <= e_max
    &&& 1 <= e_max
}

/// Every dispatched train is on the board or scored once, and the scorer sums
/// the outcomes.
pub open spec fn counts_ok(v: SimView) -> bool {
    &&& v.next_spawn == v.trains.len() + v.outcomes.len()
    &&& v.scorer == score_of(v.outcomes)
}

/// Scoring a train that reached a leaf records exactly one outcome.
proof fn lemma_resolve_counts(v: SimView, t: Train)
    requires
        tree_ok(v.map),
        v.scorer == score_of(v.outcomes),
        ({
            let node = match t.to {
                Some(n) => n as int,
                None => v.map.root,
            };
            0 <= node < v.map.nodes.len() && v.map.nodes[node].children.len() == 0
        }),
    ensures
        resolve_spec(v, t).outcomes.len() == v.outcomes.len() + 1,
        resolve_spec(v, t).scorer == score_of(resolve_spec(v, t).outcomes),
{
    let w = resolve_spec(v, t);
    assert(w.outcomes.drop_last() =~= v.outcomes);
}

/// Scoring a train touches neither the board nor the schedule.
proof fn lemma_resolve_keeps(v: SimView, t: Train)
    ensures
        resolve_spec(v, t).map == v.map,
        resolve_spec(v, t).switches == v.switches,
        resolve_spec(v, t).schedule == v.schedule,
        resolve_spec(v, t).next_spawn == v.next_spawn,
        resolve_spec(v, t).trains == v.trains,
        resolve_spec(v, t).tick == v.tick,
{
}

/// A freshly spawned train is on the board within `n * e_max` ticks.
proof fn lemma_spawned_within(v: SimView, e_max: int)
    requires
        tree_ok(v.map),
        v.switches.len() == v.map.nodes.len(),
        0 <= v.next_spawn < v.schedule.len(),
        v.schedule[v.next_spawn].edge_ticks <= e_max,
        1 <= e_max,
        spawned(v, v.schedule[v.next_spawn]).to is Some,
    ensures
        train_within(v.map, spawned(v, v.schedule[v.next_spawn]), e_max, v.map.nodes.len() * e_max),
{
    let t = spawned(v, v.schedule[v.next_spawn]);
    let n = v.map.nodes.len() as int;
    crate::map::lemma_next_is_child(v.map, v.map.root, v.switches[v.map.root]);
    let c = t.to->0 as int;
    assert(0 < c < n);
    assert((n - 1 - c) * e_max <= (n - 1) * e_max) by (nonlinear_arith)
        requires
            0 < c < n,
            1 <= e_max,
    ;
    assert(t.edge_ticks - t.progress <= e_max);
    assert(e_max + (n - 1) * e_max == n * e_max) by (nonlinear_arith);
}

/// Spawning keeps the board within bounds (new trains need at most `n * e_max`
/// ticks) and leaves only future entries in the schedule.
proof fn lemma_spawn_all(v: SimView, e_max: int, k: int)
    requires
        board_within(v, e_max, k),
        counts_ok(v),
        pending_ok(v, e_max),
        k >= v.map.nodes.len() * e_max,
    ensures
        spawn_all(v).map == v.map,
        spawn_all(v).switches == v.switches,
        spawn_all(v).schedule == v.schedule,
        spawn_all(v).tick == v.tick,
        spawn_all(v).next_spawn >= v.next_spawn,
        v.next_spawn == v.schedule.len() ==> spawn_all(v) == v,
        board_within(spawn_all(v), e_max, k),
        counts_ok(spawn_all(v)),
        0 <= spawn_all(v).next_spawn <= v.schedule.len(),
        forall|i: int| spawn_all(v).next_spawn <= i < v.schedule.len() ==> (#[trigger] v.schedule[i]).tick > v.tick,
    decreases v.schedule.len() - v.next_spawn,
{
    if 0 <= v.next_spawn < v.schedule.len() && v.schedule[v.next_spawn].tick == v.tick {
        let t = spawned(v, v.schedule[v.next_spawn]);
        let v1 = SimView { next_spawn: v.next_spawn + 1, ..v };
        let v2 = if t.to is None {
            resolve_spec(v1, t)
        } else {
            SimView { trains: v1.trains.push(t), ..v1 }
        };
        lemma_resolve_keeps(v1, t);
        crate::map::lemma_next_is_child(v.map, v.map.root, v.switches[v.map.root]);
        if t.to is None {
            lemma_resolve_counts(v1, t);
        }
        if t.to is Some {
            lemma_spawned_within(v, e_max);
            assert forall|i: int| 0 <= i < v2.trains.len() implies train_within(v2.map, #[trigger] v2.trains[i], e_max, k) by {
                if i < v.trains.len() {
                    assert(v2.trains[i] == v.trains[i]);
                }
            }
        }
        assert(board_within(v2, e_max, k));
        assert(pending_ok(v2, e_max));
        assert(counts_ok(v2));
        lemma_spawn_all(v2, e_max, k);
    } else {
        assert forall|i: int| v.next_spawn <= i < v.schedule.len() implies (#[trigger] v.schedule[i]).tick > v.tick by {
            assert(v.schedule[v.next_spawn].tick <= v.schedule[i].tick);
        }
    }
}

/// Advancing train `i` changes only that train and, when it is scored, adds
/// `i` to the scored list; a train not scored is one tick closer to its end.
proof fn lemma_advance_one(a: Advance, i: int, e_max: int, bound: int)
    requires
        tree_ok(a.v.map),
        a.v.switches.len() == a.v.map.nodes.len(),
        1 <= e_max,
        0 <= i < a.v.trains.len(),
        train_within(a.v.map, a.v.trains[i], e_max, bound),
        a.v.scorer == score_of(a.v.outcomes),
    ensures
        ({
            let na = advance_one(a, i);
            &&& na.v.map == a.v.map
            &&& na.v.switches == a.v.switches
            &&& na.v.schedule == a.v.schedule
            &&& na.v.next_spawn == a.v.next_spawn
            &&& na.v.tick == a.v.tick
            &&& na.v.trains == a.v.trains.update(i, na.v.trains[i])
            &&& na.resolved == a.resolved || na.resolved == a.resolved.push(i as usize)
            &&& na.resolved == a.resolved ==> train_within(a.v.map, na.v.trains[i], e_max, bound - 1)
            &&& na.v.scorer == score_of(na.v.outcomes)
            &&& na.v.outcomes.len() == a.v.outcomes.len() + (na.resolved.len() - a.resolved.len())
        }),
{
    let t0 = a.v.trains[i];
    let t = Train { progress: (t0.progress + 1) as u32, ..t0 };
    let m = a.v.map;
    let n = m.nodes.len() as int;
    let na = advance_one(a, i);
    assert(t.progress == t0.progress + 1);
    if t.progress >= t.edge_ticks {
        let arrived = t.to->0 as int;
        if m.nodes[arrived].children.len() == 0 {
            lemma_resolve_keeps(a.v, t);
            lemma_resolve_counts(a.v, t);
            assert(na.resolved == a.resolved.push(i as usize));
            assert(na.v.trains =~= a.v.trains.update(i, na.v.trains[i]));
        } else {
            crate::map::lemma_next_is_child(m, arrived, a.v.switches[arrived]);
            let t2 = Train { from: arrived as usize, to: spec_next(m.nodes[arrived], a.v.switches[arrived]), progress: 0, ..t };
            let c = t2.to->0 as int;
            assert(arrived < c < n);
            assert((n - 1 - c) * e_max <= (n - 1 - arrived) * e_max - e_max) by (nonlinear_arith)
                requires
                    arrived < c,
                    1 <= e_max,
            ;
            assert(na.v.trains[i] == t2);
            assert(na.v.trains =~= a.v.trains.update(i, na.v.trains[i]));
            assert(train_within(a.v.map, t2, e_max, bound - 1));
        }
    } else {
        assert(na.v.trains =~= a.v.trains.update(i, na.v.trains[i]));
        assert(train_within(a.v.map, t, e_max, bound - 1));
    }
}

/// Advancing the first `k` trains keeps the rest as they were, and leaves each
/// advanced train either scored (listed in `resolved`, in increasing order) or
/// one tick closer to its end.
proof fn lemma_advance(s: SimView, e_max: int, bound: int, k: int)
    requires
        tree_ok(s.map),
        s.switches.len() == s.map.nodes.len(),
        forall|i: int| 0 <= i < s.trains.len() ==> train_within(s.map, #[trigger] s.trains[i], e_max, bound),
        s.trains.len() <= MAX_SCHEDULE,
        s.scorer == score_of(s.outcomes),
        1 <= e_max,
        0 <= k <= s.trains.len(),
    ensures
        ({
            let a = advance_upto(s, k);
            &&& a.v.map == s.map
            &&& a.v.switches == s.switches
            &&& a.v.schedule == s.schedule
            &&& a.v.next_spawn == s.next_spawn
            &&& a.v.tick == s.tick
            &&& a.v.trains.len() == s.trains.len()
            &&& a.v.scorer == score_of(a.v.outcomes)
            &&& a.v.outcomes.len() == s.outcomes.len() + a.resolved.len()
            &&& forall|i: int| k <= i < s.trains.len() ==> #[trigger] a.v.trains[i] == s.trains[i]
            &&& forall|x: int, y: int| 0 <= x < y < a.resolved.len() ==> a.resolved[x] < a.resolved[y]
            &&& forall|x: int| 0 <= x < a.resolved.len() ==> #[trigger] a.resolved[x] < k
            &&& forall|i: int|
                0 <= i < k && (forall|x: int| 0 <= x < a.resolved.len() ==> a.resolved[x] != i)
                    ==> train_within(s.map, #[trigger] a.v.trains[i], e_max, bound - 1)
        }),
    decreases k,
{
    if k > 0 {
        lemma_advance(s, e_max, bound, k - 1);
        let a = advance_upto(s, k - 1);
        let i = k - 1;
        let na = advance_upto(s, k);
        assert(na == advance_one(a, i));
        assert(a.v.trains[i] == s.trains[i]);
        lemma_advance_one(a, i, e_max, bound);
        if na.resolved == a.resolved {
            assert forall|j: int|
                0 <= j < k && (forall|x: int| 0 <= x < na.resolved.len() ==> na.resolved[x] != j)
                    implies train_within(s.map, #[trigger] na.v.trains[j], e_max, bound - 1) by {
                if j < i {
                    assert(na.v.trains[j] == a.v.trains[j]);
                }
            }
        } else {
            let r = na.resolved;
            assert(r == a.resolved.push(i as usize));
            assert forall|x: int, y: int| 0 <= x < y < r.len() implies r[x] < r[y] by {
                assert(r[x] == a.resolved[x]);
                if y < a.resolved.len() {
                    assert(r[y] == a.resolved[y]);
                }
            }
            assert forall|x: int| 0 <= x < r.len() implies #[trigger] r[x] < k by {
                if x < a.resolved.len() {
                    assert(r[x] == a.resolved[x]);
                }
            }
            assert forall|j: int|
                0 <= j < k && (forall|x: int| 0 <= x < r.len() ==> r[x] != j)
                    implies train_within(s.map, #[trigger] na.v.trains[j], e_max, bound - 1) by {
                if j < i {
                    assert(na.v.trains[j] == a.v.trains[j]);
                    assert forall|x: int| 0 <= x < a.resolved.len() implies a.resolved[x] != j by {
                        assert(r[x] == a.resolved[x]);
                    }
                } else {
                    assert(r[r.len() - 1] == j);
                }
            }
        }
        assert forall|j: int| k <= j < s.trains.len() implies #[trigger] na.v.trains[j] == s.trains[j] by {
            assert(na.v.trains[j] == a.v.trains[j]);
        }
    }
}

/// Removing scored trains keeps only trains that were not scored: whatever
/// held of all of those holds of every train left.
proof fn lemma_remove_rev(s: Seq<Train>, r: Seq<usize>, p: spec_fn(Train) -> bool)
    requires
        forall|x: int, y: int| 0 <= x < y < r.len() ==> r[x] < r[y],
        forall|x: int| 0 <= x < r.len() ==> #[trigger] r[x] < s.len(),
        forall|j: int| 0 <= j < s.len() && (forall|x: int| 0 <= x < r.len() ==> r[x] != j) ==> p(#[trigger] s[j]),
    ensures
        forall|j: int| 0 <= j < remove_rev(s, r).len() ==> p(#[trigger] remove_rev(s, r)[j]),
        remove_rev(s, r).len() == s.len() - r.len(),
    decreases r.len(),
{
    if r.len() > 0 {
        let x = r.last() as int;
        let s2 = swap_out(s, x);
        let r2 = r.drop_last();
        assert forall|j: int| 0 <= j < s2.len() && (forall|y: int| 0 <= y < r2.len() ==> r2[y] != j) implies p(#[trigger] s2[j]) by {
            if j == x {
                assert(s2[j] == s[s.len() - 1]);
                assert forall|y: int| 0 <= y < r.len() implies r[y] != s.len() - 1 by {
                    if y < r.len() - 1 {
                        assert(r[y] < r[r.len() - 1]);
                    }
                }
            } else {
                assert(s2[j] == s[j]);
                assert forall|y: int| 0 <= y < r.len() implies r[y] != j by {
                    if y < r.len() - 1 {
                        assert(r2[y] == r[y]);
                    }
                }
            }
        }
        assert forall|y: int| 0 <= y < r2.len() implies #[trigger] r2[y] < s2.len() by {
            assert(r2[y] == r[y]);
            assert(r[y] < r[r.len() - 1]);
        }
        lemma_remove_rev(s2, r2, p);
    }
}

/// One step: trains already on the board get one tick closer to their end,
/// new ones need at most `n * e_max` ticks, and the schedule left over is
/// still in the future.
proof fn lemma_step_within(v: SimView, e_max: int, k: int)
    requires
        board_within(v, e_max, k),
        counts_ok(v),
        pending_ok(v, e_max),
        k >= v.map.nodes.len() * e_max,
    ensures
        board_within(step_spec(v), e_max, k),
        pending_ok(step_spec(v), e_max),
        counts_ok(step_spec(v)),
        step_spec(v).next_spawn >= v.next_spawn,
        v.next_spawn == v.schedule.len() ==> board_within(step_spec(v), e_max, k - 1),
{
    reveal(step_spec);
    let s = spawn_all(v);
    lemma_spawn_all(v, e_max, k);
    let a = advance_upto(s, s.trains.len() as int);
    lemma_advance(s, e_max, k, s.trains.len() as int);
    let p = |t: Train| train_within(v.map, t, e_max, k - 1);
    assert forall|j: int|
        0 <= j < a.v.trains.len() && (forall|x: int| 0 <= x < a.resolved.len() ==> a.resolved[x] != j)
            implies p(#[trigger] a.v.trains[j]) by {
    }
    lemma_remove_rev(a.v.trains, a.resolved, p);
    let w = step_spec(v);
    assert forall|i: int| 0 <= i < w.trains.len() implies train_within(w.map, #[trigger] w.trains[i], e_max, k) by {
        assert(p(w.trains[i]));
    }
    if v.next_spawn == v.schedule.len() {
        assert forall|i: int| 0 <= i < w.trains.len() implies train_within(w.map, #[trigger] w.trains[i], e_max, k - 1) by {
            assert(p(w.trains[i]));
        }
    }
}

/// With nothing left to dispatch and every train within `k` ticks of its end,
/// a run given `k` more ticks finishes.
proof fn lemma_drain(v: SimView, max_ticks: u32, e_max: int, k: int)
    requires
        board_within(v, e_max, k),
        counts_ok(v),
        pending_ok(v, e_max),
        v.next_spawn == v.schedule.len(),
        v.tick + k <= max_ticks,
        k >= 0,
    ensures
        finished(run_spec(v, max_ticks)),
        counts_ok(run_spec(v, max_ticks)),
        run_spec(v, max_ticks).next_spawn <= v.schedule.len(),
    decreases k,
{
    if !finished(v) {
        assert(v.trains.len() > 0);
        assert(train_within(v.map, v.trains[0], e_max, k));
        let n = v.map.nodes.len() as int;
        let c = v.trains[0].to->0 as int;
        assert((n - 1 - c) * e_max >= 0) by (nonlinear_arith)
            requires
                c < n,
                1 <= e_max,
        ;
        assert(k >= 1);
        crate::sim::lemma_step_tick(v);
        let w = step_spec(v);
        if k - 1 >= n * e_max {
            lemma_step_within(v, e_max, k);
        } else {
            lemma_step_within_drain(v, e_max, k);
        }
        lemma_drain(w, max_ticks, e_max, k - 1);
    }
}

/// A step with nothing left to dispatch takes every train one tick closer to
/// its end, whatever the bound.
proof fn lemma_step_within_drain(v: SimView, e_max: int, k: int)
    requires
        board_within(v, e_max, k),
        counts_ok(v),
        pending_ok(v, e_max),
        v.next_spawn == v.schedule.len(),
    ensures
        board_within(step_spec(v), e_max, k - 1),
        pending_ok(step_spec(v), e_max),
        counts_ok(step_spec(v)),
        step_spec(v).next_spawn == v.schedule.len(),
{
    reveal(step_spec);
    let s = spawn_all(v);
    assert(s == v);
    let a = advance_upto(s, s.trains.len() as int);
    lemma_advance(s, e_max, k, s.trains.len() as int);
    let p = |t: Train| train_within(v.map, t, e_max, k - 1);
    assert forall|j: int|
        0 <= j < a.v.trains.len() && (forall|x: int| 0 <= x < a.resolved.len() ==> a.resolved[x] != j)
            implies p(#[trigger] a.v.trains[j]) by {
    }
    lemma_remove_rev(a.v.trains, a.resolved, p);
    let w = step_spec(v);
    assert forall|i: int| 0 <= i < w.trains.len() implies train_within(w.map, #[trigger] w.trains[i], e_max, k - 1) by {
        assert(p(w.trains[i]));
    }
}

/// Until the last dispatch tick has passed, every train stays within
/// `n * e_max` ticks of its end; after it, the board drains within that many
/// ticks. So a run given that long finishes, with every train scored once.
proof fn lemma_fill(v: SimView, max_ticks: u32, e_max: int, last: int)
    requires
        board_within(v, e_max, v.map.nodes.len() * e_max),
        counts_ok(v),
        pending_ok(v, e_max),
        forall|i: int| 0 <= i < v.schedule.len() ==> (#[trigger] v.schedule[i]).tick <= last,
        v.tick <= last + 1,
        last + 1 + v.map.nodes.len() * e_max <= max_ticks,
    ensures
        finished(run_spec(v, max_ticks)),
        counts_ok(run_spec(v, max_ticks)),
        run_spec(v, max_ticks).next_spawn <= v.schedule.len(),
    decreases last + 1 - v.tick,
{
    let k = v.map.nodes.len() * e_max;
    if v.tick > last {
        if v.next_spawn < v.schedule.len() {
            assert(v.schedule[v.next_spawn].tick >= v.tick);
        }
        assert((v.map.nodes.len() as int) * e_max >= 0) by (nonlinear_arith)
            requires
                1 <= e_max,
        ;
        lemma_drain(v, max_ticks, e_max, k);
    } else if !finished(v) {
        assert(k >= 0) by (nonlinear_arith)
            requires
                1 <= e_max,
                k == v.map.nodes.len() * e_max,
        ;
        crate::sim::lemma_step_tick(v);
        lemma_step_within(v, e_max, k);
        lemma_fill(step_spec(v), max_ticks, e_max, last);
    }
}

/// Every train of a fresh game is delivered: whatever the switches, a run given
/// `n * e_max` ticks beyond the last dispatch (with `n` nodes and no edge
/// slower than `e_max` ticks) finishes, and its scorer has counted each
/// scheduled train exactly once.
pub proof fn lemma_every_train_delivered(s: Simulation, c: ConfigView, max_ticks: u32, e_max: int)
    requires
        s.wf(),
        s@ == spec_start(c),
        config_ok(c),
        1 <= e_max,
        forall|i: int| 0 <= i < s@.schedule.len() ==> (#[trigger] s@.schedule[i]).edge_ticks <= e_max,
        s@.schedule.len() > 0 ==> s@.schedule.last().tick + 1 + s@.map.nodes.len() * e_max <= max_ticks,
    ensures
        finished(run_spec(s@, max_ticks)),
        run_spec(s@, max_ticks).scorer.total == c.trains,
{
    s.lemma_wf();
    let v = s@;
    let w = run_spec(v, max_ticks);
    lemma_start_facts(v, c);
    if v.schedule.len() > 0 {
        let last = v.schedule.last().tick as int;
        lemma_fill(v, max_ticks, e_max, last);
    }
    lemma_run_keeps(v, max_ticks);
    crate::sim::lemma_score_of(w.outcomes);
}

/// A fresh game's schedule runs in tick order from tick 0, holds one entry per
/// train, and its board is empty.
proof fn lemma_start_facts(v: SimView, c: ConfigView)
    requires
        v == spec_start(c),
        config_ok(c),
    ensures
        v.schedule.len() == c.trains,
        forall|i: int, j: int| 0 <= i <= j < v.schedule.len() ==> v.schedule[i].tick <= v.schedule[j].tick,
        v.tick == 0,
        v.next_spawn == 0,
        v.trains.len() == 0,
        v.outcomes.len() == 0,
{
    crate::sim::lemma_schedule_ticks(c, spec_generate(c).labels, c.trains as nat);
}

/// A run keeps the map, the switches and the schedule.
pub proof fn lemma_run_keeps(v: SimView, max_ticks: u32)
    ensures
        run_spec(v, max_ticks).map == v.map,
        run_spec(v, max_ticks).switches == v.switches,
        run_spec(v, max_ticks).schedule == v.schedule,
    decreases max_ticks - v.tick,
{
    if !finished(v) && v.tick < max_ticks {
        crate::sim::lemma_step_tick(v);
        lemma_run_keeps(step_spec(v), max_ticks);
    }
}

/// The schedule is in tick order and split at `next_spawn`: every train
/// dispatched so far was due before the current tick, every one still to come
/// is due now or later.
pub open spec fn spawn_order_ok(v: SimView) -> bool {
    &&& forall|i: int, j: int| 0 <= i <= j < v.schedule.len() ==> v.schedule[i].tick <= v.schedule[j].tick
    &&& forall|i: int| 0 <= i < v.next_spawn ==> (#[trigger] v.schedule[i]).tick < v.tick
    &&& forall|i: int| v.next_spawn <= i < v.schedule.len() ==> (#[trigger] v.schedule[i]).tick >= v.tick
}

/// One call a player or a driver makes on a running game.
pub enum Move {
    /// `toggle` on a node.
    Toggle(usize),
    /// `step`.
    Step,
}

/// The game after the calls `moves`, in order.
pub open spec fn play(v: SimView, moves: Seq<Move>) -> SimView
    decreases moves.len(),
{
    if moves.len() == 0 {
        v
    } else {
        let w = play(v, moves.drop_last());
        match moves.last() {
            Move::Toggle(n) => toggle_spec(w, n as int),
            Move::Step => step_spec(w),
        }
    }
}

/// How many of `moves` are steps.
pub open spec fn steps_in(moves: Seq<Move>) -> nat
    decreases moves.len(),
{
    if moves.len() == 0 {
        0
    } else {
        steps_in(moves.drop_last()) + if moves.last() is Step { 1nat } else { 0nat }
    }
}

/// `a` is an initial part of `b`.
pub open spec fn prefix_of(a: Seq<crate::score::Outcome>, b: Seq<crate::score::Outcome>) -> bool {
    a.len() <= b.len() && b.subrange(0, a.len() as int) == a
}

proof fn lemma_prefix_trans(a: Seq<crate::score::Outcome>, b: Seq<crate::score::Outcome>, c: Seq<crate::score::Outcome>)
    requires
        prefix_of(a, b),
        prefix_of(b, c),
    ensures
        prefix_of(a, c),
{
    assert(c.subrange(0, a.len() as int) =~= b.subrange(0, a.len() as int));
}

/// Scoring a train only ever appends to the outcomes.
proof fn lemma_resolve_prefix(v: SimView, t: Train)
    ensures
        prefix_of(v.outcomes, resolve_spec(v, t).outcomes),
{
    let w = resolve_spec(v, t);
    assert(w.outcomes.subrange(0, v.outcomes.len() as int) =~= v.outcomes);
}

/// Spawning dispatches exactly the entries due at the current tick, from
/// `next_spawn` on, and only appends to the outcomes.
proof fn lemma_spawn_due(v: SimView)
    requires
        0 <= v.next_spawn,
    ensures
        spawn_all(v).schedule == v.schedule,
        spawn_all(v).tick == v.tick,
        v.next_spawn <= spawn_all(v).next_spawn,
        forall|i: int| v.next_spawn <= i < spawn_all(v).next_spawn ==> (#[trigger] v.schedule[i]).tick == v.tick,
        prefix_of(v.outcomes, spawn_all(v).outcomes),
    decreases v.schedule.len() - v.next_spawn,
{
    if 0 <= v.next_spawn < v.schedule.len() && v.schedule[v.next_spawn].tick == v.tick {
        let t = spawned(v, v.schedule[v.next_spawn]);
        let v1 = SimView { next_spawn: v.next_spawn + 1, ..v };
        let v2 = if t.to is None {
            resolve_spec(v1, t)
        } else {
            SimView { trains: v1.trains.push(t), ..v1 }
        };
        lemma_resolve_keeps(v1, t);
        lemma_resolve_prefix(v1, t);
        assert(prefix_of(v.outcomes, v2.outcomes)) by {
            assert(v2.outcomes.subrange(0, v.outcomes.len() as int) =~= v1.outcomes.subrange(0, v.outcomes.len() as int)
                || v2.outcomes == v.outcomes);
            if v2.outcomes == v.outcomes {
                assert(v2.outcomes.subrange(0, v.outcomes.len() as int) =~= v.outcomes);
            }
        }
        lemma_spawn_due(v2);
        lemma_prefix_trans(v.outcomes, v2.outcomes, spawn_all(v2).outcomes);
    } else {
        assert(v.outcomes.subrange(0, v.outcomes.len() as int) =~= v.outcomes);
    }
}

/// Advancing trains touches neither the schedule nor the clock, and only
/// appends to the outcomes.
proof fn lemma_advance_history(s: SimView, k: int)
    ensures
        advance_upto(s, k).v.schedule == s.schedule,
        advance_upto(s, k).v.next_spawn == s.next_spawn,
        advance_upto(s, k).v.tick == s.tick,
        prefix_of(s.outcomes, advance_upto(s, k).v.outcomes),
    decreases k,
{
    if k <= 0 {
        assert(s.outcomes.subrange(0, s.outcomes.len() as int) =~= s.outcomes);
    } else {
        lemma_advance_history(s, k - 1);
        let a = advance_upto(s, k - 1);
        let i = k - 1;
        let t0 = a.v.trains[i];
        let t = Train { progress: (t0.progress + 1) as u32, ..t0 };
        let na = advance_one(a, i);
        assert(advance_upto(s, k) == na);
        if t.progress >= t.edge_ticks && a.v.map.nodes[t.to->0 as int].children.len() == 0 {
            lemma_resolve_keeps(a.v, t);
            lemma_resolve_prefix(a.v, t);
            lemma_prefix_trans(s.outcomes, a.v.outcomes, na.v.outcomes);
        } else {
            assert(na.v.outcomes == a.v.outcomes);
        }
    }
}

/// One step of a consistent game keeps it consistent and its schedule in
/// order; the clock moves on by one, the earlier outcomes stay as they were
/// with any new ones after them, the scorer counts every outcome, the trains
/// dispatched so far (scored or still running) are exactly the schedule
/// entries due at or before the tick just played, and every train still
/// running is on an edge, short of its end.
pub proof fn lemma_step_history(v: SimView)
    requires
        sim_ok(v),
        spawn_order_ok(v),
        v.tick < u32::MAX,
    ensures
        ({
            let w = step_spec(v);
            &&& sim_ok(w)
            &&& spawn_order_ok(w)
            &&& w.tick == v.tick + 1
            &&& prefix_of(v.outcomes, w.outcomes)
            &&& w.scorer.total == w.outcomes.len()
            &&& w.schedule == v.schedule
            &&& forall|i: int| 0 <= i < w.schedule.len() ==>
                ((#[trigger] w.schedule[i]).tick <= v.tick <==> i < w.outcomes.len() + w.trains.len())
            &&& forall|i: int| 0 <= i < w.trains.len() ==>
                (#[trigger] w.trains[i]).to is Some && w.trains[i].progress < w.trains[i].edge_ticks
        }),
{
    let e_max: int = 0x1_0000_0000;
    let n = v.map.nodes.len() as int;
    let k = n * e_max;
    assert forall|i: int| 0 <= i < v.trains.len() implies train_within(v.map, #[trigger] v.trains[i], e_max, k) by {
        let t = v.trains[i];
        let c = t.to->0 as int;
        assert((n - 1 - c) * e_max <= (n - 1) * e_max) by (nonlinear_arith)
            requires
                0 <= c < n,
                1 <= e_max,
        ;
        assert(e_max + (n - 1) * e_max == n * e_max) by (nonlinear_arith);
    }
    assert(board_within(v, e_max, k));
    assert(pending_ok(v, e_max));
    assert(counts_ok(v));
    lemma_step_within(v, e_max, k);
    crate::sim::lemma_step_tick(v);
    let w = step_spec(v);
    reveal(step_spec);
    let sp = spawn_all(v);
    lemma_spawn_due(v);
    lemma_advance_history(sp, sp.trains.len() as int);
    lemma_prefix_trans(v.outcomes, sp.outcomes, w.outcomes);
    assert(w.next_spawn == sp.next_spawn);
    crate::sim::lemma_score_of(w.outcomes);
    assert forall|i: int| 0 <= i < w.trains.len() implies train_ok(w.map, #[trigger] w.trains[i]) by {
        assert(train_within(w.map, w.trains[i], e_max, k));
    }
    assert forall|i: int| 0 <= i < w.next_spawn implies (#[trigger] w.schedule[i]).tick < w.tick by {
        if i >= v.next_spawn {
            assert(v.schedule[i].tick == v.tick);
        }
    }
    assert(sim_ok(w));
    assert(spawn_order_ok(w));
}

/// A toggle keeps a game consistent and its schedule in order.
proof fn lemma_toggle_history(v: SimView, node: int)
    requires
        sim_ok(v),
        spawn_order_ok(v),
    ensures
        sim_ok(toggle_spec(v, node)),
        spawn_order_ok(toggle_spec(v, node)),
        toggle_spec(v, node).tick == v.tick,
{
}

/// Every game reached from a fresh one by toggles and at most `u32::MAX`
/// steps is consistent, with its schedule in order and its clock at the
/// number of steps taken.
proof fn lemma_play_ok(v: SimView, moves: Seq<Move>)
    requires
        sim_ok(v),
        spawn_order_ok(v),
        v.tick + steps_in(moves) <= u32::MAX,
    ensures
        sim_ok(play(v, moves)),
        spawn_order_ok(play(v, moves)),
        play(v, moves).tick == v.tick + steps_in(moves),
    decreases moves.len(),
{
    if moves.len() > 0 {
        let p = moves.drop_last();
        lemma_play_ok(v, p);
        let w = play(v, p);
        match moves.last() {
            Move::Toggle(nd) => lemma_toggle_history(w, nd as int),
            Move::Step => lemma_step_history(w),
        }
    }
}

/// The history of a game only grows: in a game reached from a fresh one by
/// any toggles and steps (short of `u32::MAX` steps), one more step moves the
/// clock on by one, keeps the outcomes recorded so far as the start of the
/// new list, has the scorer count every outcome, makes the trains scored or
/// still running exactly the schedule entries due at or before the tick just
/// played, and leaves every running train on an edge, short of its end.
pub proof fn lemma_step_keeps_history(s: Simulation, c: ConfigView, moves: Seq<Move>)
    requires
        s.wf(),
        s@ == spec_start(c),
        config_ok(c),
        steps_in(moves) < u32::MAX,
    ensures
        ({
            let v = play(s@, moves);
            let w = step_spec(v);
            &&& w.tick == v.tick + 1
            &&& prefix_of(v.outcomes, w.outcomes)
            &&& w.scorer.total == w.outcomes.len()
            &&& forall|i: int| 0 <= i < w.schedule.len() ==>
                ((#[trigger] w.schedule[i]).tick <= v.tick <==> i < w.outcomes.len() + w.trains.len())
            &&& forall|i: int| 0 <= i < w.trains.len() ==>
                (#[trigger] w.trains[i]).to is Some && w.trains[i].progress < w.trains[i].edge_ticks
        }),
{
    s.lemma_wf();
    lemma_start_facts(s@, c);
    lemma_play_ok(s@, moves);
    lemma_step_history(play(s@, moves));
}

} // verus!
