//! Replays and server-side verification.
//!
//! A `Run` is the complete, compact record of a play-through: the seed and
//! level it was played on plus the switch toggles the player made and the tick
//! each happened. It is everything a server needs to recompute the score from
//! scratch and reject anything that doesn't add up.
use vstd::prelude::*;

use crate::config::{spec_curve, GameConfig, MAX_LEVEL};
use crate::score::Scorer;
use vstd::multiset::Multiset;

use crate::map::NodeKind;
use crate::sim::{finished, run_spec, spec_start, step_spec, toggle_spec, SimView, Simulation};

verus! {

/// A single player action: at tick `tick`, the player toggled switch `node`.
#[derive(Clone, Copy, Debug, PartialEq, Eq, Structural)]
pub struct Input {
    pub tick: u32,
    pub node: usize,
}

/// A full, replayable record of one game.
#[derive(Clone, Debug, PartialEq, Eq)]
pub struct Run {
    pub seed: u64,
    pub level: u32,
    /// Switch toggles in the order they were made (sorted by tick when verified).
    pub inputs: Vec<Input>,
    /// The score the client claims it achieved. It is only ever compared.
    pub claimed_score: i32,
}

/// Why a submitted run was rejected.
#[derive(Clone, Copy, Debug, PartialEq, Eq, Structural)]
pub enum RejectReason {
    /// The claimed score does not match the authoritative re-simulation.
    ScoreMismatch { claimed: i32, actual: i32 },
    /// An input referenced a tick beyond the run, or inputs were absurdly many.
    MalformedInput,
}

/// The authoritative result of verifying a run.
#[derive(Clone, Copy, Debug, PartialEq, Eq, Structural)]
pub struct Verified {
    /// The score the server computed and will store.
    pub score: i32,
    pub correct: u32,
    pub total: u32,
    pub best_combo: u32,
}

/// A generous bound so verifying a malicious run cannot go on forever.
pub const MAX_TICKS: u32 = 50_000_000;

/// No legitimate session needs more toggles than this.
pub const MAX_INPUTS: usize = 1_000_000;

/// A run as mathematical values.
pub struct RunView {
    pub seed: u64,
    pub level: u32,
    pub inputs: Seq<Input>,
    pub claimed_score: i32,
}

impl View for Run {
    type V = RunView;

    open spec fn view(&self) -> RunView {
        RunView { seed: self.seed, level: self.level, inputs: self.inputs@, claimed_score: self.claimed_score }
    }
}

/// Where `x` goes in the tick-sorted list `s`: after every entry whose tick is
/// not later than its own, so equal ticks keep their order.
pub open spec fn tick_slot(s: Seq<Input>, x: Input) -> int
    decreases s.len(),
{
    if s.len() == 0 {
        0
    } else if x.tick < s.last().tick {
        tick_slot(s.drop_last(), x)
    } else {
        s.len() as int
    }
}

/// The first `k` inputs, stably sorted by tick.
pub open spec fn sort_inputs(s: Seq<Input>, k: int) -> Seq<Input>
    decreases k,
{
    if k <= 0 {
        Seq::empty()
    } else {
        let p = sort_inputs(s, k - 1);
        p.insert(tick_slot(p, s[k - 1]), s[k - 1])
    }
}

/// Apply every input due at the game's current tick, starting at `next`; returns
/// the game and the index of the first input not applied.
pub open spec fn apply_due(v: SimView, ins: Seq<Input>, next: int) -> (SimView, int)
    decreases ins.len() - next,
{
    if 0 <= next < ins.len() && ins[next].tick == v.tick {
        apply_due(toggle_spec(v, ins[next].node as int), ins, next + 1)
    } else {
        (v, next)
    }
}

/// Toggles never move the clock.
pub proof fn lemma_apply_due_tick(v: SimView, ins: Seq<Input>, next: int)
    ensures
        apply_due(v, ins, next).0.tick == v.tick,
        apply_due(v, ins, next).1 >= next,
    decreases ins.len() - next,
{
    if 0 <= next < ins.len() && ins[next].tick == v.tick {
        lemma_apply_due_tick(toggle_spec(v, ins[next].node as int), ins, next + 1);
    }
}

/// Replay from `v` with the inputs from `next` on: each tick first applies the
/// inputs due then, rejects the run (`None`) when an input is left for a tick
/// already past, and steps; it stops once the game is finished or the clock
/// reaches `MAX_TICKS`.
pub open spec fn replay_spec(v: SimView, ins: Seq<Input>, next: int) -> Option<SimView>
    decreases MAX_TICKS - v.tick,
{
    if !finished(v) && v.tick < MAX_TICKS {
        let d = apply_due(v, ins, next);
        if 0 <= d.1 < ins.len() && ins[d.1].tick < v.tick {
            None
        } else {
            proof {
                lemma_apply_due_tick(v, ins, next);
                crate::sim::lemma_step_tick(d.0);
            }
            replay_spec(step_spec(d.0), ins, d.1)
        }
    } else {
        Some(v)
    }
}

/// The verdict on a finished re-simulation: accepted with the re-simulated
/// score when it equals the claim, rejected with both scores otherwise.
pub open spec fn verdict(v: SimView, claimed: i32) -> Result<Verified, RejectReason> {
    if v.scorer.score != claimed {
        Err(RejectReason::ScoreMismatch { claimed, actual: v.scorer.score })
    } else {
        Ok(Verified {
            score: v.scorer.score,
            correct: v.scorer.correct,
            total: v.scorer.total,
            best_combo: v.scorer.best_combo,
        })
    }
}

/// Some input is timed at tick `t` or later.
pub open spec fn has_input_from(s: Seq<Input>, t: int) -> bool {
    exists|i: int| 0 <= i < s.len() && (#[trigger] s[i]).tick >= t
}

/// The verdict on a run: too many inputs, an input left for a tick already
/// past, or an input timed at or beyond the tick where the re-simulated run
/// ends is malformed; otherwise the re-simulated score is accepted only when
/// it equals the claimed score.
pub open spec fn verify_spec(run: RunView) -> Result<Verified, RejectReason> {
    if run.inputs.len() > MAX_INPUTS {
        Err(RejectReason::MalformedInput)
    } else {
        let ins = sort_inputs(run.inputs, run.inputs.len() as int);
        match replay_spec(spec_start(spec_curve(run.seed, run.level)), ins, 0) {
            None => Err(RejectReason::MalformedInput),
            Some(v) => if has_input_from(run.inputs, v.tick) {
                Err(RejectReason::MalformedInput)
            } else {
                verdict(v, run.claimed_score)
            },
        }
    }
}

/// Stable insertion sort of the inputs by tick.
fn sort_by_tick(s: &Vec<Input>) -> (r: Vec<Input>)
    ensures
        r@ == sort_inputs(s@, s@.len() as int),
{
    let mut r: Vec<Input> = Vec::new();
    let mut k: usize = 0;
    while k < s.len()
        invariant
            k <= s@.len(),
            r@ == sort_inputs(s@, k as int),
            r@.len() == k,
        decreases s@.len() - k,
    {
        let v = s[k];
        let mut i = r.len();
        proof {
            assert(r@.subrange(0, i as int) =~= r@);
        }
        while i > 0 && v.tick < r[i - 1].tick
            invariant
                i <= r@.len(),
                tick_slot(r@, v) == tick_slot(r@.subrange(0, i as int), v),
            decreases i,
        {
            proof {
                assert(r@.subrange(0, i as int).drop_last() =~= r@.subrange(0, i - 1));
            }
            i = i - 1;
        }
        proof {
            assert(tick_slot(r@.subrange(0, i as int), v) == i);
        }
        r.insert(i, v);
        k = k + 1;
    }
    r
}

/// Re-simulate a run from scratch and return the authoritative score, or a
/// reason to reject it. A server stores `Verified.score`, never the claim.
pub fn verify(run: &Run) -> (r: Result<Verified, RejectReason>)
    requires
        run.level <= MAX_LEVEL,
    ensures
        r == verify_spec(run@),
{
    if run.inputs.len() > MAX_INPUTS {
        return Err(RejectReason::MalformedInput);
    }
    let cfg = GameConfig::new(run.seed, run.level);
    proof {
        crate::sim::lemma_curve_ok(run.seed, run.level);
    }
    let mut sim = Simulation::new(&cfg);
    // Apply inputs in tick order; sorting makes a shuffled payload verify the same.
    let inputs = sort_by_tick(&run.inputs);
    let ghost ins = inputs@;
    let ghost v0 = sim@;
    proof {
        lemma_sort_inputs(run.inputs@, run.inputs@.len() as int);
    }
    let mut next: usize = 0;
    while !sim.is_finished() && sim.tick() < MAX_TICKS
        invariant
            sim.wf(),
            inputs@ == ins,
            ins == sort_inputs(run.inputs@, run.inputs@.len() as int),
            forall|i: int, j: int| 0 <= i <= j < ins.len() ==> ins[i].tick <= ins[j].tick,
            run.inputs@.len() <= MAX_INPUTS,
            v0 == spec_start(spec_curve(run.seed, run.level)),
            next <= ins.len(),
            forall|i: int| 0 <= i < next ==> (#[trigger] ins[i]).tick < sim@.tick,
            forall|i: int| next <= i < ins.len() ==> (#[trigger] ins[i]).tick >= sim@.tick,
            replay_spec(v0, ins, 0) == replay_spec(sim@, ins, next as int),
        decreases MAX_TICKS - sim@.tick,
    {
        let now = sim.tick();
        let ghost start = sim@;
        let ghost start_next = next;
        // Apply every toggle scheduled for this tick before stepping.
        while next < inputs.len() && inputs[next].tick == now
            invariant
                sim.wf(),
                inputs@ == ins,
                start_next <= next <= ins.len(),
                sim@.tick == now,
                forall|i: int| start_next <= i < next ==> (#[trigger] ins[i]).tick == now,
                apply_due(start, ins, start_next as int) == apply_due(sim@, ins, next as int),
            decreases ins.len() - next,
        {
            sim.toggle(inputs[next].node);
            next = next + 1;
        }
        // An input left for a tick already past means a forged payload.
        if next < inputs.len() && inputs[next].tick < now {
            return Err(RejectReason::MalformedInput);
        }
        let ghost mid = sim@;
        proof {
            assert(apply_due(start, ins, start_next as int) == (mid, next as int));
            assert(replay_spec(start, ins, start_next as int) == replay_spec(step_spec(mid), ins, next as int));
        }
        sim.step();
        proof {
            crate::sim::lemma_step_tick(mid);
            if next < ins.len() {
                assert(ins[next as int].tick > now);
                assert forall|i: int| next <= i < ins.len() implies (#[trigger] ins[i]).tick >= sim@.tick by {
                    assert(ins[next as int].tick <= ins[i].tick);
                }
            }
        }
    }
    proof {
        assert(replay_spec(v0, ins, 0) == Some(sim@));
        assert(run.inputs@.subrange(0, run.inputs@.len() as int) =~= run.inputs@);
        lemma_inputs_from(run.inputs@, ins, next as int, sim@.tick);
    }
    // An input timed at or after the tick where the run ended was never played.
    if next < inputs.len() {
        return Err(RejectReason::MalformedInput);
    }
    let final_score = sim.scorer();
    if final_score.score != run.claimed_score {
        return Err(RejectReason::ScoreMismatch { claimed: run.claimed_score, actual: final_score.score });
    }
    Ok(Verified {
        score: final_score.score,
        correct: final_score.correct,
        total: final_score.total,
        best_combo: final_score.best_combo,
    })
}

/// Split at `next` into inputs before tick `t` and inputs from it on, a list
/// holding the same inputs as `s` has one from `t` on exactly when `next` is
/// short of its end.
proof fn lemma_inputs_from(s: Seq<Input>, ins: Seq<Input>, next: int, t: int)
    requires
        ins.to_multiset() == s.to_multiset(),
        0 <= next <= ins.len(),
        forall|i: int| 0 <= i < next ==> (#[trigger] ins[i]).tick < t,
        forall|i: int| next <= i < ins.len() ==> (#[trigger] ins[i]).tick >= t,
    ensures
        has_input_from(s, t) <==> next < ins.len(),
{
    if next < ins.len() {
        let x = ins[next];
        assert(ins.contains(x));
        vstd::seq_lib::to_multiset_contains(ins, x);
        vstd::seq_lib::to_multiset_contains(s, x);
        let i = choose|i: int| 0 <= i < s.len() && s[i] == x;
        assert(s[i].tick >= t);
    }
    if has_input_from(s, t) {
        let i = choose|i: int| 0 <= i < s.len() && (#[trigger] s[i]).tick >= t;
        let x = s[i];
        assert(s.contains(x));
        vstd::seq_lib::to_multiset_contains(ins, x);
        vstd::seq_lib::to_multiset_contains(s, x);
        let j = choose|j: int| 0 <= j < ins.len() && ins[j] == x;
        assert(ins[j].tick >= t);
    }
}

/// In a tick-sorted list, the slot for `x` has every earlier entry at or
/// before `x`'s tick and every later entry after it.
proof fn lemma_tick_slot(s: Seq<Input>, x: Input)
    requires
        forall|i: int, j: int| 0 <= i <= j < s.len() ==> s[i].tick <= s[j].tick,
    ensures
        0 <= tick_slot(s, x) <= s.len(),
        forall|i: int| 0 <= i < tick_slot(s, x) ==> s[i].tick <= x.tick,
        forall|i: int| tick_slot(s, x) <= i < s.len() ==> s[i].tick > x.tick,
    decreases s.len(),
{
    if s.len() > 0 {
        if x.tick < s.last().tick {
            lemma_tick_slot(s.drop_last(), x);
            let k = tick_slot(s, x);
            assert forall|i: int| 0 <= i < k implies s[i].tick <= x.tick by {
                assert(s[i] == s.drop_last()[i]);
            }
            assert forall|i: int| k <= i < s.len() implies s[i].tick > x.tick by {
                if i < s.len() - 1 {
                    assert(s[i] == s.drop_last()[i]);
                }
            }
        } else {
            assert forall|i: int| 0 <= i < s.len() implies s[i].tick <= x.tick by {
                assert(s[i].tick <= s[s.len() - 1].tick);
            }
        }
    }
}

/// Sorting the inputs keeps exactly the same inputs, as many times each, and
/// puts them in tick order.
pub proof fn lemma_sort_inputs(s: Seq<Input>, k: int)
    requires
        0 <= k <= s.len(),
    ensures
        sort_inputs(s, k).len() == k,
        sort_inputs(s, k).to_multiset() == s.subrange(0, k).to_multiset(),
        forall|i: int, j: int| 0 <= i <= j < k ==> sort_inputs(s, k)[i].tick <= sort_inputs(s, k)[j].tick,
    decreases k,
{
    broadcast use vstd::seq_lib::to_multiset_build, vstd::seq_lib::to_multiset_insert;

    if k == 0 {
        assert(s.subrange(0, 0) =~= Seq::<Input>::empty());
    } else {
        lemma_sort_inputs(s, k - 1);
        let p = sort_inputs(s, k - 1);
        let x = s[k - 1];
        let at = tick_slot(p, x);
        lemma_tick_slot(p, x);
        let q = sort_inputs(s, k);
        assert(q == p.insert(at, x));
        assert(s.subrange(0, k) =~= s.subrange(0, k - 1).push(x));
        assert forall|i: int, j: int| 0 <= i <= j < k implies q[i].tick <= q[j].tick by {
            if i < at && j < at {
                assert(q[i] == p[i] && q[j] == p[j]);
            } else if i < at && j == at {
                assert(q[i] == p[i]);
            } else if i < at {
                assert(q[i] == p[i] && q[j] == p[j - 1]);
            } else if i == at && j > at {
                assert(q[j] == p[j - 1]);
            } else if i > at {
                assert(q[i] == p[i - 1] && q[j] == p[j - 1]);
            }
        }
    }
}

/// A run whose replay completes with every input played is accepted exactly
/// when its claimed score is the re-simulated one, and then the stored score
/// is that re-simulated score; otherwise the rejection names both scores.
pub proof fn lemma_verify_verdict(run: RunView)
    requires
        run.inputs.len() <= MAX_INPUTS,
        replay_spec(spec_start(spec_curve(run.seed, run.level)), sort_inputs(run.inputs, run.inputs.len() as int), 0) is Some,
        !has_input_from(
            run.inputs,
            replay_spec(spec_start(spec_curve(run.seed, run.level)), sort_inputs(run.inputs, run.inputs.len() as int), 0)->0.tick,
        ),
    ensures
        ({
            let v = replay_spec(spec_start(spec_curve(run.seed, run.level)), sort_inputs(run.inputs, run.inputs.len() as int), 0)->0;
            &&& verify_spec(run) is Ok <==> run.claimed_score == v.scorer.score
            &&& verify_spec(run) matches Ok(r) ==> r.score == v.scorer.score && r.total == v.scorer.total
            &&& verify_spec(run) matches Err(e) ==> e == (RejectReason::ScoreMismatch { claimed: run.claimed_score, actual: v.scorer.score })
        }),
{
}

/// An accepted run's stored score is always the score it claimed.
pub proof fn lemma_accepted_score_is_claimed(run: RunView)
    ensures
        verify_spec(run) matches Ok(r) ==> r.score == run.claimed_score,
{
}

/// How many times `x` occurs in `s`.
pub open spec fn occurrences(s: Seq<Input>, x: Input) -> nat
    decreases s.len(),
{
    if s.len() == 0 {
        0
    } else {
        (if s[0] == x { 1nat } else { 0nat }) + occurrences(s.drop_first(), x)
    }
}

/// Occurrences add up over a concatenation.
proof fn lemma_occurrences_add(a: Seq<Input>, b: Seq<Input>, x: Input)
    ensures
        occurrences(a + b, x) == occurrences(a, x) + occurrences(b, x),
    decreases a.len(),
{
    if a.len() > 0 {
        assert((a + b).drop_first() =~= a.drop_first() + b);
        lemma_occurrences_add(a.drop_first(), b, x);
    } else {
        assert(a + b =~= b);
    }
}

/// A one-entry sequence holds `x` once if the entry is `x`, else never.
proof fn lemma_occurrences_single(a: Input, x: Input)
    ensures
        occurrences(seq![a], x) == if a == x { 1nat } else { 0nat },
{
    assert(seq![a].drop_first() =~= Seq::<Input>::empty());
    assert(occurrences(Seq::<Input>::empty(), x) == 0);
}

/// Counting in the multiset of a sequence is counting occurrences.
proof fn lemma_occurrences_count(s: Seq<Input>, x: Input)
    ensures
        s.to_multiset().count(x) == occurrences(s, x),
    decreases s.len(),
{
    broadcast use vstd::multiset::group_multiset_axioms;

    if s.len() == 0 {
        vstd::seq_lib::to_multiset_contains(s, x);
        assert(!s.contains(x));
        assert(occurrences(s, x) == 0);
    } else {
        let p = s.drop_last();
        let a = s.last();
        lemma_occurrences_count(p, x);
        assert(s =~= p.push(a));
        vstd::seq_lib::to_multiset_build(p, a);
        assert(s.to_multiset() =~= p.to_multiset().insert(a));
        assert(p.push(a) =~= p + seq![a]);
        lemma_occurrences_add(p, seq![a], x);
        lemma_occurrences_single(a, x);
        assert(occurrences(s, x) == occurrences(p, x) + occurrences(seq![a], x));
    }
}

/// Node `i` is a switch of the game's map.
pub open spec fn is_switch_at(v: SimView, i: int) -> bool {
    0 <= i < v.map.nodes.len() && v.map.nodes[i].kind == NodeKind::Track && v.map.nodes[i].children.len() == 2
}

/// The game after toggling, at tick `t`, every switch once per toggle of it in
/// `m`: a switch flips exactly when it was toggled an odd number of times.
pub open spec fn flip_by(v: SimView, m: Multiset<Input>, t: u32) -> SimView {
    SimView {
        switches: Seq::new(
            v.switches.len(),
            |i: int|
                if is_switch_at(v, i) && i <= usize::MAX && m.count(Input { tick: t, node: i as usize }) % 2 == 1 {
                    !v.switches[i]
                } else {
                    v.switches[i]
                },
        ),
        ..v
    }
}

/// A run driven by the multiset `m` of toggles: each tick, flip the switches
/// toggled then, and step, until the game is finished or the clock reaches
/// `MAX_TICKS`.
pub open spec fn replay_multiset(v: SimView, m: Multiset<Input>) -> SimView
    decreases MAX_TICKS - v.tick,
{
    if !finished(v) && v.tick < MAX_TICKS {
        proof {
            crate::sim::lemma_step_tick(flip_by(v, m, v.tick as u32));
        }
        replay_multiset(step_spec(flip_by(v, m, v.tick as u32)), m)
    } else {
        v
    }
}

/// Applying the block `k..end` of inputs, all due at the game's tick, flips
/// each switch by the parity of its toggles in that block.
proof fn lemma_apply_block(w: SimView, ins: Seq<Input>, k: int, end: int)
    requires
        0 <= k <= end <= ins.len(),
        w.switches.len() == w.map.nodes.len(),
        forall|i: int| k <= i < end ==> (#[trigger] ins[i]).tick == w.tick,
        end < ins.len() ==> ins[end].tick != w.tick,
        0 <= w.tick <= u32::MAX,
    ensures
        apply_due(w, ins, k) == (flip_by(w, ins.subrange(k, end).to_multiset(), w.tick as u32), end),
    decreases end - k,
{
    let t = w.tick as u32;
    if k < end {
        let n = ins[k].node as int;
        let w1 = toggle_spec(w, n);
        lemma_apply_block(w1, ins, k + 1, end);
        let rest = ins.subrange(k + 1, end);
        let blk = ins.subrange(k, end);
        assert(blk =~= seq![ins[k]] + rest);
        assert(seq![ins[k]].drop_first() =~= Seq::<Input>::empty());
        let lhs = flip_by(w1, rest.to_multiset(), t);
        let rhs = flip_by(w, blk.to_multiset(), t);
        assert forall|i: int| 0 <= i < w.switches.len() implies lhs.switches[i] == rhs.switches[i] by {
            assert(is_switch_at(w1, i) == is_switch_at(w, i));
            if i <= usize::MAX {
                let x = Input { tick: t, node: i as usize };
                lemma_occurrences_count(rest, x);
                lemma_occurrences_count(blk, x);
                lemma_occurrences_add(seq![ins[k]], rest, x);
                lemma_occurrences_single(ins[k], x);
                assert(ins[k].tick == t);
                let cr = rest.to_multiset().count(x);
                let cb = blk.to_multiset().count(x);
                if i == n {
                    assert(ins[k] == x);
                    assert(cb == cr + 1);
                    if is_switch_at(w, i) {
                        assert(w1.switches[i] == !w.switches[i]);
                        assert((cr % 2 == 1) == !(cb % 2 == 1));
                    }
                } else {
                    assert(ins[k].node != i as usize);
                    assert(ins[k] != x);
                    assert(cb == cr);
                    assert(w1.switches[i] == w.switches[i]);
                }
            } else {
                assert(i != n);
                assert(w1.switches[i] == w.switches[i]);
            }
        }
        assert(lhs.switches =~= rhs.switches);
    } else {
        let e = ins.subrange(k, end);
        assert(e =~= Seq::<Input>::empty());
        assert forall|i: int| 0 <= i < w.switches.len() implies flip_by(w, e.to_multiset(), t).switches[i] == w.switches[i] by {
            lemma_occurrences_count(e, Input { tick: t, node: i as usize });
        }
        assert(flip_by(w, e.to_multiset(), t).switches =~= w.switches);
    }
}

/// The first index at or after `k` whose input is not due at tick `t`.
pub open spec fn block_end(ins: Seq<Input>, k: int, t: int) -> int
    decreases ins.len() - k,
{
    if 0 <= k < ins.len() && ins[k].tick == t {
        block_end(ins, k + 1, t)
    } else {
        k
    }
}

proof fn lemma_block_end(ins: Seq<Input>, k: int, t: int)
    requires
        0 <= k <= ins.len(),
    ensures
        k <= block_end(ins, k, t) <= ins.len(),
        forall|i: int| k <= i < block_end(ins, k, t) ==> (#[trigger] ins[i]).tick == t,
        block_end(ins, k, t) < ins.len() ==> ins[block_end(ins, k, t)].tick != t,
    decreases ins.len() - k,
{
    if k < ins.len() && ins[k].tick == t {
        lemma_block_end(ins, k + 1, t);
    }
}

/// Replaying tick-sorted inputs, positioned at the first input not yet due,
/// never finds a late input and ends where the run driven by the multiset of
/// inputs ends.
proof fn lemma_replay_sorted(v: SimView, ins: Seq<Input>, next: int)
    requires
        forall|i: int, j: int| 0 <= i <= j < ins.len() ==> ins[i].tick <= ins[j].tick,
        0 <= next <= ins.len(),
        forall|i: int| 0 <= i < next ==> (#[trigger] ins[i]).tick < v.tick,
        forall|i: int| next <= i < ins.len() ==> (#[trigger] ins[i]).tick >= v.tick,
        v.switches.len() == v.map.nodes.len(),
        0 <= v.tick <= u32::MAX,
    ensures
        replay_spec(v, ins, next) == Some(replay_multiset(v, ins.to_multiset())),
    decreases MAX_TICKS - v.tick,
{
    if !finished(v) && v.tick < MAX_TICKS {
        let t = v.tick;
        let end = block_end(ins, next, t);
        lemma_block_end(ins, next, t);
        lemma_apply_block(v, ins, next, end);
        let m = ins.to_multiset();
        let f = flip_by(v, ins.subrange(next, end).to_multiset(), t as u32);
        let g = flip_by(v, m, t as u32);
        assert forall|i: int| 0 <= i < v.switches.len() implies f.switches[i] == g.switches[i] by {
            let x = Input { tick: t as u32, node: i as usize };
            lemma_occurrences_count(ins, x);
            lemma_occurrences_count(ins.subrange(next, end), x);
            assert(ins =~= ins.subrange(0, next) + ins.subrange(next, end) + ins.subrange(end, ins.len() as int));
            lemma_occurrences_add(ins.subrange(0, next) + ins.subrange(next, end), ins.subrange(end, ins.len() as int), x);
            lemma_occurrences_add(ins.subrange(0, next), ins.subrange(next, end), x);
            lemma_occurrences_none(ins.subrange(0, next), x);
            lemma_occurrences_none(ins.subrange(end, ins.len() as int), x);
        }
        assert(f.switches =~= g.switches);
        assert(f == g);
        if end < ins.len() {
            assert(ins[end].tick > t);
        }
        crate::sim::lemma_step_tick(g);
        let w = step_spec(g);
        assert forall|i: int| end <= i < ins.len() implies (#[trigger] ins[i]).tick >= w.tick by {
            assert(ins[end].tick <= ins[i].tick);
        }
        assert forall|i: int| 0 <= i < end implies (#[trigger] ins[i]).tick < w.tick by {
        }
        lemma_replay_sorted(w, ins, end);
    }
}

/// A sequence none of whose entries is `x` has no occurrence of it.
proof fn lemma_occurrences_none(s: Seq<Input>, x: Input)
    requires
        forall|i: int| 0 <= i < s.len() ==> s[i] != x,
    ensures
        occurrences(s, x) == 0,
    decreases s.len(),
{
    if s.len() > 0 {
        assert(s[0] != x);
        lemma_occurrences_none(s.drop_first(), x);
    }
}

/// The verdict on the run driven by the multiset `m` of toggles from `start`:
/// a toggle timed at or beyond the tick where that run ends makes it
/// malformed; otherwise the claim is judged against its score.
pub open spec fn multiset_verdict(start: SimView, m: Multiset<Input>, claimed: i32) -> Result<Verified, RejectReason> {
    let w = replay_multiset(start, m);
    if exists|x: Input| #[trigger] m.count(x) > 0 && x.tick >= w.tick {
        Err(RejectReason::MalformedInput)
    } else {
        verdict(w, claimed)
    }
}

/// Verification depends on the toggles only as a multiset: a run with at most
/// `MAX_INPUTS` inputs gets the verdict of the run driven by the multiset of
/// its inputs (malformed exactly when some toggle is timed at or beyond the
/// tick where that run ends), so the order in which the inputs arrive makes no
/// difference.
pub proof fn lemma_verify_by_multiset(run: RunView)
    requires
        run.inputs.len() <= MAX_INPUTS,
    ensures
        verify_spec(run) == multiset_verdict(
            spec_start(spec_curve(run.seed, run.level)),
            run.inputs.to_multiset(),
            run.claimed_score,
        ),
{
    let s = run.inputs;
    let ins = sort_inputs(s, s.len() as int);
    lemma_sort_inputs(s, s.len() as int);
    assert(s.subrange(0, s.len() as int) =~= s);
    let v = spec_start(spec_curve(run.seed, run.level));
    lemma_replay_sorted(v, ins, 0);
    let m = s.to_multiset();
    let w = replay_multiset(v, m);
    if has_input_from(s, w.tick) {
        let i = choose|i: int| 0 <= i < s.len() && (#[trigger] s[i]).tick >= w.tick;
        assert(s.contains(s[i]));
        vstd::seq_lib::to_multiset_contains(s, s[i]);
        assert(m.count(s[i]) > 0 && s[i].tick >= w.tick);
    }
    if exists|x: Input| #[trigger] m.count(x) > 0 && x.tick >= w.tick {
        let x = choose|x: Input| #[trigger] m.count(x) > 0 && x.tick >= w.tick;
        vstd::seq_lib::to_multiset_contains(s, x);
        let i = choose|i: int| 0 <= i < s.len() && s[i] == x;
        assert(s[i].tick >= w.tick);
    }
}

/// Two runs that differ only in the order of their inputs get the same verdict.
pub proof fn lemma_verify_ignores_input_order(r1: RunView, r2: RunView)
    requires
        r1.seed == r2.seed,
        r1.level == r2.level,
        r1.claimed_score == r2.claimed_score,
        r1.inputs.to_multiset() == r2.inputs.to_multiset(),
    ensures
        verify_spec(r1) == verify_spec(r2),
{
    assert(r1.inputs.len() == r2.inputs.len()) by {
        vstd::seq_lib::to_multiset_len(r1.inputs);
        vstd::seq_lib::to_multiset_len(r2.inputs);
    }
    if r1.inputs.len() <= MAX_INPUTS {
        lemma_verify_by_multiset(r1);
        lemma_verify_by_multiset(r2);
    }
}

/// With no toggles, the run driven by the inputs is the plain run.
proof fn lemma_replay_no_inputs(v: SimView)
    ensures
        replay_multiset(v, Multiset::empty()) == run_spec(v, MAX_TICKS),
    decreases MAX_TICKS - v.tick,
{
    let f = flip_by(v, Multiset::empty(), v.tick as u32);
    assert(f.switches =~= v.switches);
    assert(f == v);
    if !finished(v) && v.tick < MAX_TICKS {
        crate::sim::lemma_step_tick(v);
        lemma_replay_no_inputs(step_spec(v));
    }
}

/// An honest run is accepted: replaying a game with no toggles and claiming
/// the score it reaches yields that very score, with its counters.
pub proof fn lemma_honest_run_verifies(seed: u64, level: u32)
    ensures
        ({
            let w = run_spec(spec_start(spec_curve(seed, level)), MAX_TICKS);
            verify_spec(RunView { seed, level, inputs: Seq::empty(), claimed_score: w.scorer.score }) == Ok::<Verified, RejectReason>(
                Verified {
                    score: w.scorer.score,
                    correct: w.scorer.correct,
                    total: w.scorer.total,
                    best_combo: w.scorer.best_combo,
                },
            )
        }),
{
    let v = spec_start(spec_curve(seed, level));
    let w = run_spec(v, MAX_TICKS);
    let run = RunView { seed, level, inputs: Seq::empty(), claimed_score: w.scorer.score };
    lemma_verify_by_multiset(run);
    assert(run.inputs.to_multiset() =~= Multiset::<Input>::empty()) by {
        broadcast use vstd::multiset::group_multiset_axioms;

        assert forall|x: Input| run.inputs.to_multiset().count(x) == 0 by {
            lemma_occurrences_count(run.inputs, x);
        }
    }
    lemma_replay_no_inputs(v);
    assert(!exists|x: Input| #[trigger] Multiset::<Input>::empty().count(x) > 0 && x.tick >= w.tick) by {
        broadcast use vstd::multiset::group_multiset_axioms;
    }
}

} // verus!
