//! Self-play: two heuristic AIs fight a whole match, for balance tuning.
//! Because the AI and the turn resolution are pure and deterministic, every
//! match is reproducible.
use vstd::prelude::*;

use super::ai::{ai_orders, spec_ai_orders, AiLevel};
use super::arena::BattleConfig;
use super::resolve::{resolve_spec, resolve_turn, turn_fits, turn_fits_check};
use super::state::{spec_king_hp, BattleState, Status};
use super::Faction;

verus! {

/// `s` is the battle `BattleState::new(cfg)` starts.
pub open spec fn fresh_battle(cfg: BattleConfig, s: BattleState) -> bool {
    &&& s.cfg == cfg
    &&& s.arena.is_ladder_of(cfg)
    &&& s.towers@ == s.arena.towers@
    &&& s.trains@.len() == 0
    &&& s.steam[0] == cfg.steam_start
    &&& s.steam[1] == cfg.steam_start
    &&& s.switches[0]@ == Seq::new(s.arena.nodes@.len(), |i: int| 0u8)
    &&& s.switches[1]@ == Seq::new(s.arena.nodes@.len(), |i: int| 0u8)
    &&& s.tick == 0
    &&& s.turn == 0
    &&& s.status == Status::Ongoing
}

/// `t` follows `s` by one turn in which A plays at level `a` and B at level
/// `b`: the battle was ongoing, the turn fits the engine's limits, and `t` is
/// what resolving both AIs' orders gives.
pub open spec fn turn_played(s: BattleState, t: BattleState, a: AiLevel, b: AiLevel) -> bool {
    let oa = spec_ai_orders(s, Faction::A, a);
    let ob = spec_ai_orders(s, Faction::B, b);
    &&& s.status == Status::Ongoing
    &&& turn_fits(s, oa, ob)
    &&& t@ == resolve_spec(s, oa, ob).0
    &&& t.arena == s.arena
    &&& t.cfg == s.cfg
}

/// `h` is a match from a fresh battle on `cfg`, turn after turn.
pub open spec fn match_history(cfg: BattleConfig, h: Seq<BattleState>, a: AiLevel, b: AiLevel) -> bool {
    &&& h.len() >= 1
    &&& fresh_battle(cfg, h[0])
    &&& forall|i: int| 0 <= i < h.len() - 1 ==> #[trigger] turn_played(h[i], h[i + 1], a, b)
}

/// Play one match between an AI at level `a` (side A) and one at level `b`
/// (side B) to its end, and report the final status, the number of turns and
/// both Kings' hp. Every match ends, by a fallen King or at the turn cap. The
/// answer is `None` only when a turn would exceed the engine's limits.
pub fn self_play(cfg: BattleConfig, a: AiLevel, b: AiLevel) -> (r: Option<(Status, u32, i32, i32)>)
    requires
        cfg.valid(),
    ensures
        match r {
            Some((status, turns, king_a, king_b)) => exists|h: Seq<BattleState>| {
                &&& match_history(cfg, h, a, b)
                &&& (#[trigger] h.last()).status != Status::Ongoing
                &&& status == h.last().status
                &&& turns == h.last().turn
                &&& king_a == spec_king_hp(h.last().towers@, Faction::A)
                &&& king_b == spec_king_hp(h.last().towers@, Faction::B)
            },
            None => exists|h: Seq<BattleState>| {
                &&& match_history(cfg, h, a, b)
                &&& (#[trigger] h.last()).status == Status::Ongoing
                &&& !turn_fits(
                    h.last(),
                    spec_ai_orders(h.last(), Faction::A, a),
                    spec_ai_orders(h.last(), Faction::B, b),
                )
            },
        },
{
    let mut s = BattleState::new(cfg);
    let ghost mut h: Seq<BattleState> = seq![s];
    while !s.is_over()
        invariant
            s.wf(),
            s.cfg == cfg,
            match_history(cfg, h, a, b),
            h.last() == s,
            s.status == Status::Ongoing ==> s.turn <= cfg.max_turns,
        decreases (if s.status == Status::Ongoing { cfg.max_turns + 1 - s.turn } else { 0 }),
    {
        let oa = ai_orders(&s, Faction::A, a);
        let ob = ai_orders(&s, Faction::B, b);
        if !turn_fits_check(&s, &oa, &ob) {
            return None;
        }
        let ghost prev = s;
        resolve_turn(&mut s, &oa, &ob);
        proof {
            let h2 = h.push(s);
            assert(turn_played(prev, s, a, b));
            assert forall|i: int| 0 <= i < h2.len() - 1 implies #[trigger] turn_played(h2[i], h2[i + 1], a, b) by {
                if i < h.len() - 1 {
                    assert(h2[i] == h[i] && h2[i + 1] == h[i + 1]);
                } else {
                    assert(h2[i] == prev && h2[i + 1] == s);
                }
            }
            h = h2;
        }
    }
    let ka = s.king_hp(Faction::A);
    let kb = s.king_hp(Faction::B);
    Some((s.status, s.turn, ka, kb))
}

} // verus!
