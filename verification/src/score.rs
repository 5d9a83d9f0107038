//! Scoring and combo logic of the routing puzzle.
//!
//! Correct deliveries build a combo that pays an escalating bonus; mistakes
//! reset it. Feed the scorer the same outcomes in the same order and you get the
//! same totals — which is what server-side verification relies on.
use vstd::prelude::*;

verus! {

/// What happened when a train reached the end of its track.
#[derive(Clone, Copy, Debug, PartialEq, Eq, Structural)]
pub enum Outcome {
    /// Delivered to the station matching its number.
    Good,
    /// Delivered to the wrong station.
    Bad,
    /// Ran into a dead-end.
    Ugly,
}

pub const GOOD_POINTS: i32 = 10;
pub const BAD_POINTS: i32 = -10;
pub const UGLY_POINTS: i32 = -20;
pub const COMBO_STARTS_AT: u32 = 3;
pub const COMBO_STEP: i32 = 3;
pub const MAX_COMBO_BONUS: i32 = 15;

/// Longest combo whose bonus is computed without overflow.
pub const MAX_COMBO: u32 = 0x2AAA_AAA0;

/// Most deliveries whose accuracy percentage is computed without overflow.
pub const MAX_ACCURACY_COUNT: u32 = 42_949_672;

/// Running score state.
#[derive(Clone, Debug, Default, PartialEq, Eq)]
pub struct Scorer {
    pub score: i32,
    /// Current streak of consecutive correct deliveries.
    pub combo: u32,
    /// Longest streak reached this run.
    pub best_combo: u32,
    pub correct: u32,
    pub total: u32,
}

/// The combo bonus for a streak: 3 points per delivery from the third on,
/// capped at 15.
pub open spec fn spec_combo_bonus(combo: u32) -> int {
    if combo >= COMBO_STARTS_AT {
        cap_bonus((combo - COMBO_STARTS_AT + 1) * COMBO_STEP)
    } else {
        0
    }
}

/// A bonus capped at the maximum.
pub open spec fn cap_bonus(b: int) -> int {
    if b < MAX_COMBO_BONUS {
        b
    } else {
        MAX_COMBO_BONUS as int
    }
}

/// The points an outcome scores after a streak of `combo` correct deliveries.
pub open spec fn spec_points(combo: u32, outcome: Outcome) -> int {
    match outcome {
        Outcome::Good => GOOD_POINTS + spec_combo_bonus((combo + 1) as u32),
        Outcome::Bad => BAD_POINTS as int,
        Outcome::Ugly => UGLY_POINTS as int,
    }
}

/// The scorer after one delivery.
pub open spec fn spec_apply(s: Scorer, outcome: Outcome) -> Scorer {
    let total = (s.total + 1) as u32;
    match outcome {
        Outcome::Good => {
            let combo = (s.combo + 1) as u32;
            Scorer {
                score: (s.score + spec_points(s.combo, outcome)) as i32,
                combo,
                best_combo: if s.best_combo >= combo { s.best_combo } else { combo },
                correct: (s.correct + 1) as u32,
                total,
            }
        },
        _ => Scorer { score: (s.score + spec_points(s.combo, outcome)) as i32, combo: 0, total, ..s },
    }
}

impl Scorer {
    /// The counters leave room for one more delivery.
    pub open spec fn has_room(&self) -> bool {
        &&& self.total < u32::MAX
        &&& self.correct < u32::MAX
        &&& self.combo < MAX_COMBO
        &&& i32::MIN + 20 <= self.score <= i32::MAX - 25
    }

    /// The counters and the score have room for this outcome: one more
    /// delivery, one more correct one and a longer streak when it is `Good`,
    /// and a score that still fits once its points are added.
    pub open spec fn can_apply(&self, outcome: Outcome) -> bool {
        &&& self.total < u32::MAX
        &&& outcome == Outcome::Good ==> self.correct < u32::MAX && self.combo < MAX_COMBO
        &&& i32::MIN <= self.score + spec_points(self.combo, outcome) <= i32::MAX
    }

    pub fn new() -> (r: Self)
        ensures
            r == (Scorer { score: 0, combo: 0, best_combo: 0, correct: 0, total: 0 }),
    {
        Scorer { score: 0, combo: 0, best_combo: 0, correct: 0, total: 0 }
    }

    /// Apply one delivery outcome and return the points it scored (incl. bonus).
    pub fn apply(&mut self, outcome: Outcome) -> (r: i32)
        requires
            old(self).can_apply(outcome),
        ensures
            r == spec_points(old(self).combo, outcome),
            *final(self) == spec_apply(*old(self), outcome),
    {
        self.total = self.total + 1;
        let points = match outcome {
            Outcome::Good => {
                self.combo = self.combo + 1;
                if self.combo > self.best_combo {
                    self.best_combo = self.combo;
                }
                self.correct = self.correct + 1;
                GOOD_POINTS + self.combo_bonus()
            },
            Outcome::Bad => {
                self.combo = 0;
                BAD_POINTS
            },
            Outcome::Ugly => {
                self.combo = 0;
                UGLY_POINTS
            },
        };
        self.score = self.score + points;
        points
    }

    /// Accuracy as a whole-number percentage (0 when nothing delivered yet).
    pub fn accuracy(&self) -> (r: u32)
        requires
            self.correct <= MAX_ACCURACY_COUNT,
        ensures
            self.total == 0 ==> r == 0,
            self.total > 0 ==> r == self.correct * 100 / (self.total as int),
    {
        if self.total == 0 {
            0
        } else {
            self.correct * 100 / self.total
        }
    }

    fn combo_bonus(&self) -> (r: i32)
        requires
            self.combo <= MAX_COMBO,
        ensures
            r == spec_combo_bonus(self.combo),
            0 <= r <= MAX_COMBO_BONUS,
    {
        if self.combo >= COMBO_STARTS_AT {
            let b = ((self.combo - COMBO_STARTS_AT + 1) as i32) * COMBO_STEP;
            if b < MAX_COMBO_BONUS { b } else { MAX_COMBO_BONUS }
        } else {
            0
        }
    }
}

/// What a delivery is worth after a streak of `combo` correct ones: a correct
/// delivery scores 10 plus a bonus that is nothing for the first two of a
/// streak and then 3 points per delivery from the third on, capped at 15 (so
/// the third scores 13, the fourth 16, the seventh and later 25); a wrong
/// station scores -10 and a dead-end -20.
pub proof fn lemma_delivery_points(combo: u32)
    requires
        combo < MAX_COMBO,
    ensures
        combo + 1 <= 2 ==> spec_points(combo, Outcome::Good) == 10,
        combo + 1 >= 3 && 3 * (combo + 1 - 2) <= 15 ==> spec_points(combo, Outcome::Good) == 10 + 3 * (combo + 1 - 2),
        3 * (combo + 1 - 2) >= 15 ==> spec_points(combo, Outcome::Good) == 25,
        spec_points(combo, Outcome::Bad) == -10,
        spec_points(combo, Outcome::Ugly) == -20,
{
}

/// The streak bonus grows by exactly 3 with each further correct delivery
/// from the third of a streak on, until it reaches 15, and then stays there;
/// it never exceeds 15 and is 0 before the third.
pub proof fn lemma_combo_bonus_steps(combo: u32)
    requires
        combo < MAX_COMBO,
    ensures
        combo < 3 ==> spec_combo_bonus(combo) == 0,
        combo == 3 ==> spec_combo_bonus(combo) == 3,
        0 <= spec_combo_bonus(combo) <= 15,
        combo >= 3 ==> spec_combo_bonus((combo + 1) as u32) == if spec_combo_bonus(combo) + 3 <= 15 {
            spec_combo_bonus(combo) + 3
        } else {
            15
        },
{
}

/// A delivery scores between -20 and 25 points, and the score moves by exactly
/// those points; the total counts every delivery.
pub proof fn lemma_points_bounds(s: Scorer, o: Outcome)
    requires
        s.can_apply(o),
    ensures
        -20 <= spec_points(s.combo, o) <= 25,
        o == Outcome::Good ==> spec_points(s.combo, o) >= 10,
        spec_apply(s, o).score == s.score + spec_points(s.combo, o),
        spec_apply(s, o).total == s.total + 1,
{
}

/// A mistake resets the combo; a correct delivery extends it, and the best combo
/// never falls behind the current one.
pub proof fn lemma_combo_rules(s: Scorer, o: Outcome)
    requires
        s.can_apply(o),
        s.combo <= s.best_combo,
    ensures
        o != Outcome::Good ==> spec_apply(s, o).combo == 0,
        o == Outcome::Good ==> spec_apply(s, o).combo == s.combo + 1,
        spec_apply(s, o).combo <= spec_apply(s, o).best_combo,
        spec_apply(s, o).best_combo >= s.best_combo,
{
}

/// Accuracy never exceeds 100% when no more deliveries are correct than made.
pub proof fn lemma_accuracy_at_most_100(correct: u32, total: u32)
    requires
        0 < total,
        correct <= total,
        correct <= MAX_ACCURACY_COUNT,
    ensures
        correct * 100 / (total as int) <= 100,
{
    assert(correct * 100 / (total as int) <= 100) by (nonlinear_arith)
        requires
            0 < total,
            correct <= total,
    ;
}

} // verus!
