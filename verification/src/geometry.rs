//! Grid directions and coordinates.
//!
//! `(0, 0)` is the top-left; `x` grows east (right), `y` grows south (down),
//! matching screen coordinates so a renderer can use positions directly.
use vstd::prelude::*;

verus! {

/// The four cardinal directions a track can travel.
#[derive(Clone, Copy, Debug, PartialEq, Eq, Structural, Hash, PartialOrd, Ord)]
pub enum Direction {
    North,
    East,
    South,
    West,
}

/// The opposite of a direction.
pub open spec fn spec_flip(d: Direction) -> Direction {
    match d {
        Direction::North => Direction::South,
        Direction::South => Direction::North,
        Direction::East => Direction::West,
        Direction::West => Direction::East,
    }
}

/// The unit grid step of a direction.
pub open spec fn spec_delta(d: Direction) -> (i32, i32) {
    match d {
        Direction::North => (0i32, -1i32),
        Direction::South => (0i32, 1i32),
        Direction::East => (1i32, 0i32),
        Direction::West => (-1i32, 0i32),
    }
}

/// The neighbour of `p` one step in `d`.
pub open spec fn spec_step(p: Pos, d: Direction) -> Pos {
    Pos { x: (p.x + spec_delta(d).0) as i32, y: (p.y + spec_delta(d).1) as i32 }
}

/// The neighbour of `p` one step in `d` fits the coordinate type.
pub open spec fn steppable(p: Pos, d: Direction) -> bool {
    i32::MIN <= p.x + spec_delta(d).0 <= i32::MAX && i32::MIN <= p.y + spec_delta(d).1 <= i32::MAX
}

impl Direction {
    /// All four directions, in a stable order.
    pub const ALL: [Direction; 4] = [
        Direction::North,
        Direction::East,
        Direction::South,
        Direction::West,
    ];

    /// The opposite direction.
    pub fn flip(self) -> (r: Direction)
        ensures
            r == spec_flip(self),
    {
        match self {
            Direction::North => Direction::South,
            Direction::South => Direction::North,
            Direction::East => Direction::West,
            Direction::West => Direction::East,
        }
    }

    /// Unit step on the grid for this direction.
    pub fn delta(self) -> (r: (i32, i32))
        ensures
            r == spec_delta(self),
    {
        match self {
            Direction::North => (0, -1),
            Direction::South => (0, 1),
            Direction::East => (1, 0),
            Direction::West => (-1, 0),
        }
    }
}

/// An integer grid coordinate.
#[derive(Clone, Copy, Debug, PartialEq, Eq, Structural, Hash, PartialOrd, Ord)]
pub struct Pos {
    pub x: i32,
    pub y: i32,
}

impl Pos {
    pub fn new(x: i32, y: i32) -> (r: Self)
        ensures
            r == (Pos { x, y }),
    {
        Pos { x, y }
    }

    /// The neighbouring position one step in `dir`.
    pub fn step(self, dir: Direction) -> (r: Pos)
        requires
            steppable(self, dir),
        ensures
            r == spec_step(self, dir),
    {
        let (dx, dy) = dir.delta();
        Pos::new(self.x + dx, self.y + dy)
    }
}

/// Flipping twice gives the direction back, and no direction is its own opposite.
pub proof fn lemma_flip_involution(d: Direction)
    ensures
        spec_flip(spec_flip(d)) == d,
        spec_flip(d) != d,
{
}

/// Stepping one way and then the opposite way returns to the start, and the
/// step back always fits.
pub proof fn lemma_step_back(p: Pos, d: Direction)
    requires
        steppable(p, d),
    ensures
        steppable(spec_step(p, d), spec_flip(d)),
        spec_step(spec_step(p, d), spec_flip(d)) == p,
{
}

/// Every direction moves exactly one unit along exactly one axis.
pub proof fn lemma_delta_is_unit(d: Direction)
    ensures
        vstd::math::abs(spec_delta(d).0 as int) + vstd::math::abs(spec_delta(d).1 as int) == 1,
{
}

} // verus!
