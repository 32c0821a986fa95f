use vstd::prelude::*;

verus! {

/// A point of the sensor field, in non-negative integer coordinates.
#[derive(Clone, Copy, Debug, PartialEq, Eq, Structural)]
pub struct Position {
    pub x: u32,
    pub y: u32,
}

/// Absolute difference of two coordinates.
pub open spec fn gap(a: u32, b: u32) -> int {
    if a >= b { a - b } else { b - a }
}

/// Square of the Euclidean distance between two positions.
pub open spec fn squared_distance(p: Position, q: Position) -> int {
    gap(p.x, q.x) * gap(p.x, q.x) + gap(p.y, q.y) * gap(p.y, q.y)
}

impl Position {
    pub fn new(x: u32, y: u32) -> (r: Position)
        ensures
            r.x == x,
            r.y == y,
    {
        Position { x, y }
    }

    /// The square of the Euclidean distance to `position`; comparing it with
    /// the square of a radius decides "within range" without rounding.
    pub fn squared_distance_to(&self, position: &Position) -> (r: u128)
        ensures
            r == squared_distance(*self, *position),
    {
        let dx: u128 = if self.x >= position.x {
            (self.x - position.x) as u128
        } else {
            (position.x - self.x) as u128
        };
        let dy: u128 = if self.y >= position.y {
            (self.y - position.y) as u128
        } else {
            (position.y - self.y) as u128
        };
        assert(dx * dx <= 0xffff_ffffu128 * 0xffff_ffffu128) by (nonlinear_arith)
            requires dx <= 0xffff_ffffu128;
        assert(dy * dy <= 0xffff_ffffu128 * 0xffff_ffffu128) by (nonlinear_arith)
            requires dy <= 0xffff_ffffu128;
        dx * dx + dy * dy
    }
}

/// Distance is symmetric.
pub proof fn lemma_squared_distance_symmetric(p: Position, q: Position)
    ensures
        squared_distance(p, q) == squared_distance(q, p),
{
}

} // verus!
