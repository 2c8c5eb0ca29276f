use vstd::prelude::*;

verus! {

/// A point of the plane with integer coordinates.
#[derive(Clone, Copy, Debug, PartialEq, Eq, Structural)]
pub struct Point {
    pub x: i32,
    pub y: i32,
}

/// The square of the Euclidean distance between `p` and `q`.
pub open spec fn dist_sq(p: Point, q: Point) -> int {
    (p.x - q.x) * (p.x - q.x) + (p.y - q.y) * (p.y - q.y)
}

/// The square of the gap between two coordinates, computed without overflow.
pub(crate) fn gap_sq(a: i32, b: i32) -> (r: u128)
    ensures
        r == (a - b) * (a - b),
        r <= 0x1_0000_0000_0000_0000,
{
    let g: i64 = a as i64 - b as i64;
    let m: u64 = if g < 0 { (-g) as u64 } else { g as u64 };
    assert(m * m == (a - b) * (a - b)) by (nonlinear_arith)
        requires m == a - b || m == b - a;
    assert(m * m <= 0x1_0000_0000_0000_0000) by (nonlinear_arith)
        requires m <= 0x1_0000_0000;
    (m as u128) * (m as u128)
}

impl Point {
    /// The squared Euclidean distance to `other`; it is exact, as no square root is taken.
    pub fn distance_sq(&self, other: &Point) -> (r: u128)
        ensures
            r == dist_sq(*self, *other),
    {
        let dx = gap_sq(self.x, other.x);
        let dy = gap_sq(self.y, other.y);
        assert(dx + dy <= u128::MAX) by (nonlinear_arith)
            requires dx <= 0x1_0000_0000_0000_0000, dy <= 0x1_0000_0000_0000_0000;
        dx + dy
    }
}

} // verus!
