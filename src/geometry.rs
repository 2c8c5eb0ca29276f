use vstd::prelude::*;

use crate::point::{dist_sq, Point};

verus! {

/// The squared distance splits into two non-negative squares.
pub proof fn lemma_dist_parts(p: Point, q: Point)
    ensures
        dist_sq(p, q) >= (p.x - q.x) * (p.x - q.x),
        dist_sq(p, q) >= (p.y - q.y) * (p.y - q.y),
        (p.x - q.x) * (p.x - q.x) >= 0,
        (p.y - q.y) * (p.y - q.y) >= 0,
{
    let dx = p.x - q.x;
    let dy = p.y - q.y;
    assert(dx * dx >= 0) by (nonlinear_arith);
    assert(dy * dy >= 0) by (nonlinear_arith);
}

/// Distance does not depend on the order of the two points.
pub proof fn lemma_dist_symmetric(p: Point, q: Point)
    ensures
        dist_sq(p, q) == dist_sq(q, p),
{
    let dx = p.x - q.x;
    let dy = p.y - q.y;
    assert(dx * dx == (-dx) * (-dx)) by (nonlinear_arith);
    assert(dy * dy == (-dy) * (-dy)) by (nonlinear_arith);
}

/// Squaring is monotone on non-negative numbers.
pub proof fn lemma_square_monotone(a: int, b: int)
    requires
        0 <= a <= b,
    ensures
        a * a <= b * b,
{
    assert(a * a <= b * b) by (nonlinear_arith)
        requires
            0 <= a <= b,
    ;
}

/// A vertical line at `s` between two points is no farther (squared, in `x`) from either of
/// them than they are from each other.
pub proof fn lemma_line_between(p: Point, q: Point, s: int)
    requires
        (p.x <= s <= q.x) || (q.x <= s <= p.x),
    ensures
        (p.x - s) * (p.x - s) <= dist_sq(p, q),
        (q.x - s) * (q.x - s) <= dist_sq(p, q),
{
    lemma_dist_parts(p, q);
    let g = if p.x <= q.x { q.x - p.x } else { p.x - q.x };
    assert(g * g == (p.x - q.x) * (p.x - q.x)) by (nonlinear_arith)
        requires
            g == p.x - q.x || g == q.x - p.x,
    ;
    let u = if p.x <= s { s - p.x } else { p.x - s };
    let w = if q.x <= s { s - q.x } else { q.x - s };
    lemma_square_monotone(u, g);
    lemma_square_monotone(w, g);
    assert(u * u == (p.x - s) * (p.x - s)) by (nonlinear_arith)
        requires
            u == p.x - s || u == s - p.x,
    ;
    assert(w * w == (q.x - s) * (q.x - s)) by (nonlinear_arith)
        requires
            w == q.x - s || w == s - q.x,
    ;
}

} // verus!
