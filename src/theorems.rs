use vstd::prelude::*;

use crate::closest::{is_closest_pair, is_pair_of, no_closer_pair};
use crate::geometry::lemma_dist_symmetric;
use crate::point::{dist_sq, Point};

verus! {

/// All closest pairs of one point set are equally far apart. So `closest_pair` and
/// `brute_force` report the same distance for every input, whichever pair each picks on a tie.
pub proof fn lemma_closest_distance_unique(
    pts: Seq<Point>,
    a: Point,
    b: Point,
    d: int,
    a2: Point,
    b2: Point,
    d2: int,
)
    requires
        is_closest_pair(pts, a, b, d),
        is_closest_pair(pts, a2, b2, d2),
    ensures
        d == d2,
{
    let (i, j) = choose|i: int, j: int|
        0 <= i < pts.len() && 0 <= j < pts.len() && i != j && pts[i] == a && pts[j] == b;
    let (i2, j2) = choose|i: int, j: int|
        0 <= i < pts.len() && 0 <= j < pts.len() && i != j && pts[i] == a2 && pts[j] == b2;
    assert(d2 <= dist_sq(pts[i], pts[j]));
    assert(d <= dist_sq(pts[i2], pts[j2]));
}

/// The distance between two points is the same measured either way round.
pub proof fn lemma_distance_symmetric(p: Point, q: Point)
    ensures
        dist_sq(p, q) == dist_sq(q, p),
{
    lemma_dist_symmetric(p, q);
}

/// `t` lists points of `s`, position `k` of `t` holding the point at position `f(k)` of `s`,
/// no position of `s` used twice.
pub open spec fn is_reordering(s: Seq<Point>, t: Seq<Point>, f: spec_fn(int) -> int) -> bool {
    &&& s.len() == t.len()
    &&& forall|k: int| 0 <= k < t.len() ==> 0 <= #[trigger] f(k) < s.len() && t[k] == s[f(k)]
    &&& forall|k: int, l: int|
        0 <= k < t.len() && 0 <= l < t.len() && k != l ==> #[trigger] f(k) != #[trigger] f(l)
}

/// Putting the input points in another order does not change the closest distance: a closest
/// pair of the points in one order and one of the points in another are equally far apart.
pub proof fn lemma_reordering_keeps_distance(
    s: Seq<Point>,
    t: Seq<Point>,
    f: spec_fn(int) -> int,
    g: spec_fn(int) -> int,
    a: Point,
    b: Point,
    d: int,
    a2: Point,
    b2: Point,
    d2: int,
)
    requires
        is_reordering(s, t, f),
        is_reordering(t, s, g),
        is_closest_pair(s, a, b, d),
        is_closest_pair(t, a2, b2, d2),
    ensures
        d == d2,
{
    let (i, j) = choose|i: int, j: int|
        0 <= i < s.len() && 0 <= j < s.len() && i != j && s[i] == a && s[j] == b;
    let (i2, j2) = choose|i: int, j: int|
        0 <= i < t.len() && 0 <= j < t.len() && i != j && t[i] == a2 && t[j] == b2;
    assert(f(i2) != f(j2));
    assert(d <= dist_sq(s[f(i2)], s[f(j2)]));
    assert(g(i) != g(j));
    assert(d2 <= dist_sq(t[g(i)], t[g(j)]));
}

/// When every point coincides with the first, the closest distance is zero.
pub proof fn lemma_identical_points(pts: Seq<Point>, a: Point, b: Point, d: int)
    requires
        pts.len() >= 2,
        forall|k: int| 0 <= k < pts.len() ==> #[trigger] pts[k] == pts[0],
        is_closest_pair(pts, a, b, d),
    ensures
        d == 0,
{
    assert(pts[1] == pts[0]);
    assert(d <= dist_sq(pts[0], pts[1]));
    let p = pts[0];
    let z: int = p.x - p.x;
    let w: int = p.y - p.y;
    assert(z == 0 && w == 0);
    assert(z * z + w * w == 0) by (nonlinear_arith)
        requires
            z == 0,
            w == 0,
    ;
    assert(dist_sq(p, p) == 0);
    let (i, j) = choose|i: int, j: int|
        0 <= i < pts.len() && 0 <= j < pts.len() && i != j && pts[i] == a && pts[j] == b;
    assert(pts[i] == pts[0] && pts[j] == pts[0]);
    crate::geometry::lemma_dist_parts(a, b);
}

/// Of exactly two points, the closest pair is those two, at their own distance.
pub proof fn lemma_two_points(pts: Seq<Point>, a: Point, b: Point, d: int)
    requires
        pts.len() == 2,
        is_closest_pair(pts, a, b, d),
    ensures
        (a == pts[0] && b == pts[1]) || (a == pts[1] && b == pts[0]),
        d == dist_sq(pts[0], pts[1]),
{
    lemma_dist_symmetric(pts[0], pts[1]);
}

/// Scaling both coordinates by `k` scales each squared distance by `k * k`.
pub proof fn lemma_scaled_distance(p: Point, q: Point, p2: Point, q2: Point, k: int)
    requires
        p2.x == k * p.x,
        p2.y == k * p.y,
        q2.x == k * q.x,
        q2.y == k * q.y,
    ensures
        dist_sq(p2, q2) == k * k * dist_sq(p, q),
{
    let dx = p.x - q.x;
    let dy = p.y - q.y;
    assert(p2.x - q2.x == k * dx) by (nonlinear_arith)
        requires
            p2.x == k * p.x,
            q2.x == k * q.x,
            dx == p.x - q.x,
    ;
    assert(p2.y - q2.y == k * dy) by (nonlinear_arith)
        requires
            p2.y == k * p.y,
            q2.y == k * q.y,
            dy == p.y - q.y,
    ;
    assert((k * dx) * (k * dx) + (k * dy) * (k * dy) == k * k * (dx * dx + dy * dy))
        by (nonlinear_arith);
}

/// Scaling all coordinates by a positive `k` keeps the closest pair (by position) closest, and
/// multiplies the squared closest distance by `k * k`, whichever closest pair is reported.
pub proof fn lemma_scaling(s: Seq<Point>, t: Seq<Point>, k: int, i: int, j: int, d: int)
    requires
        k > 0,
        s.len() == t.len(),
        forall|m: int|
            0 <= m < s.len() ==> (#[trigger] t[m]).x == k * s[m].x && t[m].y == k * s[m].y,
        0 <= i < s.len(),
        0 <= j < s.len(),
        i != j,
        is_closest_pair(s, s[i], s[j], d),
    ensures
        is_closest_pair(t, t[i], t[j], k * k * d),
        forall|a2: Point, b2: Point, d2: int|
            #[trigger] is_closest_pair(t, a2, b2, d2) ==> d2 == k * k * d,
{
    assert(k * k > 0) by (nonlinear_arith)
        requires
            k > 0,
    ;
    lemma_scaled_distance(s[i], s[j], t[i], t[j], k);
    assert forall|m: int, l: int|
        0 <= m < t.len() && 0 <= l < t.len() && m != l implies k * k * d <= #[trigger] dist_sq(
        t[m],
        t[l],
    ) by {
        lemma_scaled_distance(s[m], s[l], t[m], t[l], k);
        let e = dist_sq(s[m], s[l]);
        assert(d <= e);
        assert(k * k * d <= k * k * e) by (nonlinear_arith)
            requires
                d <= e,
                k * k > 0,
        ;
    }
    assert(is_pair_of(t, t[i], t[j]));
    assert(no_closer_pair(t, k * k * d));
    assert forall|a2: Point, b2: Point, d2: int| #[trigger]
        is_closest_pair(t, a2, b2, d2) implies d2 == k * k * d by {
        lemma_closest_distance_unique(t, t[i], t[j], k * k * d, a2, b2, d2);
    }
}

} // verus!
