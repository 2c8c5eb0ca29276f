use vstd::prelude::*;

use crate::geometry::{lemma_dist_parts, lemma_dist_symmetric, lemma_line_between, lemma_square_monotone};
use crate::order::{indices_valid, precedes, sort_indices, strictly_sorted};
use crate::point::{dist_sq, gap_sq, Point};

verus! {

/// Ranges of at most this many points are solved by comparing all pairs.
pub const BASE_CASE: usize = 7;

/// Why no closest pair could be computed.
#[derive(Clone, Copy, Debug, PartialEq, Eq, Structural)]
pub enum ClosestPairError {
    /// Fewer than two points were given, so there is no pair.
    TooFewPoints,
}

/// `a` and `b` stand at two different positions of `pts`.
pub open spec fn is_pair_of(pts: Seq<Point>, a: Point, b: Point) -> bool {
    exists|i: int, j: int|
        0 <= i < pts.len() && 0 <= j < pts.len() && i != j && pts[i] == a && pts[j] == b
}

/// No two points at different positions of `pts` are closer than squared distance `d`.
pub open spec fn no_closer_pair(pts: Seq<Point>, d: int) -> bool {
    forall|i: int, j: int|
        0 <= i < pts.len() && 0 <= j < pts.len() && i != j ==> d <= #[trigger] dist_sq(
            pts[i],
            pts[j],
        )
}

/// `(a, b)` is a closest pair of `pts` and `d` its squared distance.
pub open spec fn is_closest_pair(pts: Seq<Point>, a: Point, b: Point, d: int) -> bool {
    &&& is_pair_of(pts, a, b)
    &&& d == dist_sq(a, b)
    &&& no_closer_pair(pts, d)
}

/// The squared distance between the points at indices `i` and `j` of `pts`.
pub open spec fn dist_at(pts: Seq<Point>, i: usize, j: usize) -> int {
    dist_sq(pts[i as int], pts[j as int])
}

/// A pair of two different indices of `pts`, with their squared distance.
pub open spec fn valid_result(pts: Seq<Point>, r: (usize, usize, u128)) -> bool {
    &&& r.0 < pts.len()
    &&& r.1 < pts.len()
    &&& r.0 != r.1
    &&& r.2 == dist_at(pts, r.0, r.1)
}

/// The closest pair among the points `xs[start..end]` of `pts`, by comparing every pair.
fn brute_force_range(pts: &[Point], xs: &Vec<usize>, start: usize, end: usize) -> (r: (
    usize,
    usize,
    u128,
))
    requires
        start + 2 <= end <= xs@.len(),
        indices_valid(pts@, xs@),
        forall|a: int, b: int|
            start <= a < end && start <= b < end && a != b ==> xs@[a] != xs@[b],
    ensures
        valid_result(pts@, r),
        forall|a: int, b: int|
            start <= a < end && start <= b < end && a != b ==> r.2 <= #[trigger] dist_at(
                pts@,
                xs@[a],
                xs@[b],
            ),
{
    let mut bi = xs[start];
    let mut bj = xs[start + 1];
    let mut d = pts[bi].distance_sq(&pts[bj]);
    let mut i = start;
    while i < end
        invariant
            start <= i <= end <= xs@.len(),
            indices_valid(pts@, xs@),
            valid_result(pts@, (bi, bj, d)),
            forall|a: int, b: int|
                start <= a < end && start <= b < end && a != b ==> xs@[a] != xs@[b],
            forall|a: int, b: int|
                start <= a < i && a < b < end ==> d <= #[trigger] dist_at(pts@, xs@[a], xs@[b]),
        decreases end - i,
    {
        let mut j = i + 1;
        while j < end
            invariant
                start <= i < end <= xs@.len(),
                i < j <= end,
                indices_valid(pts@, xs@),
                valid_result(pts@, (bi, bj, d)),
                forall|a: int, b: int|
                    start <= a < end && start <= b < end && a != b ==> xs@[a] != xs@[b],
                forall|a: int, b: int|
                    start <= a < i && a < b < end ==> d <= #[trigger] dist_at(
                        pts@,
                        xs@[a],
                        xs@[b],
                    ),
                forall|b: int| i < b < j ==> d <= #[trigger] dist_at(pts@, xs@[i as int], xs@[b]),
            decreases end - j,
        {
            let dd = pts[xs[i]].distance_sq(&pts[xs[j]]);
            if dd < d {
                d = dd;
                bi = xs[i];
                bj = xs[j];
            }
            j = j + 1;
        }
        i = i + 1;
    }
    assert forall|a: int, b: int| start <= a < end && start <= b < end && a != b implies d
        <= #[trigger] dist_at(pts@, xs@[a], xs@[b]) by {
        if b < a {
            lemma_dist_symmetric(pts@[xs@[a] as int], pts@[xs@[b] as int]);
            assert(d <= dist_at(pts@, xs@[b], xs@[a]));
        }
    }
    (bi, bj, d)
}

/// Brute force: the closest pair of `points` by comparing all pairs, with its squared distance.
pub fn brute_force(points: &[Point]) -> (r: (Point, Point, u128))
    requires
        points@.len() >= 2,
    ensures
        is_closest_pair(points@, r.0, r.1, r.2 as int),
{
    let n = points.len();
    let mut ids: Vec<usize> = Vec::new();
    let mut k: usize = 0;
    while k < n
        invariant
            k <= n == points@.len(),
            ids@.len() == k,
            forall|t: int| 0 <= t < k ==> #[trigger] ids@[t] == t,
        decreases n - k,
    {
        ids.push(k);
        k = k + 1;
    }
    let (i, j, d) = brute_force_range(points, &ids, 0, n);
    assert(points@[i as int] == points[i as int] && points@[j as int] == points[j as int]);
    assert(no_closer_pair(points@, d as int)) by {
        assert forall|a: int, b: int|
            0 <= a < points@.len() && 0 <= b < points@.len() && a != b implies d
            <= #[trigger] dist_sq(points@[a], points@[b]) by {
            assert(d <= dist_at(points@, ids@[a], ids@[b]));
        }
    }
    (points[i], points[j], d)
}

/// Splits the y-ordered indices `ys` by the vertical line at `s`: those with `x <= s` go left,
/// the others right. Both halves keep the y-order.
fn split_by_x(pts: &[Point], ys: &Vec<usize>, s: i32) -> (r: (Vec<usize>, Vec<usize>))
    requires
        indices_valid(pts@, ys@),
        strictly_sorted(pts@, false, ys@),
    ensures
        indices_valid(pts@, r.0@),
        indices_valid(pts@, r.1@),
        strictly_sorted(pts@, false, r.0@),
        strictly_sorted(pts@, false, r.1@),
        forall|t: int|
            0 <= t < ys@.len() && pts@[ys@[t] as int].x <= s ==> r.0@.contains(#[trigger] ys@[t]),
        forall|t: int|
            0 <= t < ys@.len() && pts@[ys@[t] as int].x > s ==> r.1@.contains(#[trigger] ys@[t]),
{
    let mut left: Vec<usize> = Vec::new();
    let mut right: Vec<usize> = Vec::new();
    let mut i: usize = 0;
    while i < ys.len()
        invariant
            i <= ys@.len(),
            indices_valid(pts@, ys@),
            strictly_sorted(pts@, false, ys@),
            indices_valid(pts@, left@),
            indices_valid(pts@, right@),
            strictly_sorted(pts@, false, left@),
            strictly_sorted(pts@, false, right@),
            forall|t: int, u: int|
                0 <= t < left@.len() && i <= u < ys@.len() ==> precedes(
                    pts@,
                    false,
                    #[trigger] left@[t] as int,
                    #[trigger] ys@[u] as int,
                ),
            forall|t: int, u: int|
                0 <= t < right@.len() && i <= u < ys@.len() ==> precedes(
                    pts@,
                    false,
                    #[trigger] right@[t] as int,
                    #[trigger] ys@[u] as int,
                ),
            forall|t: int|
                0 <= t < i && pts@[ys@[t] as int].x <= s ==> left@.contains(#[trigger] ys@[t]),
            forall|t: int|
                0 <= t < i && pts@[ys@[t] as int].x > s ==> right@.contains(#[trigger] ys@[t]),
        decreases ys@.len() - i,
    {
        let v = ys[i];
        assert forall|u: int| i < u < ys@.len() implies precedes(
            pts@,
            false,
            v as int,
            #[trigger] ys@[u] as int,
        ) by {
            assert(precedes(pts@, false, ys@[i as int] as int, ys@[u] as int));
        }
        if pts[v].x <= s {
            let ghost l0 = left@;
            left.push(v);
            proof {
                assert(left@[l0.len() as int] == v);
                assert forall|t: int| 0 <= t < l0.len() implies #[trigger] left@[t] == l0[t] by {}
                assert forall|t: int|
                    0 <= t < i + 1 && pts@[ys@[t] as int].x <= s implies left@.contains(
                    #[trigger] ys@[t],
                ) by {
                    if t < i {
                        crate::order::lemma_push_contains(l0, v, ys@[t]);
                    }
                }
            }
        } else {
            let ghost r0 = right@;
            right.push(v);
            proof {
                assert(right@[r0.len() as int] == v);
                assert forall|t: int| 0 <= t < r0.len() implies #[trigger] right@[t] == r0[t] by {}
                assert forall|t: int|
                    0 <= t < i + 1 && pts@[ys@[t] as int].x > s implies right@.contains(
                    #[trigger] ys@[t],
                ) by {
                    if t < i {
                        crate::order::lemma_push_contains(r0, v, ys@[t]);
                    }
                }
            }
        }
        i = i + 1;
    }
    (left, right)
}

/// Fills `strip` with the entries of the y-ordered `ys` whose squared horizontal gap to the
/// line at `s` is below `d`, keeping their order. What `strip` held before is dropped.
fn collect_strip(pts: &[Point], ys: &Vec<usize>, s: i32, d: u128, strip: &mut Vec<usize>)
    requires
        indices_valid(pts@, ys@),
        strictly_sorted(pts@, false, ys@),
    ensures
        indices_valid(pts@, final(strip)@),
        strictly_sorted(pts@, false, final(strip)@),
        forall|t: int|
            0 <= t < ys@.len() && (pts@[ys@[t] as int].x - s) * (pts@[ys@[t] as int].x - s) < d
                ==> final(strip)@.contains(#[trigger] ys@[t]),
{
    strip.clear();
    let mut i: usize = 0;
    while i < ys.len()
        invariant
            i <= ys@.len(),
            indices_valid(pts@, ys@),
            strictly_sorted(pts@, false, ys@),
            indices_valid(pts@, strip@),
            strictly_sorted(pts@, false, strip@),
            forall|t: int, u: int|
                0 <= t < strip@.len() && i <= u < ys@.len() ==> precedes(
                    pts@,
                    false,
                    #[trigger] strip@[t] as int,
                    #[trigger] ys@[u] as int,
                ),
            forall|t: int|
                0 <= t < i && (pts@[ys@[t] as int].x - s) * (pts@[ys@[t] as int].x - s) < d
                    ==> strip@.contains(#[trigger] ys@[t]),
        decreases ys@.len() - i,
    {
        let v = ys[i];
        assert forall|u: int| i < u < ys@.len() implies precedes(
            pts@,
            false,
            v as int,
            #[trigger] ys@[u] as int,
        ) by {
            assert(precedes(pts@, false, ys@[i as int] as int, ys@[u] as int));
        }
        if gap_sq(pts[v].x, s) < d {
            let ghost s0 = strip@;
            strip.push(v);
            proof {
                assert(strip@[s0.len() as int] == v);
                assert forall|t: int| 0 <= t < s0.len() implies #[trigger] strip@[t] == s0[t] by {}
                assert forall|t: int|
                    0 <= t < i + 1 && (pts@[ys@[t] as int].x - s) * (pts@[ys@[t] as int].x - s)
                        < d implies strip@.contains(#[trigger] ys@[t]) by {
                    if t < i {
                        crate::order::lemma_push_contains(s0, v, ys@[t]);
                    }
                }
            }
        }
        i = i + 1;
    }
}

/// Improves `best` with the pairs of the y-ordered `strip`. For each point only the points
/// after it whose vertical gap is below the current best distance are compared: from the first
/// one at or past it on, no later point can be closer.
fn scan_strip(pts: &[Point], strip: &Vec<usize>, best: (usize, usize, u128)) -> (r: (
    usize,
    usize,
    u128,
))
    requires
        indices_valid(pts@, strip@),
        strictly_sorted(pts@, false, strip@),
        valid_result(pts@, best),
    ensures
        valid_result(pts@, r),
        r.2 <= best.2,
        forall|u: int, w: int|
            0 <= u < w < strip@.len() ==> r.2 <= #[trigger] dist_at(pts@, strip@[u], strip@[w]),
{
    let (mut bi, mut bj, mut d) = best;
    let mut i: usize = 0;
    while i < strip.len()
        invariant
            i <= strip@.len(),
            indices_valid(pts@, strip@),
            strictly_sorted(pts@, false, strip@),
            valid_result(pts@, (bi, bj, d)),
            d <= best.2,
            forall|u: int, w: int|
                0 <= u < i && u < w < strip@.len() ==> d <= #[trigger] dist_at(
                    pts@,
                    strip@[u],
                    strip@[w],
                ),
        decreases strip@.len() - i,
    {
        let mut j = i + 1;
        while j < strip.len()
            invariant
                i < strip@.len(),
                i < j <= strip@.len(),
                indices_valid(pts@, strip@),
                strictly_sorted(pts@, false, strip@),
                valid_result(pts@, (bi, bj, d)),
                d <= best.2,
                forall|u: int, w: int|
                    0 <= u < i && u < w < strip@.len() ==> d <= #[trigger] dist_at(
                        pts@,
                        strip@[u],
                        strip@[w],
                    ),
                forall|w: int|
                    i < w < j ==> d <= #[trigger] dist_at(pts@, strip@[i as int], strip@[w]),
            ensures
                valid_result(pts@, (bi, bj, d)),
                d <= best.2,
                forall|u: int, w: int|
                    0 <= u < i && u < w < strip@.len() ==> d <= #[trigger] dist_at(
                        pts@,
                        strip@[u],
                        strip@[w],
                    ),
                forall|w: int|
                    i < w < strip@.len() ==> d <= #[trigger] dist_at(
                        pts@,
                        strip@[i as int],
                        strip@[w],
                    ),
            decreases strip@.len() - j,
        {
            let gy = gap_sq(pts[strip[j]].y, pts[strip[i]].y);
            if gy >= d {
                proof {
                    let p = pts@[strip@[i as int] as int];
                    let q = pts@[strip@[j as int] as int];
                    assert(precedes(pts@, false, strip@[i as int] as int, strip@[j as int] as int));
                    assert forall|w: int| i < w < strip@.len() implies d <= #[trigger] dist_at(
                        pts@,
                        strip@[i as int],
                        strip@[w],
                    ) by {
                        if w >= j {
                            let o = pts@[strip@[w] as int];
                            if w > j {
                                assert(precedes(pts@, false, strip@[j as int] as int, strip@[w] as int));
                            }
                            lemma_square_monotone(q.y - p.y, o.y - p.y);
                            lemma_dist_parts(p, o);
                            assert((p.y - o.y) * (p.y - o.y) == (o.y - p.y) * (o.y - p.y)) by (nonlinear_arith);
                        }
                    }
                }
                break;
            }
            let dd = pts[strip[i]].distance_sq(&pts[strip[j]]);
            if dd < d {
                assert(strip@[i as int] != strip@[j as int]) by {
                    assert(precedes(pts@, false, strip@[i as int] as int, strip@[j as int] as int));
                }
                d = dd;
                bi = strip[i];
                bj = strip[j];
            }
            j = j + 1;
        }
        i = i + 1;
    }
    (bi, bj, d)
}

/// The divide-and-conquer step on the x-ordered range `xs[start..end]`. `ys` holds, in y-order,
/// at least every point whose `x` lies in `(lo, hi]`, and the range's points have `x` in
/// `[lo, hi]`. The result is no farther apart than any two points of the range that both lie
/// strictly right of `lo`; points exactly at `lo` are left to the caller, whose strip holds them.
fn closest_rec(
    pts: &[Point],
    xs: &Vec<usize>,
    start: usize,
    end: usize,
    ys: &Vec<usize>,
    strip: &mut Vec<usize>,
    Ghost(lo): Ghost<int>,
    Ghost(hi): Ghost<int>,
) -> (r: (usize, usize, u128))
    requires
        start + 2 <= end <= xs@.len(),
        indices_valid(pts@, xs@),
        strictly_sorted(pts@, true, xs@),
        forall|t: int| start <= t < end ==> lo <= #[trigger] pts@[xs@[t] as int].x <= hi,
        indices_valid(pts@, ys@),
        strictly_sorted(pts@, false, ys@),
        forall|k: usize| k < pts@.len() && lo < pts@[k as int].x <= hi ==> #[trigger] ys@.contains(k),
    ensures
        valid_result(pts@, r),
        forall|a: int, b: int|
            start <= a < end && start <= b < end && a != b && lo < pts@[xs@[a] as int].x && lo
                < pts@[xs@[b] as int].x ==> r.2 <= #[trigger] dist_at(pts@, xs@[a], xs@[b]),
    decreases end - start,
{
    let n = end - start;
    if n <= BASE_CASE {
        assert forall|a: int, b: int|
            start <= a < end && start <= b < end && a != b implies xs@[a] != xs@[b] by {
            if a < b {
                assert(precedes(pts@, true, xs@[a] as int, xs@[b] as int));
            } else {
                assert(precedes(pts@, true, xs@[b] as int, xs@[a] as int));
            }
        }
        return brute_force_range(pts, xs, start, end);
    }
    let mid = start + n / 2;
    let split = pts[xs[mid]].x;
    proof {
        assert forall|t: int| start <= t < end implies (t < mid ==> #[trigger] pts@[xs@[t] as int].x
            <= split) && (t >= mid ==> split <= pts@[xs@[t] as int].x) by {
            if t < mid {
                assert(precedes(pts@, true, xs@[t] as int, xs@[mid as int] as int));
            } else if t > mid {
                assert(precedes(pts@, true, xs@[mid as int] as int, xs@[t] as int));
            }
        }
    }
    let (ly, ry) = split_by_x(pts, ys, split);
    proof {
        assert forall|k: usize| k < pts@.len() && lo < pts@[k as int].x <= split implies #[trigger] ly@.contains(k) by {
            assert(ys@.contains(k));
            let t = choose|t: int| 0 <= t < ys@.len() && ys@[t] == k;
            assert(ly@.contains(ys@[t]));
        }
        assert forall|k: usize| k < pts@.len() && split < pts@[k as int].x <= hi implies #[trigger] ry@.contains(k) by {
            assert(ys@.contains(k));
            let t = choose|t: int| 0 <= t < ys@.len() && ys@[t] == k;
            assert(ry@.contains(ys@[t]));
        }
    }
    let left = closest_rec(pts, xs, start, mid, &ly, strip, Ghost(lo), Ghost(split as int));
    let right = closest_rec(pts, xs, mid, end, &ry, strip, Ghost(split as int), Ghost(hi));
    let best = if left.2 < right.2 { left } else { right };
    let d0 = best.2;
    collect_strip(pts, ys, split, d0, strip);
    let r = scan_strip(pts, strip, best);
    proof {
        assert forall|a: int, b: int|
            start <= a < end && start <= b < end && a != b && lo < pts@[xs@[a] as int].x && lo
                < pts@[xs@[b] as int].x implies r.2 <= #[trigger] dist_at(pts@, xs@[a], xs@[b]) by {
            let i = xs@[a];
            let j = xs@[b];
            let p = pts@[i as int];
            let q = pts@[j as int];
            if a < mid && b < mid {
            } else if a >= mid && b >= mid && p.x > split && q.x > split {
            } else if dist_at(pts@, i, j) < r.2 {
                assert(i != j) by {
                    if a < b {
                        assert(precedes(pts@, true, xs@[a] as int, xs@[b] as int));
                    } else {
                        assert(precedes(pts@, true, xs@[b] as int, xs@[a] as int));
                    }
                }
                lemma_line_between(p, q, split as int);
                lemma_dist_parts(p, q);
                assert(ys@.contains(i));
                assert(ys@.contains(j));
                let u = choose|u: int| 0 <= u < ys@.len() && ys@[u] == i;
                let w = choose|w: int| 0 <= w < ys@.len() && ys@[w] == j;
                assert(strip@.contains(ys@[u]));
                assert(strip@.contains(ys@[w]));
                let u2 = choose|u2: int| 0 <= u2 < strip@.len() && strip@[u2] == i;
                let w2 = choose|w2: int| 0 <= w2 < strip@.len() && strip@[w2] == j;
                if u2 < w2 {
                    assert(r.2 <= dist_at(pts@, strip@[u2], strip@[w2]));
                } else {
                    assert(r.2 <= dist_at(pts@, strip@[w2], strip@[u2]));
                    lemma_dist_symmetric(p, q);
                }
            }
        }
    }
    r
}

/// The closest pair of `points` and its squared distance, by divide and conquer in
/// `O(n log n)` time; an error when there are fewer than two points.
pub fn closest_pair(points: &[Point]) -> (r: Result<(Point, Point, u128), ClosestPairError>)
    ensures
        r is Err <==> points@.len() < 2,
        r matches Ok(t) ==> is_closest_pair(points@, t.0, t.1, t.2 as int),
{
    let n = points.len();
    if n < 2 {
        return Err(ClosestPairError::TooFewPoints);
    }
    let xs = sort_indices(points, true, 0, n);
    let ys = sort_indices(points, false, 0, n);
    let mut strip: Vec<usize> = Vec::new();
    let ghost lo = i32::MIN - 1;
    let ghost hi = i32::MAX as int;
    let (i, j, d) = closest_rec(points, &xs, 0, n, &ys, &mut strip, Ghost(lo), Ghost(hi));
    proof {
        assert forall|a: int, b: int|
            0 <= a < points@.len() && 0 <= b < points@.len() && a != b implies d
            <= #[trigger] dist_sq(points@[a], points@[b]) by {
            assert(xs@.contains(a as usize));
            assert(xs@.contains(b as usize));
            let u = choose|u: int| 0 <= u < xs@.len() && xs@[u] == a as usize;
            let w = choose|w: int| 0 <= w < xs@.len() && xs@[w] == b as usize;
            assert(d <= dist_at(points@, xs@[u], xs@[w]));
        }
        assert(points@[i as int] == points[i as int] && points@[j as int] == points[j as int]);
    }
    Ok((points[i], points[j], d))
}

} // verus!
