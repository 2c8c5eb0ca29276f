use vstd::prelude::*;

use crate::point::Point;

verus! {

/// The coordinate that an ordering sorts by: `x` when `by_x` holds, else `y`.
pub open spec fn key(p: Point, by_x: bool) -> int {
    if by_x {
        p.x as int
    } else {
        p.y as int
    }
}

/// Point `a` comes before point `b` (both indices into `pts`): a smaller key first, and on equal
/// keys the smaller index first. This is a strict total order on indices.
pub open spec fn precedes(pts: Seq<Point>, by_x: bool, a: int, b: int) -> bool {
    key(pts[a], by_x) < key(pts[b], by_x) || (key(pts[a], by_x) == key(pts[b], by_x) && a < b)
}

/// `s` lists indices of `pts` in strictly ascending order; so it holds no index twice.
pub open spec fn strictly_sorted(pts: Seq<Point>, by_x: bool, s: Seq<usize>) -> bool {
    forall|i: int, j: int|
        0 <= i < j < s.len() ==> #[trigger] precedes(pts, by_x, s[i] as int, s[j] as int)
}

/// Every entry of `s` is an index of a point of `pts`.
pub open spec fn indices_valid(pts: Seq<Point>, s: Seq<usize>) -> bool {
    forall|i: int| 0 <= i < s.len() ==> #[trigger] s[i] < pts.len()
}

/// Appending to a sequence keeps what it contained.
pub proof fn lemma_push_contains(s: Seq<usize>, v: usize, k: usize)
    requires
        s.contains(k),
    ensures
        s.push(v).contains(k),
{
    let w = choose|w: int| 0 <= w < s.len() && s[w] == k;
    assert(s.push(v)[w] == k);
}

/// Whether index `a` comes before index `b` in the ordering by the chosen coordinate.
pub fn comes_before(pts: &[Point], by_x: bool, a: usize, b: usize) -> (r: bool)
    requires
        a < pts@.len(),
        b < pts@.len(),
    ensures
        r == precedes(pts@, by_x, a as int, b as int),
{
    let ka = if by_x { pts[a].x } else { pts[a].y };
    let kb = if by_x { pts[b].x } else { pts[b].y };
    ka < kb || (ka == kb && a < b)
}

/// Merges two strictly sorted runs, one of indices in `lo..mid`, one of indices in `mid..hi`.
fn merge(
    pts: &[Point],
    by_x: bool,
    a: &Vec<usize>,
    b: &Vec<usize>,
    Ghost(lo): Ghost<int>,
    Ghost(mid): Ghost<int>,
    Ghost(hi): Ghost<int>,
) -> (r: Vec<usize>)
    requires
        0 <= lo <= mid <= hi <= pts@.len(),
        strictly_sorted(pts@, by_x, a@),
        strictly_sorted(pts@, by_x, b@),
        forall|t: int| 0 <= t < a@.len() ==> lo <= #[trigger] a@[t] < mid,
        forall|t: int| 0 <= t < b@.len() ==> mid <= #[trigger] b@[t] < hi,
    ensures
        r@.len() == a@.len() + b@.len(),
        forall|t: int| 0 <= t < r@.len() ==> lo <= #[trigger] r@[t] < hi,
        forall|t: int| 0 <= t < a@.len() ==> r@.contains(#[trigger] a@[t]),
        forall|t: int| 0 <= t < b@.len() ==> r@.contains(#[trigger] b@[t]),
        strictly_sorted(pts@, by_x, r@),
{
    let mut r: Vec<usize> = Vec::new();
    let mut i: usize = 0;
    let mut j: usize = 0;
    while i < a.len() || j < b.len()
        invariant
            0 <= lo <= mid <= hi <= pts@.len(),
            strictly_sorted(pts@, by_x, a@),
            strictly_sorted(pts@, by_x, b@),
            forall|t: int| 0 <= t < a@.len() ==> lo <= #[trigger] a@[t] < mid,
            forall|t: int| 0 <= t < b@.len() ==> mid <= #[trigger] b@[t] < hi,
            i <= a@.len(),
            j <= b@.len(),
            r@.len() == i + j,
            forall|t: int| 0 <= t < r@.len() ==> lo <= #[trigger] r@[t] < hi,
            forall|t: int| 0 <= t < i ==> r@.contains(#[trigger] a@[t]),
            forall|t: int| 0 <= t < j ==> r@.contains(#[trigger] b@[t]),
            strictly_sorted(pts@, by_x, r@),
            forall|t: int, u: int|
                0 <= t < r@.len() && i <= u < a@.len() ==> precedes(
                    pts@,
                    by_x,
                    #[trigger] r@[t] as int,
                    #[trigger] a@[u] as int,
                ),
            forall|t: int, u: int|
                0 <= t < r@.len() && j <= u < b@.len() ==> precedes(
                    pts@,
                    by_x,
                    #[trigger] r@[t] as int,
                    #[trigger] b@[u] as int,
                ),
        decreases a@.len() + b@.len() - i - j,
    {
        let ghost r0 = r@;
        let take_a = j == b.len() || (i < a.len() && comes_before(pts, by_x, a[i], b[j]));
        let v = if take_a { a[i] } else { b[j] };
        r.push(v);
        proof {
            assert(r@ == r0.push(v));
            assert(r@[r0.len() as int] == v);
            if take_a {
                assert(v == a@[i as int]);
            } else {
                assert(v == b@[j as int]);
            }
            assert forall|t: int| 0 <= t < r@.len() implies lo <= #[trigger] r@[t] < hi by {
                if t < r0.len() {
                    assert(r@[t] == r0[t]);
                }
            }
            if take_a {
                assert forall|u: int| i < u < a@.len() implies precedes(
                    pts@,
                    by_x,
                    v as int,
                    a@[u] as int,
                ) by {
                    assert(precedes(pts@, by_x, a@[i as int] as int, a@[u] as int));
                }
                assert forall|u: int| j <= u < b@.len() implies precedes(
                    pts@,
                    by_x,
                    v as int,
                    b@[u] as int,
                ) by {
                    if u > j {
                        assert(precedes(pts@, by_x, b@[j as int] as int, b@[u] as int));
                    }
                }
            } else {
                assert forall|u: int| i <= u < a@.len() implies precedes(
                    pts@,
                    by_x,
                    v as int,
                    a@[u] as int,
                ) by {
                    assert(a@[i as int] < mid <= b@[j as int]);
                    if u > i {
                        assert(precedes(pts@, by_x, a@[i as int] as int, a@[u] as int));
                    }
                }
                assert forall|u: int| j < u < b@.len() implies precedes(
                    pts@,
                    by_x,
                    v as int,
                    b@[u] as int,
                ) by {
                    assert(precedes(pts@, by_x, b@[j as int] as int, b@[u] as int));
                }
            }
            assert forall|t: int| 0 <= t < r0.len() implies r@.contains(#[trigger] r0[t]) by {
                assert(r@[t] == r0[t]);
            }
        }
        if take_a {
            proof {
                assert forall|t: int| 0 <= t < i + 1 implies r@.contains(#[trigger] a@[t]) by {
                    if t < i {
                        lemma_push_contains(r0, v, a@[t]);
                    }
                }
                assert forall|t: int| 0 <= t < j implies r@.contains(#[trigger] b@[t]) by {
                    lemma_push_contains(r0, v, b@[t]);
                }
            }
            i = i + 1;
        } else {
            proof {
                assert forall|t: int| 0 <= t < j + 1 implies r@.contains(#[trigger] b@[t]) by {
                    if t < j {
                        lemma_push_contains(r0, v, b@[t]);
                    }
                }
                assert forall|t: int| 0 <= t < i implies r@.contains(#[trigger] a@[t]) by {
                    lemma_push_contains(r0, v, a@[t]);
                }
            }
            j = j + 1;
        }
    }
    r
}

/// The indices `lo..hi` of `pts`, sorted by the chosen coordinate (merge sort).
pub fn sort_indices(pts: &[Point], by_x: bool, lo: usize, hi: usize) -> (r: Vec<usize>)
    requires
        lo <= hi <= pts@.len(),
    ensures
        r@.len() == hi - lo,
        forall|t: int| 0 <= t < r@.len() ==> lo <= #[trigger] r@[t] < hi,
        forall|k: usize| lo <= k < hi ==> r@.contains(k),
        strictly_sorted(pts@, by_x, r@),
    decreases hi - lo,
{
    if hi - lo <= 1 {
        let mut r: Vec<usize> = Vec::new();
        if lo < hi {
            r.push(lo);
            assert(r@[0] == lo);
        }
        return r;
    }
    let mid = lo + (hi - lo) / 2;
    let a = sort_indices(pts, by_x, lo, mid);
    let b = sort_indices(pts, by_x, mid, hi);
    let r = merge(pts, by_x, &a, &b, Ghost(lo as int), Ghost(mid as int), Ghost(hi as int));
    assert forall|k: usize| lo <= k < hi implies r@.contains(k) by {
        if k < mid {
            assert(a@.contains(k));
            let t = choose|t: int| 0 <= t < a@.len() && a@[t] == k;
            assert(r@.contains(a@[t]));
        } else {
            assert(b@.contains(k));
            let t = choose|t: int| 0 <= t < b@.len() && b@[t] == k;
            assert(r@.contains(b@[t]));
        }
    }
    r
}

} // verus!
