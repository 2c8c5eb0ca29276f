use closest_pair::{brute_force, closest_pair, ClosestPairError, Point};

fn pt(x: i32, y: i32) -> Point {
    Point { x, y }
}

fn naive_min(points: &[Point]) -> u128 {
    let mut best = u128::MAX;
    for i in 0..points.len() {
        for j in 0..points.len() {
            if i != j {
                let dx = (points[i].x as i128 - points[j].x as i128).unsigned_abs();
                let dy = (points[i].y as i128 - points[j].y as i128).unsigned_abs();
                best = best.min(dx * dx + dy * dy);
            }
        }
    }
    best
}

/// A small linear congruential generator, so that the sets are the same on every run.
struct Lcg(u64);

impl Lcg {
    fn next(&mut self, range: i32) -> i32 {
        self.0 = self.0.wrapping_mul(6364136223846793005).wrapping_add(1442695040888963407);
        ((self.0 >> 33) % (2 * range as u64 + 1)) as i32 - range
    }
}

fn random_points(seed: u64, n: usize, range: i32) -> Vec<Point> {
    let mut g = Lcg(seed);
    (0..n).map(|_| pt(g.next(range), g.next(range))).collect()
}

fn check_result(points: &[Point]) -> (Point, Point, u128) {
    let (a, b, d) = closest_pair(points).unwrap();
    assert_eq!(d, a.distance_sq(&b));
    assert_eq!(d, naive_min(points));
    let positions_a: Vec<usize> = (0..points.len()).filter(|&i| points[i] == a).collect();
    let positions_b: Vec<usize> = (0..points.len()).filter(|&i| points[i] == b).collect();
    assert!(!positions_a.is_empty() && !positions_b.is_empty());
    if a == b {
        assert!(positions_a.len() >= 2);
    }
    (a, b, d)
}

#[test]
fn four_points_scenario() {
    // (0,0), (3,4), (1,1), (1,1.2) at ten times the scale: the pair is 2 apart.
    let points = vec![pt(0, 0), pt(30, 40), pt(10, 10), pt(10, 12)];
    let (a, b, d) = closest_pair(&points).unwrap();
    assert_eq!(d, 4);
    assert!((a == pt(10, 10) && b == pt(10, 12)) || (a == pt(10, 12) && b == pt(10, 10)));
    assert_eq!(pt(0, 0).distance_sq(&pt(30, 40)), 2500);
}

#[test]
fn coincident_points_scenario() {
    let points = vec![pt(2, 2), pt(2, 2), pt(5, 5)];
    let (a, b, d) = closest_pair(&points).unwrap();
    assert_eq!(d, 0);
    assert_eq!(a, pt(2, 2));
    assert_eq!(b, pt(2, 2));
}

#[test]
fn too_few_points_is_an_error() {
    assert_eq!(closest_pair(&[]), Err(ClosestPairError::TooFewPoints));
    assert_eq!(closest_pair(&[pt(1, 1)]), Err(ClosestPairError::TooFewPoints));
}

#[test]
fn two_points_give_themselves() {
    let points = vec![pt(-3, 7), pt(9, 2)];
    let (a, b, d) = closest_pair(&points).unwrap();
    assert!((a == points[0] && b == points[1]) || (a == points[1] && b == points[0]));
    assert_eq!(d, 144 + 25);
}

#[test]
fn identical_points_give_zero() {
    for n in [2usize, 3, 7, 8, 9, 50] {
        let points = vec![pt(-4, 11); n];
        let (a, b, d) = closest_pair(&points).unwrap();
        assert_eq!(d, 0);
        assert_eq!(a, pt(-4, 11));
        assert_eq!(b, pt(-4, 11));
    }
}

#[test]
fn vertical_line() {
    for n in [8usize, 15, 16, 31, 100] {
        let mut g = Lcg(n as u64);
        let points: Vec<Point> = (0..n).map(|_| pt(5, g.next(1000))).collect();
        check_result(&points);
    }
    let points: Vec<Point> = (0..40).map(|i| pt(0, (i * 7) % 40 * 3)).collect();
    let (_, _, d) = check_result(&points);
    assert_eq!(d, 9);
}

#[test]
fn many_points_on_the_dividing_line() {
    // Half the points share the x of the split, so the equal-x rule decides where they go.
    let mut points = Vec::new();
    for i in 0..20 {
        points.push(pt(-100 - i, 1000 * i));
        points.push(pt(0, 37 * i + 500));
    }
    points.push(pt(1, 500));
    points.push(pt(50, -7));
    let (_, _, d) = check_result(&points);
    assert_eq!(d, 1);
}

#[test]
fn agrees_with_brute_force() {
    for n in 2..=200usize {
        for (seed, range) in [(n as u64, 1000), (n as u64 + 7919, 10), (n as u64 * 31, 1_000_000)] {
            let points = random_points(seed, n, range);
            let (_, _, d) = check_result(&points);
            let (a, b, e) = brute_force(&points);
            assert_eq!(d, e);
            assert_eq!(e, a.distance_sq(&b));
        }
    }
}

#[test]
fn brute_force_scenario() {
    let points = vec![pt(0, 0), pt(30, 40), pt(10, 10), pt(10, 12)];
    let (a, b, d) = brute_force(&points);
    assert_eq!(d, 4);
    assert_eq!((a, b), (pt(10, 10), pt(10, 12)));
}

#[test]
fn order_of_input_does_not_matter() {
    let points = random_points(42, 120, 500);
    let (a, b, d) = closest_pair(&points).unwrap();
    assert_eq!(a.distance_sq(&b), b.distance_sq(&a));
    let mut reversed = points.clone();
    reversed.reverse();
    assert_eq!(closest_pair(&reversed).unwrap().2, d);
    let mut rotated = points.clone();
    rotated.rotate_left(37);
    assert_eq!(closest_pair(&rotated).unwrap().2, d);
    let mut swapped = points.clone();
    swapped.swap(0, 119);
    assert_eq!(closest_pair(&swapped).unwrap().2, d);
}

#[test]
fn scaling_scales_the_distance() {
    let points = random_points(7, 90, 1000);
    let (a, b, d) = closest_pair(&points).unwrap();
    let k = 3;
    let scaled: Vec<Point> = points.iter().map(|p| pt(k * p.x, k * p.y)).collect();
    let (a2, b2, d2) = closest_pair(&scaled).unwrap();
    assert_eq!(d2, 9 * d);
    assert_eq!(a2.distance_sq(&b2), 9 * a.distance_sq(&b));
}

#[test]
fn distance_is_exact_at_the_extremes() {
    let lo = pt(i32::MIN, i32::MIN);
    let hi = pt(i32::MAX, i32::MAX);
    let g = u32::MAX as u128;
    assert_eq!(lo.distance_sq(&hi), 2 * g * g);
    assert_eq!(hi.distance_sq(&lo), 2 * g * g);
    assert_eq!(pt(0, 0).distance_sq(&pt(3, 4)), 25);
    assert_eq!(pt(-1, -1).distance_sq(&pt(-1, -1)), 0);
    let points = vec![lo, hi, pt(0, 0)];
    let (_, _, d) = closest_pair(&points).unwrap();
    let m = (1u128 << 31) - 1;
    assert_eq!(d, 2 * m * m);
}
