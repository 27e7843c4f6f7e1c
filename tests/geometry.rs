use skypoke::geometry::{
    distance_sq, frac_lt, in_range, make_line, nearer, nearer_hit, GeomError, Hit, Line, Point,
    Segment, MAX_COORD,
};
use skypoke::intersect::{intersect, DEFAULT_TOL_INV};
use skypoke::reduce::{fold_nearest, fold_step};
use skypoke::wide::{wide_add, wide_from, wide_lt, wide_mul};

fn pt(x: i32, y: i32) -> Point {
    Point { x, y }
}

fn seg(px: i32, py: i32, qx: i32, qy: i32) -> Segment {
    Segment::new(pt(px, py), pt(qx, qy))
}

fn meet(a: &Segment, b: &Segment) -> Option<Hit> {
    intersect(a, b, DEFAULT_TOL_INV).unwrap()
}

/// The hit is the exact point (xn / xd, yn / yd).
fn hit_is(h: Option<Hit>, xn: i128, xd: i128, yn: i128, yd: i128) -> bool {
    match h {
        Some(h) => h.x * xd == xn * h.den && h.y * yd == yn * h.den,
        None => false,
    }
}

#[test]
fn crossing_segments_meet_at_their_crossing() {
    let ray = seg(0, 0, 10, 0);
    let cand = seg(5, -5, 5, 5);
    let h = meet(&ray, &cand).unwrap();
    assert!(h.is_at(5, 0));
}

#[test]
fn parallel_segments_do_not_meet() {
    let ray = seg(0, 0, 10, 0);
    let cand = seg(0, 1, 10, 1);
    assert_eq!(intersect(&ray, &cand, DEFAULT_TOL_INV), Ok(None));
}

#[test]
fn collinear_overlap_reports_ray_anchor() {
    let ray = seg(0, 0, 10, 0);
    let cand = seg(-5, 0, 5, 0);
    assert_eq!(meet(&ray, &cand), Some(Hit { x: 0, y: 0, den: 1 }));
}

#[test]
fn fold_keeps_nearest_point() {
    let ray = seg(0, 0, 10, 0);
    let cands = vec![seg(5, -1, 5, 1), seg(2, -1, 2, 1)];
    let h = fold_nearest(&ray, &cands, DEFAULT_TOL_INV).unwrap().unwrap();
    assert!(h.is_at(2, 0));
}

#[test]
fn degenerate_segment_has_no_line() {
    let s = Segment { p: pt(3, 4), q: pt(3, 4) };
    assert_eq!(make_line(&s), Err(GeomError::DegenerateSegment));
}

#[test]
fn line_coefficients_are_exact() {
    let s = seg(1, 2, 4, 6);
    assert_eq!(make_line(&s), Ok(Line { a: -4, b: 3, c: -2 }));
}

#[test]
fn in_range_ignores_bound_order() {
    assert!(in_range(1, 3, 5));
    assert!(in_range(5, 3, 1));
    assert!(in_range(5, 5, 1));
    assert!(in_range(1, 1, 5));
    assert!(!in_range(1, 6, 5));
    assert!(!in_range(5, 6, 1));
    assert!(!in_range(5, 0, 1));
}

#[test]
fn nearer_picks_closer_point() {
    assert_eq!(nearer(&pt(0, 0), &pt(1, 1), &pt(3, 0)), pt(1, 1));
    assert_eq!(nearer(&pt(0, 0), &pt(3, 0), &pt(1, 1)), pt(1, 1));
}

#[test]
fn nearer_tie_goes_to_second() {
    assert_eq!(nearer(&pt(0, 0), &pt(3, 4), &pt(5, 0)), pt(5, 0));
    assert_eq!(nearer(&pt(0, 0), &pt(5, 0), &pt(3, 4)), pt(3, 4));
    assert_eq!(nearer(&pt(1, 1), &pt(2, 2), &pt(2, 2)), pt(2, 2));
}

#[test]
fn nearer_hit_compares_exact_points() {
    let anchor = pt(0, 0);
    let three_halves = Hit { x: 3, y: 0, den: 2 };
    let two = Hit { x: 2, y: 0, den: 1 };
    assert_eq!(nearer_hit(&anchor, &three_halves, &two), three_halves);
    assert_eq!(nearer_hit(&anchor, &two, &three_halves), three_halves);
    // equal distances, written differently: the second wins
    let two_again = Hit { x: 4, y: 0, den: 2 };
    assert_eq!(nearer_hit(&anchor, &two_again, &two), two);
    assert_eq!(nearer_hit(&anchor, &two, &two_again), two_again);
}

#[test]
fn frac_lt_compares_without_overflow() {
    assert!(frac_lt(1, 3, 1, 2));
    assert!(!frac_lt(1, 2, 1, 3));
    assert!(!frac_lt(2, 4, 1, 2));
    assert!(frac_lt(u128::MAX - 1, u128::MAX, 1, 1));
    assert!(!frac_lt(u128::MAX, u128::MAX, 1, 1));
    assert!(frac_lt(u128::MAX - 1, 3, u128::MAX, 3));
    assert!(frac_lt(0, 5, 1, u128::MAX));
}

#[test]
fn distance_sq_is_exact() {
    assert_eq!(distance_sq(&pt(1, 2), &pt(4, 6)), 25);
    assert_eq!(
        distance_sq(&pt(i32::MIN, i32::MIN), &pt(i32::MAX, i32::MAX)),
        2 * (u32::MAX as i128) * (u32::MAX as i128)
    );
}

#[test]
fn segment_new_orders_by_x() {
    let s = Segment::new(pt(4, 1), pt(-2, 7));
    assert_eq!(s, Segment { p: pt(-2, 7), q: pt(4, 1) });
    let t = Segment::new(pt(-2, 7), pt(4, 1));
    assert_eq!(t, s);
}

#[test]
fn hit_from_point_and_is_at() {
    let h = Hit::from_point(pt(-3, 8));
    assert_eq!(h, Hit { x: -3, y: 8, den: 1 });
    assert!(h.is_at(-3, 8));
    assert!(Hit { x: -6, y: 16, den: 2 }.is_at(-3, 8));
    assert!(!Hit { x: -6, y: 16, den: 3 }.is_at(-3, 8));
}

#[test]
fn crossing_point_is_exact() {
    let ray = seg(0, 0, 10, 0);
    // meets at x = 3/2
    let h = meet(&ray, &seg(0, -1, 3, 1));
    assert!(hit_is(h, 3, 2, 0, 1));
    assert!(!hit_is(h, 2, 1, 0, 1));
    // meets at x = 4/3
    assert!(hit_is(meet(&ray, &seg(0, -1, 4, 2)), 4, 3, 0, 1));
    // meets at (1/2, 1/2)
    assert!(hit_is(meet(&seg(0, 0, 1, 1), &seg(0, 1, 1, 0)), 1, 2, 1, 2));
}

#[test]
fn crossing_outside_ray_box_is_rejected() {
    let ray = seg(0, 0, 10, 0);
    assert_eq!(meet(&ray, &seg(12, -1, 12, 1)), None);
    assert_eq!(meet(&ray, &seg(-3, -1, -3, 1)), None);
}

#[test]
fn crossing_outside_candidate_box_is_rejected() {
    let ray = seg(0, 0, 10, 0);
    assert_eq!(meet(&ray, &seg(5, 1, 5, 4)), None);
}

#[test]
fn crossing_at_candidate_endpoint_counts() {
    let ray = seg(0, 0, 10, 0);
    assert!(meet(&ray, &seg(5, 0, 5, 4)).unwrap().is_at(5, 0));
    assert!(meet(&ray, &seg(10, -3, 10, 3)).unwrap().is_at(10, 0));
}

#[test]
fn vertical_ray_is_bounded_at_both_ends() {
    let ray = seg(0, 0, 0, 10);
    assert!(meet(&ray, &seg(-1, 5, 1, 5)).unwrap().is_at(0, 5));
    assert_eq!(meet(&ray, &seg(-1, 15, 1, 15)), None);
    assert_eq!(meet(&ray, &seg(-1, -5, 1, -5)), None);
}

#[test]
fn swapping_ray_and_candidate_gives_same_point() {
    let a = seg(0, 0, 10, 0);
    let b = seg(5, -5, 5, 5);
    assert!(meet(&a, &b).unwrap().is_at(5, 0));
    assert_eq!(meet(&a, &b), meet(&b, &a));
    let c = seg(0, -1, 3, 1);
    assert_eq!(meet(&a, &c), meet(&c, &a));
    let v = seg(0, 0, 0, 10);
    let w = seg(-1, 15, 1, 15);
    assert_eq!(meet(&v, &w), meet(&w, &v));
}

#[test]
fn collinear_candidate_ahead_reports_nearer_endpoint() {
    let ray = seg(0, 0, 10, 0);
    assert!(meet(&ray, &seg(2, 0, 8, 0)).unwrap().is_at(2, 0));
    assert!(meet(&ray, &seg(8, 0, 20, 0)).unwrap().is_at(8, 0));
}

#[test]
fn collinear_candidate_behind_is_missed() {
    let ray = seg(0, 0, 10, 0);
    assert_eq!(meet(&ray, &seg(-8, 0, -2, 0)), None);
}

#[test]
fn tolerance_decides_near_parallel_lines() {
    let ray = seg(0, 0, 500000, 1);
    let cand = seg(0, 1, 500000, 1);
    // at 1e-8 the lines cross, at the shared endpoint
    assert!(meet(&ray, &cand).unwrap().is_at(500000, 1));
    // at 1e-2 they count as parallel, with different offsets
    assert_eq!(intersect(&ray, &cand, 100), Ok(None));
}

#[test]
fn near_parallel_lines_with_equal_offsets_are_collinear() {
    let ray = seg(0, 0, 500000, 1);
    let cand = seg(-10, 0, 10, 0);
    // both lines pass through the origin; at 1e-2 they count as one line
    assert!(intersect(&ray, &cand, 100).unwrap().unwrap().is_at(0, 0));
}

#[test]
fn intersect_rejects_degenerate_segments() {
    let ray = seg(0, 0, 10, 0);
    let dot = Segment { p: pt(5, 0), q: pt(5, 0) };
    assert_eq!(intersect(&ray, &dot, DEFAULT_TOL_INV), Err(GeomError::DegenerateSegment));
    assert_eq!(intersect(&dot, &ray, DEFAULT_TOL_INV), Err(GeomError::DegenerateSegment));
}

#[test]
fn extreme_coordinates_do_not_overflow() {
    let m = MAX_COORD;
    let ray = seg(-m, -m, m, m);
    let cand = seg(-m, m, m, -m);
    assert!(meet(&ray, &cand).unwrap().is_at(0, 0));
    let cand2 = seg(-m, m - 1, m, -m);
    // meets the diagonal at x = y = -m / (4m - 1)
    let (mn, md) = (-(m as i128), 4 * (m as i128) - 1);
    assert!(hit_is(meet(&ray, &cand2), mn, md, mn, md));
}

#[test]
fn fold_of_no_candidates_is_none() {
    let ray = seg(0, 0, 10, 0);
    assert_eq!(fold_nearest(&ray, &vec![], DEFAULT_TOL_INV), Ok(None));
}

#[test]
fn fold_skips_candidates_that_miss() {
    let ray = seg(0, 0, 10, 0);
    let cands = vec![seg(0, 1, 10, 1), seg(7, -1, 7, 1), seg(12, -1, 12, 1)];
    let h = fold_nearest(&ray, &cands, DEFAULT_TOL_INV).unwrap().unwrap();
    assert!(h.is_at(7, 0));
}

#[test]
fn fold_compares_exact_points() {
    let ray = seg(0, 0, 10, 0);
    let cands = vec![seg(0, -1, 3, 1), seg(0, -1, 4, 2), seg(5, -1, 5, 1)];
    let h = fold_nearest(&ray, &cands, DEFAULT_TOL_INV).unwrap();
    assert!(hit_is(h, 4, 3, 0, 1));
}

#[test]
fn fold_fails_on_degenerate_input() {
    let ray = seg(0, 0, 10, 0);
    let dot = Segment { p: pt(5, 0), q: pt(5, 0) };
    assert_eq!(
        fold_nearest(&ray, &vec![seg(5, -1, 5, 1), dot], DEFAULT_TOL_INV),
        Err(GeomError::DegenerateSegment)
    );
    assert_eq!(fold_nearest(&dot, &vec![], DEFAULT_TOL_INV), Err(GeomError::DegenerateSegment));
}

#[test]
fn fold_step_tracks_best_point() {
    let ray = seg(0, 0, 10, 0);
    let t = DEFAULT_TOL_INV;
    let b1 = fold_step(&ray, None, &seg(5, -1, 5, 1), t).unwrap();
    assert!(b1.unwrap().is_at(5, 0));
    let b2 = fold_step(&ray, b1, &seg(2, -1, 2, 1), t).unwrap();
    assert!(b2.unwrap().is_at(2, 0));
    let b3 = fold_step(&ray, b2, &seg(8, -1, 8, 1), t).unwrap();
    assert_eq!(b3, b2);
    let b4 = fold_step(&ray, b3, &seg(0, 1, 10, 1), t).unwrap();
    assert_eq!(b4, b2);
}

#[test]
fn near_parallel_lines_with_near_offsets_share_start() {
    // parallel within 1e-8, offsets about 2.5e-9 apart: one line
    let ray = seg(1, 0, 20001, 1);
    let cand = seg(1, 0, 20002, 1);
    assert!(meet(&ray, &cand).unwrap().is_at(1, 0));
}

#[test]
fn offsets_beyond_tolerance_are_different_lines() {
    // parallel lines with offsets 0 and -1
    let ray = seg(0, 0, 10, 0);
    let cand = seg(0, 1, 10, 1);
    assert_eq!(intersect(&ray, &cand, 100), Ok(None));
    // at tolerance 1 the offsets still differ by not less than 1
    assert_eq!(intersect(&ray, &cand, 1), Ok(None));
}

#[test]
fn offsets_of_opposite_sign_within_tolerance() {
    // parallel lines with offsets 1/sqrt(5) and -1/sqrt(5), about 0.894 apart
    let ray = seg(1, 0, 3, 1);
    let cand = seg(-1, 0, 1, 1);
    // at tolerance 1 they count as one line; the ray starts in the candidate's box
    assert_eq!(intersect(&ray, &cand, 1).unwrap(), Some(Hit { x: 1, y: 0, den: 1 }));
    // at tolerance 1/2 they do not
    assert_eq!(intersect(&ray, &cand, 2), Ok(None));
}

#[test]
fn wide_arithmetic_is_exact() {
    let big = wide_from(u128::MAX);
    let one = wide_from(1);
    let sum = wide_add(&big, &one);
    // 2^128 is above u128::MAX
    assert!(wide_lt(&big, &sum));
    assert!(!wide_lt(&sum, &big));
    let sq = wide_mul(&big, &big);
    let sq_plus = wide_add(&sq, &one);
    assert!(wide_lt(&sq, &sq_plus));
    // (2^128 - 1)^2 + 2 * (2^128 - 1) + 1 == (2^128)^2
    let two_big = wide_mul(&wide_from(2), &big);
    let lhs = wide_add(&wide_add(&sq, &two_big), &one);
    let rhs = wide_mul(&sum, &sum);
    assert!(!wide_lt(&lhs, &rhs) && !wide_lt(&rhs, &lhs));
    assert!(wide_lt(&wide_from(3), &wide_from(4)));
    assert!(!wide_lt(&wide_from(4), &wide_from(4)));
    assert!(!wide_lt(&wide_from(0), &wide_mul(&wide_from(0), &wide_from(0))));
}
