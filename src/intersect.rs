use vstd::prelude::*;
use crate::wide::{value, wide_add, wide_from, wide_lt, wide_mul};
use crate::geometry::{
    between, frac_lt, hit_of, Line, in_range, line_of, make_line, nearer, nearer_of, GeomError, Hit,
    Segment, MAX_COORD,
};

verus! {

/// Cross product of the two lines' normals: zero exactly when the lines are
/// parallel or identical.
pub open spec fn denom(a: Segment, b: Segment) -> int {
    let (a1, b1, _c1) = line_of(a);
    let (a2, b2, _c2) = line_of(b);
    a1 * b2 - a2 * b1
}

/// The default tolerance, `1e-8`, as the reciprocal that `intersect` takes.
pub const DEFAULT_TOL_INV: u32 = 100_000_000;

/// The lines are parallel within the tolerance `1 / tol_inv`: the cross
/// product of their unit normals, `denom / sqrt(n1 * n2)`, is smaller than the
/// tolerance in size. Written squared and without roots.
pub open spec fn near_parallel(a: Segment, b: Segment, tol_inv: int) -> bool {
    let (a1, b1, _c1) = line_of(a);
    let (a2, b2, _c2) = line_of(b);
    denom(a, b) * denom(a, b) * (tol_inv * tol_inv) < (a1 * a1 + b1 * b1) * (a2 * a2 + b2 * b2)
}

/// With `T = tol_inv`, the squares `(T²c1²n2, T²c2²n1, n1n2)` of the two
/// lines' unit-normal offsets and of the tolerance, all scaled by
/// `(T * sqrt(n1 * n2))²`, where `n = a² + b²`.
pub open spec fn scaled_offsets(a: Segment, b: Segment, tol_inv: int) -> (int, int, int) {
    let (a1, b1, c1) = line_of(a);
    let (a2, b2, c2) = line_of(b);
    let n1 = a1 * a1 + b1 * b1;
    let n2 = a2 * a2 + b2 * b2;
    ((tol_inv * tol_inv) * (c1 * c1) * n2, (tol_inv * tol_inv) * (c2 * c2) * n1, n1 * n2)
}

/// The unit-normal offsets of the two lines agree within the tolerance:
/// `|c1 / sqrt(n1) - c2 / sqrt(n2)| < 1 / tol_inv`, written without roots.
/// Scaled by `tol_inv * sqrt(n1 * n2)`, the offsets are `sgn(c1) * sqrt(x)` and
/// `sgn(c2) * sqrt(y)` and the tolerance is `sqrt(n)`, for `(x, y, n)` the
/// scaled squares; squaring, the test reads
/// `x + y - n < 2 * sgn(c1 * c2) * sqrt(x * y)`.
pub open spec fn offsets_within(a: Segment, b: Segment, tol_inv: int) -> bool {
    let (_a1, _b1, c1) = line_of(a);
    let (_a2, _b2, c2) = line_of(b);
    let (x, y, n) = scaled_offsets(a, b, tol_inv);
    let l = x + y - n;
    if c1 * c2 >= 0 {
        l < 0 || l * l < 4 * (x * y)
    } else {
        l < 0 && l * l > 4 * (x * y)
    }
}

/// The meeting point of the two lines by Cramer's rule, as `(x_num, y_num, den)`
/// with `den > 0`: the point is `(x_num / den, y_num / den)`. Meaningful when
/// `denom(a, b) != 0`.
pub open spec fn crossing(a: Segment, b: Segment) -> (int, int, int) {
    let (a1, b1, c1) = line_of(a);
    let (a2, b2, c2) = line_of(b);
    let d = a1 * b2 - a2 * b1;
    let xn = b1 * c2 - b2 * c1;
    let yn = a2 * c1 - a1 * c2;
    if d > 0 {
        (xn, yn, d)
    } else {
        (-xn, -yn, -d)
    }
}

/// `(p - q) * (p - m / den) >= 0` for `den > 0`: seen from `q`, the value
/// `m / den` is not strictly behind `p`.
pub open spec fn ahead(p: int, q: int, m: int, den: int) -> bool {
    (p - q) * (p * den - m) >= 0
}

/// The point `(xn / den, yn / den)`, `den > 0`, lies in the bounding box of `s`.
pub open spec fn in_box(s: Segment, xn: int, yn: int, den: int) -> bool {
    &&& between(s.p.x * den, xn, s.q.x * den)
    &&& between(s.p.y * den, yn, s.q.y * den)
}

/// The point `(xn / den, yn / den)` lies on the line through `s`.
pub open spec fn on_line(s: Segment, xn: int, yn: int, den: int) -> bool {
    let (a, b, c) = line_of(s);
    a * xn + b * yn + c * den == 0
}

/// The checks that accept the meeting point of two crossing lines: within the
/// ray's bounding box, not behind the ray's first endpoint on either axis, and
/// within the candidate's bounding box.
pub open spec fn accepts(ray: Segment, cand: Segment) -> bool {
    let (xn, yn, d) = crossing(ray, cand);
    &&& in_box(ray, xn, yn, d)
    &&& ahead(ray.p.x as int, ray.q.x as int, xn, d)
    &&& ahead(ray.p.y as int, ray.q.y as int, yn, d)
    &&& in_box(cand, xn, yn, d)
}

/// The exact meeting point of two crossing lines.
pub open spec fn crossing_hit(a: Segment, b: Segment) -> Hit {
    let (xn, yn, d) = crossing(a, b);
    Hit { x: xn as i128, y: yn as i128, den: d as i128 }
}

/// What intersecting the ray with a candidate yields, for non-degenerate
/// segments and the tolerance `1 / tol_inv`.
pub open spec fn intersection(ray: Segment, cand: Segment, tol_inv: int) -> Option<Hit> {
    if near_parallel(ray, cand, tol_inv) {
        if offsets_within(ray, cand, tol_inv) {
            if between(cand.p.x as int, ray.p.x as int, cand.q.x as int) && between(
                cand.p.y as int,
                ray.p.y as int,
                cand.q.y as int,
            ) {
                Some(hit_of(ray.p))
            } else if (ray.p.x - ray.q.x) * (ray.p.x - cand.p.x) >= 0 && (ray.p.y - ray.q.y) * (
            ray.p.y - cand.p.y) >= 0 {
                Some(hit_of(nearer_of(ray.p, cand.p, cand.q)))
            } else {
                None
            }
        } else {
            None
        }
    } else if accepts(ray, cand) {
        Some(crossing_hit(ray, cand))
    } else {
        None
    }
}

proof fn lemma_bounded_line(s: Segment)
    requires
        s.is_bounded(),
    ensures
        ({
            let (a, b, c) = line_of(s);
            &&& -0x10_0000 <= a <= 0x10_0000
            &&& -0x10_0000 <= b <= 0x10_0000
            &&& -0x80_0000_0000 <= c <= 0x80_0000_0000
            &&& 0 <= a * a + b * b <= 0x200_0000_0000
            &&& 0 <= c * c <= 0x4000_0000_0000_0000_0000
        }),
{
    let (a, b, c) = line_of(s);
    let (px, py, qx, qy) = (s.p.x as int, s.p.y as int, s.q.x as int, s.q.y as int);
    lemma_mul_bound(px, qy, 0x8_0000, 0x8_0000);
    lemma_mul_bound(qx, py, 0x8_0000, 0x8_0000);
    lemma_mul_bound(a, a, 0x10_0000, 0x10_0000);
    lemma_mul_bound(b, b, 0x10_0000, 0x10_0000);
    lemma_mul_bound(c, c, 0x80_0000_0000, 0x80_0000_0000);
    assert(a * a >= 0 && b * b >= 0 && c * c >= 0) by (nonlinear_arith);
}

/// Inside a box of bounded coordinates, the scaled point is bounded too.
proof fn lemma_box_bounded(l: int, m: int, r: int, d: int)
    by (nonlinear_arith)
    requires
        d > 0,
        -0x8_0000 <= l <= 0x8_0000,
        -0x8_0000 <= r <= 0x8_0000,
        between(l * d, m, r * d),
    ensures
        -0x8_0000 * d <= m <= 0x8_0000 * d,
{
}

proof fn lemma_mul_bound(x: int, y: int, mx: int, my: int)
    by (nonlinear_arith)
    requires
        -mx <= x <= mx,
        -my <= y <= my,
    ensures
        -(mx * my) <= x * y <= mx * my,
{
}

proof fn lemma_sign_of_product(u: int, v: int)
    by (nonlinear_arith)
    ensures
        (u * v >= 0) == (u == 0 || v == 0 || (u > 0) == (v > 0)),
{
}

/// Whether `u * v >= 0`, decided from the signs alone.
fn product_nonneg(u: i128, v: i128) -> (r: bool)
    ensures
        r == (u * v >= 0),
{
    proof {
        lemma_sign_of_product(u as int, v as int);
    }
    u == 0 || v == 0 || (u > 0) == (v > 0)
}

/// Whether `m / den` lies between `l` and `r`, for `den > 0`.
fn frac_in_range(l: i32, m: i128, den: i128, r: i32) -> (res: bool)
    requires
        0 < den <= 0x4_0000_0000_0000_0000,
    ensures
        res == between(l * den, m as int, r * den),
{
    proof {
        lemma_mul_bound(l as int, den as int, 0x8000_0000, 0x4_0000_0000_0000_0000);
        lemma_mul_bound(r as int, den as int, 0x8000_0000, 0x4_0000_0000_0000_0000);
    }
    let lo = l as i128 * den;
    let hi = r as i128 * den;
    (lo <= m && m <= hi) || (hi <= m && m <= lo)
}

proof fn lemma_crossing_on_lines(a: Segment, b: Segment)
    requires
        denom(a, b) != 0,
    ensures
        ({
            let (xn, yn, d) = crossing(a, b);
            &&& d > 0
            &&& on_line(a, xn, yn, d)
            &&& on_line(b, xn, yn, d)
        }),
{
    let (a1, b1, c1) = line_of(a);
    let (a2, b2, c2) = line_of(b);
    let (xn, yn, d) = crossing(a, b);
    let d0 = a1 * b2 - a2 * b1;
    let xn0 = b1 * c2 - b2 * c1;
    let yn0 = a2 * c1 - a1 * c2;
    assert(a1 * (b1 * c2 - b2 * c1) + b1 * (a2 * c1 - a1 * c2) + c1 * (a1 * b2 - a2 * b1) == 0)
        by (nonlinear_arith);
    assert(a2 * (b1 * c2 - b2 * c1) + b2 * (a2 * c1 - a1 * c2) + c2 * (a1 * b2 - a2 * b1) == 0)
        by (nonlinear_arith);
    assert(a1 * xn + b1 * yn + c1 * d == 0 && a2 * xn + b2 * yn + c2 * d == 0)
        by (nonlinear_arith)
        requires
            a1 * xn0 + b1 * yn0 + c1 * d0 == 0,
            a2 * xn0 + b2 * yn0 + c2 * d0 == 0,
            (xn == xn0 && yn == yn0 && d == d0) || (xn == -xn0 && yn == -yn0 && d == -d0),
    ;
}

/// Within a box, a value is not behind the box's first bound.
proof fn lemma_ahead_of_between(p: int, q: int, m: int, d: int)
    by (nonlinear_arith)
    requires
        d > 0,
        between(p * d, m, q * d),
    ensures
        ahead(p, q, m, d),
{
}

proof fn lemma_square_test(x: int, y: int, n: int)
    by (nonlinear_arith)
    ensures
        (x + y - n) * (x + y - n) == (x + y) * (x + y) + n * n - 2 * (n * (x + y)),
{
}

/// Whether the unit-normal offsets of the lines of `ray` and `cand`, with
/// coefficients `l1` and `l2`, agree within `1 / tol_inv`.
fn offsets_within_exec(ray: &Segment, cand: &Segment, l1: &Line, l2: &Line, tol_inv: u32) -> (r:
    bool)
    requires
        (l1.a as int, l1.b as int, l1.c as int) == line_of(*ray),
        (l2.a as int, l2.b as int, l2.c as int) == line_of(*cand),
        ray.is_bounded(),
        cand.is_bounded(),
    ensures
        r == offsets_within(*ray, *cand, tol_inv as int),
{
    proof {
        lemma_bounded_line(*ray);
        lemma_bounded_line(*cand);
        lemma_mul_bound(l1.c as int, l2.c as int, 0x80_0000_0000, 0x80_0000_0000);
        lemma_mul_bound(l1.a as int, l1.a as int, 0x10_0000, 0x10_0000);
        lemma_mul_bound(l1.b as int, l1.b as int, 0x10_0000, 0x10_0000);
        lemma_mul_bound(l2.a as int, l2.a as int, 0x10_0000, 0x10_0000);
        lemma_mul_bound(l2.b as int, l2.b as int, 0x10_0000, 0x10_0000);
    }
    let n1 = l1.a * l1.a + l1.b * l1.b;
    let n2 = l2.a * l2.a + l2.b * l2.b;
    proof {
        lemma_mul_bound(n1 as int, n2 as int, 0x200_0000_0000, 0x200_0000_0000);
        assert(n1 * n2 >= 0) by (nonlinear_arith)
            requires
                n1 >= 0,
                n2 >= 0,
        ;
    }
    proof {
        lemma_mul_bound(tol_inv as int, tol_inv as int, 0xffff_ffff, 0xffff_ffff);
    }
    let t2 = tol_inv as u128 * tol_inv as u128;
    let w_t2 = wide_from(t2);
    let wx = wide_mul(&wide_mul(&w_t2, &wide_from((l1.c * l1.c) as u128)), &wide_from(n2 as u128));
    let wy = wide_mul(&wide_mul(&w_t2, &wide_from((l2.c * l2.c) as u128)), &wide_from(n1 as u128));
    let wn = wide_from((n1 * n2) as u128);
    let ws = wide_add(&wx, &wy);
    let lhs = wide_add(&wide_mul(&ws, &ws), &wide_mul(&wn, &wn));
    let rhs = wide_add(
        &wide_mul(&wide_from(4), &wide_mul(&wx, &wy)),
        &wide_mul(&wide_from(2), &wide_mul(&wn, &ws)),
    );
    let below = wide_lt(&ws, &wn);
    proof {
        let (x, y, n) = scaled_offsets(*ray, *cand, tol_inv as int);
        assert(value(wx@) == x);
        assert(value(wy@) == y);
        assert(value(wn@) == n);
        lemma_square_test(x, y, n);
    }
    if l1.c * l2.c >= 0 {
        below || wide_lt(&lhs, &rhs)
    } else {
        below && wide_lt(&rhs, &lhs)
    }
}

/// Intersects the ray with a candidate segment, with the tolerance
/// `1 / tol_inv`.
///
/// Lines parallel within the tolerance meet only when their unit-normal
/// offsets agree within the tolerance; then the ray's first endpoint is reported when it lies in
/// the candidate's box, or else, when it is not behind the candidate's first
/// endpoint on either axis, the candidate endpoint nearer to it. Other lines
/// meet at one point, reported exactly when it lies within both segments'
/// bounding boxes and is not behind the ray's first endpoint.
pub fn intersect(ray: &Segment, cand: &Segment, tol_inv: u32) -> (r: Result<Option<Hit>, GeomError>)
    requires
        ray.is_bounded(),
        cand.is_bounded(),
        tol_inv > 0,
    ensures
        r is Err <==> (ray.is_degenerate() || cand.is_degenerate()),
        r is Err ==> r == Err::<Option<Hit>, GeomError>(GeomError::DegenerateSegment),
        r matches Ok(o) ==> o == intersection(*ray, *cand, tol_inv as int),
        r matches Ok(Some(h)) ==> h.is_bounded(),
{
    let l1 = match make_line(ray) {
        Ok(l) => l,
        Err(e) => return Err(e),
    };
    let l2 = match make_line(cand) {
        Ok(l) => l,
        Err(e) => return Err(e),
    };
    proof {
        lemma_bounded_line(*ray);
        lemma_bounded_line(*cand);
        lemma_mul_bound(l1.a as int, l2.b as int, 0x10_0000, 0x10_0000);
        lemma_mul_bound(l2.a as int, l1.b as int, 0x10_0000, 0x10_0000);
        lemma_mul_bound(l1.b as int, l2.c as int, 0x10_0000, 0x80_0000_0000);
        lemma_mul_bound(l2.b as int, l1.c as int, 0x10_0000, 0x80_0000_0000);
        lemma_mul_bound(l2.a as int, l1.c as int, 0x10_0000, 0x80_0000_0000);
        lemma_mul_bound(l1.a as int, l2.c as int, 0x10_0000, 0x80_0000_0000);
        lemma_mul_bound(l1.a as int, l1.a as int, 0x10_0000, 0x10_0000);
        lemma_mul_bound(l1.b as int, l1.b as int, 0x10_0000, 0x10_0000);
        lemma_mul_bound(l2.a as int, l2.a as int, 0x10_0000, 0x10_0000);
        lemma_mul_bound(l2.b as int, l2.b as int, 0x10_0000, 0x10_0000);
        lemma_mul_bound(l1.c as int, l1.c as int, 0x80_0000_0000, 0x80_0000_0000);
        lemma_mul_bound(l2.c as int, l2.c as int, 0x80_0000_0000, 0x80_0000_0000);
    }
    let d = l1.a * l2.b - l2.a * l1.b;
    let n1 = l1.a * l1.a + l1.b * l1.b;
    let n2 = l2.a * l2.a + l2.b * l2.b;
    proof {
        lemma_mul_bound(d as int, d as int, 0x200_0000_0000, 0x200_0000_0000);
        assert(d * d >= 0) by (nonlinear_arith);
        assert(n1 > 0 && n2 > 0) by (nonlinear_arith)
            requires
                l1.a != 0 || l1.b != 0,
                l2.a != 0 || l2.b != 0,
                n1 == l1.a * l1.a + l1.b * l1.b,
                n2 == l2.a * l2.a + l2.b * l2.b,
        ;
        assert(0 < (tol_inv as int) * (tol_inv as int) <= 0x1_0000_0000_0000_0000) by (nonlinear_arith)
            requires
                0 < tol_inv <= 0xffff_ffff,
        ;
        lemma_mul_bound(l1.c * l1.c, n2 as int, 0x4000_0000_0000_0000_0000, 0x200_0000_0000);
        lemma_mul_bound(l2.c * l2.c, n1 as int, 0x4000_0000_0000_0000_0000, 0x200_0000_0000);
    }
    let t2 = tol_inv as u128 * tol_inv as u128;
    if frac_lt((d * d) as u128, n1 as u128, n2 as u128, t2) {
        proof {
            assert((d * d) * t2 < n2 * n1 ==> (d * d) * (tol_inv * tol_inv) < n1 * n2) by (nonlinear_arith)
                requires
                    t2 == tol_inv * tol_inv,
            ;
        }
        let same = offsets_within_exec(ray, cand, &l1, &l2, tol_inv);
        if same {
            if in_range(cand.p.x, ray.p.x, cand.q.x) && in_range(cand.p.y, ray.p.y, cand.q.y) {
                return Ok(Some(Hit::from_point(ray.p)));
            }
            let ux = ray.p.x as i128 - ray.q.x as i128;
            let vx = ray.p.x as i128 - cand.p.x as i128;
            let uy = ray.p.y as i128 - ray.q.y as i128;
            let vy = ray.p.y as i128 - cand.p.y as i128;
            if product_nonneg(ux, vx) && product_nonneg(uy, vy) {
                return Ok(Some(Hit::from_point(nearer(&ray.p, &cand.p, &cand.q))));
            }
        }
        Ok(None)
    } else {
        proof {
            assert(!((d * d) * t2 < n2 * n1) ==> !((d * d) * (tol_inv * tol_inv) < n1 * n2)) by (nonlinear_arith)
                requires
                    t2 == tol_inv * tol_inv,
            ;
            assert(d != 0) by (nonlinear_arith)
                requires
                    !((d * d) * (tol_inv * tol_inv) < n1 * n2),
                    n1 > 0,
                    n2 > 0,
            ;
        }
        let xn0 = l1.b * l2.c - l2.b * l1.c;
        let yn0 = l2.a * l1.c - l1.a * l2.c;
        let (xn, yn, den) = if d > 0 {
            (xn0, yn0, d)
        } else {
            (-xn0, -yn0, -d)
        };
        proof {
            lemma_mul_bound(ray.p.x as int, den as int, 0x8000_0000, 0x4_0000_0000_0000_0000);
            lemma_mul_bound(ray.p.y as int, den as int, 0x8000_0000, 0x4_0000_0000_0000_0000);
        }
        if frac_in_range(ray.p.x, xn, den, ray.q.x) && frac_in_range(ray.p.y, yn, den, ray.q.y)
            && product_nonneg(ray.p.x as i128 - ray.q.x as i128, ray.p.x as i128 * den - xn)
            && product_nonneg(ray.p.y as i128 - ray.q.y as i128, ray.p.y as i128 * den - yn)
            && frac_in_range(cand.p.x, xn, den, cand.q.x) && frac_in_range(
            cand.p.y,
            yn,
            den,
            cand.q.y,
        ) {
            proof {
                lemma_box_bounded(cand.p.x as int, xn as int, cand.q.x as int, den as int);
                lemma_box_bounded(cand.p.y as int, yn as int, cand.q.y as int, den as int);
            }
            Ok(Some(Hit { x: xn, y: yn, den }))
        } else {
            Ok(None)
        }
    }
}

/// For segments whose lines are not parallel within the tolerance, the
/// meeting point lies on both lines, and `intersect` reports a point exactly
/// when the meeting point lies within the bounding boxes of both segments;
/// the point reported is the meeting point itself.
pub proof fn lemma_crossing_reported_iff_in_boxes(ray: Segment, cand: Segment, tol_inv: int)
    requires
        ray.is_canonical(),
        cand.is_canonical(),
        !ray.is_degenerate(),
        !cand.is_degenerate(),
        ray.is_bounded(),
        cand.is_bounded(),
        tol_inv > 0,
        !near_parallel(ray, cand, tol_inv),
    ensures
        ({
            let (xn, yn, d) = crossing(ray, cand);
            &&& on_line(ray, xn, yn, d)
            &&& on_line(cand, xn, yn, d)
            &&& intersection(ray, cand, tol_inv) is Some <==> (in_box(ray, xn, yn, d) && in_box(
                cand,
                xn,
                yn,
                d,
            ))
            &&& intersection(ray, cand, tol_inv) matches Some(h) ==> h.x == xn && h.y == yn && h.den
                == d
        }),
{
    let (xn, yn, d) = crossing(ray, cand);
    lemma_nonparallel_crosses(ray, cand, tol_inv);
    lemma_crossing_on_lines(ray, cand);
    lemma_crossing_fits(ray, cand);
    if in_box(ray, xn, yn, d) && in_box(cand, xn, yn, d) {
        lemma_ahead_of_between(ray.p.x as int, ray.q.x as int, xn, d);
        lemma_ahead_of_between(ray.p.y as int, ray.q.y as int, yn, d);
    }
}

proof fn lemma_crossing_fits(a: Segment, b: Segment)
    requires
        a.is_bounded(),
        b.is_bounded(),
    ensures
        ({
            let (xn, yn, d) = crossing(a, b);
            &&& -0x2000_0000_0000_0000 <= xn <= 0x2000_0000_0000_0000
            &&& -0x2000_0000_0000_0000 <= yn <= 0x2000_0000_0000_0000
            &&& -0x400_0000_0000 <= d <= 0x400_0000_0000
        }),
{
    let (a1, b1, c1) = line_of(a);
    let (a2, b2, c2) = line_of(b);
    lemma_bounded_line(a);
    lemma_bounded_line(b);
    lemma_mul_bound(a1, b2, 0x10_0000, 0x10_0000);
    lemma_mul_bound(a2, b1, 0x10_0000, 0x10_0000);
    lemma_mul_bound(b1, c2, 0x10_0000, 0x80_0000_0000);
    lemma_mul_bound(b2, c1, 0x10_0000, 0x80_0000_0000);
    lemma_mul_bound(a2, c1, 0x10_0000, 0x80_0000_0000);
    lemma_mul_bound(a1, c2, 0x10_0000, 0x80_0000_0000);
}

proof fn lemma_nonparallel_crosses(a: Segment, b: Segment, tol_inv: int)
    requires
        !a.is_degenerate(),
        !b.is_degenerate(),
        !near_parallel(a, b, tol_inv),
    ensures
        denom(a, b) != 0,
{
    let (a1, b1, _c1) = line_of(a);
    let (a2, b2, _c2) = line_of(b);
    let d = denom(a, b);
    assert(a1 != 0 || b1 != 0);
    assert(a2 != 0 || b2 != 0);
    assert(d != 0) by (nonlinear_arith)
        requires
            !(d * d * (tol_inv * tol_inv) < (a1 * a1 + b1 * b1) * (a2 * a2 + b2 * b2)),
            a1 != 0 || b1 != 0,
            a2 != 0 || b2 != 0,
    ;
}

/// Every point that `intersect` reports on bounded segments has a positive
/// denominator.
pub proof fn lemma_hit_den_positive(ray: Segment, cand: Segment, tol_inv: int)
    requires
        ray.is_bounded(),
        cand.is_bounded(),
        !ray.is_degenerate(),
        !cand.is_degenerate(),
    ensures
        intersection(ray, cand, tol_inv) matches Some(h) ==> h.den > 0,
{
    if !near_parallel(ray, cand, tol_inv) {
        lemma_nonparallel_crosses(ray, cand, tol_inv);
        lemma_crossing_on_lines(ray, cand);
        lemma_crossing_fits(ray, cand);
    }
}

/// For segments whose lines are not parallel within the tolerance, swapping
/// the ray and the candidate gives the same point whenever the ray meets the
/// candidate.
pub proof fn lemma_intersection_symmetric(ray: Segment, cand: Segment, tol_inv: int)
    requires
        ray.is_canonical(),
        cand.is_canonical(),
        !ray.is_degenerate(),
        !cand.is_degenerate(),
        ray.is_bounded(),
        cand.is_bounded(),
        tol_inv > 0,
        !near_parallel(ray, cand, tol_inv),
    ensures
        intersection(ray, cand, tol_inv) matches Some(h) ==> intersection(cand, ray, tol_inv) == Some(
            h,
        ),
{
    let (a1, b1, c1) = line_of(ray);
    let (a2, b2, c2) = line_of(cand);
    lemma_nonparallel_crosses(ray, cand, tol_inv);
    assert(a2 * b1 - a1 * b2 == -(a1 * b2 - a2 * b1)) by (nonlinear_arith);
    assert(b2 * c1 - b1 * c2 == -(b1 * c2 - b2 * c1)) by (nonlinear_arith);
    assert(a1 * c2 - a2 * c1 == -(a2 * c1 - a1 * c2)) by (nonlinear_arith);
    assert(denom(cand, ray) == -denom(ray, cand));
    assert(crossing(cand, ray) == crossing(ray, cand));
    assert(denom(cand, ray) * denom(cand, ray) == denom(ray, cand) * denom(ray, cand))
        by (nonlinear_arith)
        requires
            denom(cand, ray) == -denom(ray, cand),
    ;
    assert((a1 * a1 + b1 * b1) * (a2 * a2 + b2 * b2) == (a2 * a2 + b2 * b2) * (a1 * a1 + b1 * b1))
        by (nonlinear_arith);
    assert(!near_parallel(cand, ray, tol_inv));
    lemma_crossing_reported_iff_in_boxes(ray, cand, tol_inv);
    lemma_crossing_on_lines(ray, cand);
    lemma_crossing_fits(ray, cand);
    let (xn, yn, d) = crossing(ray, cand);
    if intersection(ray, cand, tol_inv) is Some {
        lemma_ahead_of_between(cand.p.x as int, cand.q.x as int, xn, d);
        lemma_ahead_of_between(cand.p.y as int, cand.q.y as int, yn, d);
        assert(accepts(cand, ray));
    }
}

} // verus!
