use vstd::prelude::*;

verus! {

/// A point on the integer coordinate grid.
#[derive(Clone, Copy, Debug, PartialEq, Eq, Structural)]
pub struct Point {
    pub x: i32,
    pub y: i32,
}

/// Largest coordinate magnitude of a point that takes part in intersection:
/// within it, the exact distance comparisons between meeting points fit in
/// 128 bits.
pub const MAX_COORD: i32 = 0x8_0000;

impl Point {
    /// Both coordinates lie within `MAX_COORD` of zero.
    pub open spec fn is_bounded(self) -> bool {
        -MAX_COORD <= self.x <= MAX_COORD && -MAX_COORD <= self.y <= MAX_COORD
    }
}

/// The exact point `(x / den, y / den)`, with `den > 0`.
#[derive(Clone, Copy, Debug, PartialEq, Eq, Structural)]
pub struct Hit {
    pub x: i128,
    pub y: i128,
    pub den: i128,
}

/// The grid point `p` as an exact point.
pub open spec fn hit_of(p: Point) -> Hit {
    Hit { x: p.x as i128, y: p.y as i128, den: 1 }
}

/// Numerator of the squared distance from `anchor` to `h`, whose denominator
/// is `h.den * h.den`.
pub open spec fn hit_dist_num(anchor: Point, h: Hit) -> int {
    (h.x - anchor.x * h.den) * (h.x - anchor.x * h.den) + (h.y - anchor.y * h.den) * (h.y
        - anchor.y * h.den)
}

/// `a` is strictly nearer to `anchor` than `b`, in exact Euclidean distance.
pub open spec fn hit_nearer_than(anchor: Point, a: Hit, b: Hit) -> bool {
    hit_dist_num(anchor, a) * (b.den * b.den) < hit_dist_num(anchor, b) * (a.den * a.den)
}

/// Of `a` and `b`, the one nearer to `anchor`; `b` on a tie.
pub open spec fn nearer_hit_of(anchor: Point, a: Hit, b: Hit) -> Hit {
    if hit_nearer_than(anchor, a, b) {
        a
    } else {
        b
    }
}

impl Hit {
    /// A positive denominator of at most `2^42`, and the point lies in the
    /// square of bounded coordinates.
    pub open spec fn is_bounded(self) -> bool {
        &&& 0 < self.den <= 0x400_0000_0000
        &&& -MAX_COORD * self.den <= self.x <= MAX_COORD * self.den
        &&& -MAX_COORD * self.den <= self.y <= MAX_COORD * self.den
    }

    /// The grid point `p` as an exact point.
    pub fn from_point(p: Point) -> (h: Hit)
        ensures
            h == hit_of(p),
    {
        Hit { x: p.x as i128, y: p.y as i128, den: 1 }
    }

    /// Whether this is the grid point `(x, y)`.
    pub fn is_at(&self, x: i32, y: i32) -> (r: bool)
        requires
            self.is_bounded(),
        ensures
            r == (self.x == x * self.den && self.y == y * self.den),
    {
        proof {
            lemma_bounded_product(x as int, self.den as int);
            lemma_bounded_product(y as int, self.den as int);
        }
        self.x == x as i128 * self.den && self.y == y as i128 * self.den
    }
}

proof fn lemma_bounded_product(x: int, den: int)
    by (nonlinear_arith)
    requires
        -0x8000_0000 <= x <= 0x8000_0000,
        0 < den <= 0x400_0000_0000,
    ensures
        -0x1_0000_0000_0000_0000_0000 <= x * den <= 0x1_0000_0000_0000_0000_0000,
{
}

/// Numerator of the squared distance from a bounded anchor to a bounded point.
fn hit_distance_num(anchor: &Point, h: &Hit) -> (r: u128)
    requires
        anchor.is_bounded(),
        h.is_bounded(),
    ensures
        r == hit_dist_num(*anchor, *h),
{
    proof {
        lemma_bounded_offset(anchor.x as int, h.x as int, h.den as int);
        lemma_bounded_offset(anchor.y as int, h.y as int, h.den as int);
    }
    let u = h.x - anchor.x as i128 * h.den;
    let v = h.y - anchor.y as i128 * h.den;
    (u * u + v * v) as u128
}

proof fn lemma_bounded_offset(a: int, x: int, den: int)
    by (nonlinear_arith)
    requires
        -0x8_0000 <= a <= 0x8_0000,
        0 < den <= 0x400_0000_0000,
        -0x8_0000 * den <= x <= 0x8_0000 * den,
    ensures
        -0x2000_0000_0000_0000 <= a * den <= 0x2000_0000_0000_0000,
        -0x4000_0000_0000_0000 <= x - a * den <= 0x4000_0000_0000_0000,
        0 <= (x - a * den) * (x - a * den) <= 0x1000_0000_0000_0000_0000_0000_0000_0000,
{
}

/// Of the exact points `a` and `b`, the one nearer to `anchor` in Euclidean
/// distance; on a tie, `b`.
pub fn nearer_hit(anchor: &Point, a: &Hit, b: &Hit) -> (r: Hit)
    requires
        anchor.is_bounded(),
        a.is_bounded(),
        b.is_bounded(),
    ensures
        r == nearer_hit_of(*anchor, *a, *b),
{
    let sa = hit_distance_num(anchor, a);
    let sb = hit_distance_num(anchor, b);
    proof {
        assert(0 < a.den * a.den <= 0x10_0000_0000_0000_0000_0000) by (nonlinear_arith)
            requires
                0 < a.den <= 0x400_0000_0000,
        ;
        assert(0 < b.den * b.den <= 0x10_0000_0000_0000_0000_0000) by (nonlinear_arith)
            requires
                0 < b.den <= 0x400_0000_0000,
        ;
    }
    let da = (a.den * a.den) as u128;
    let db = (b.den * b.den) as u128;
    if frac_lt(sa, da, sb, db) {
        *a
    } else {
        *b
    }
}

/// A finite segment from `p` to `q`. Canonical segments have `p.x <= q.x`.
#[derive(Clone, Copy, Debug, PartialEq, Eq, Structural)]
pub struct Segment {
    pub p: Point,
    pub q: Point,
}

/// The implicit line `a*x + b*y + c == 0` through a segment, kept with exact
/// integer coefficients. Its unit-normal form is `(a, b, c) / sqrt(a*a + b*b)`.
#[derive(Clone, Copy, Debug, PartialEq, Eq, Structural)]
pub struct Line {
    pub a: i128,
    pub b: i128,
    pub c: i128,
}

/// Errors of the geometry core.
#[derive(Clone, Copy, Debug, PartialEq, Eq, Structural)]
pub enum GeomError {
    /// The two endpoints of a segment coincide, so it spans no line.
    DegenerateSegment,
}

impl Segment {
    /// The segment's endpoints are ordered by x.
    pub open spec fn is_canonical(self) -> bool {
        self.p.x <= self.q.x
    }

    /// Both endpoints have bounded coordinates.
    pub open spec fn is_bounded(self) -> bool {
        self.p.is_bounded() && self.q.is_bounded()
    }

    /// The segment's endpoints coincide.
    pub open spec fn is_degenerate(self) -> bool {
        self.p == self.q
    }

    /// The segment between `p` and `q`, with its endpoints swapped when `p`
    /// lies to the right of `q`.
    pub fn new(p: Point, q: Point) -> (s: Segment)
        ensures
            s.is_canonical(),
            p.x <= q.x ==> s == (Segment { p, q }),
            p.x > q.x ==> s == (Segment { p: q, q: p }),
    {
        if p.x <= q.x {
            Segment { p, q }
        } else {
            Segment { p: q, q: p }
        }
    }
}

/// `m` lies in the closed interval spanned by `l` and `r`, in either order.
pub open spec fn between(l: int, m: int, r: int) -> bool {
    (l <= m && m <= r) || (r <= m && m <= l)
}

/// Squared Euclidean distance between two points.
pub open spec fn dist2(u: Point, v: Point) -> int {
    (u.x - v.x) * (u.x - v.x) + (u.y - v.y) * (u.y - v.y)
}

/// Of `a` and `b`, the one nearer to `anchor`; `b` on a tie.
pub open spec fn nearer_of(anchor: Point, a: Point, b: Point) -> Point {
    if dist2(anchor, a) < dist2(anchor, b) {
        a
    } else {
        b
    }
}

/// Coefficients of the line through `s`.
pub open spec fn line_of(s: Segment) -> (int, int, int) {
    (
        s.p.y - s.q.y,
        s.q.x - s.p.x,
        s.p.x * s.q.y - s.q.x * s.p.y,
    )
}

/// Whether `mid` lies in the closed interval between `low` and `high`, taken
/// in either order.
pub fn in_range(low: i32, mid: i32, high: i32) -> (r: bool)
    ensures
        r == between(low as int, mid as int, high as int),
{
    let lo = if low <= high { low } else { high };
    let hi = if low <= high { high } else { low };
    lo <= mid && mid <= hi
}

/// Squared distance between two grid points, exactly.
pub fn distance_sq(u: &Point, v: &Point) -> (r: i128)
    ensures
        r == dist2(*u, *v),
{
    let dx = u.x as i128 - v.x as i128;
    let dy = u.y as i128 - v.y as i128;
    assert(dx * dx <= 0x1_0000_0000_0000_0000) by (nonlinear_arith)
        requires
            -0x1_0000_0000 <= dx <= 0x1_0000_0000,
    ;
    assert(dy * dy <= 0x1_0000_0000_0000_0000) by (nonlinear_arith)
        requires
            -0x1_0000_0000 <= dy <= 0x1_0000_0000,
    ;
    assert(dx * dx >= 0 && dy * dy >= 0) by (nonlinear_arith);
    dx * dx + dy * dy
}

/// Of `a` and `b`, the point nearer to `anchor` in Euclidean distance; on a
/// tie, `b`.
pub fn nearer(anchor: &Point, a: &Point, b: &Point) -> (r: Point)
    ensures
        r == nearer_of(*anchor, *a, *b),
{
    if distance_sq(anchor, a) < distance_sq(anchor, b) {
        *a
    } else {
        *b
    }
}

/// The line through the segment `s`, or `DegenerateSegment` when its
/// endpoints coincide.
pub fn make_line(s: &Segment) -> (r: Result<Line, GeomError>)
    ensures
        s.is_degenerate() <==> r is Err,
        r is Err ==> r == Err::<Line, GeomError>(GeomError::DegenerateSegment),
        r matches Ok(l) ==> (l.a as int, l.b as int, l.c as int) == line_of(*s),
        r matches Ok(l) ==> l.a != 0 || l.b != 0,
        r matches Ok(l) ==> l.a * s.p.x + l.b * s.p.y + l.c == 0,
        r matches Ok(l) ==> l.a * s.q.x + l.b * s.q.y + l.c == 0,
{
    if s.p.x == s.q.x && s.p.y == s.q.y {
        return Err(GeomError::DegenerateSegment);
    }
    let px = s.p.x as i128;
    let py = s.p.y as i128;
    let qx = s.q.x as i128;
    let qy = s.q.y as i128;
    assert(-0x4000_0000_0000_0000 <= px * qy <= 0x4000_0000_0000_0000) by (nonlinear_arith)
        requires
            -0x8000_0000 <= px <= 0x8000_0000,
            -0x8000_0000 <= qy <= 0x8000_0000,
    ;
    assert(-0x4000_0000_0000_0000 <= qx * py <= 0x4000_0000_0000_0000) by (nonlinear_arith)
        requires
            -0x8000_0000 <= qx <= 0x8000_0000,
            -0x8000_0000 <= py <= 0x8000_0000,
    ;
    proof {
        lemma_line_through_endpoints(*s);
    }
    Ok(Line { a: py - qy, b: qx - px, c: px * qy - qx * py })
}

/// The line of a segment passes through both of its endpoints.
pub proof fn lemma_line_through_endpoints(s: Segment)
    ensures
        ({
            let (a, b, c) = line_of(s);
            &&& a * s.p.x + b * s.p.y + c == 0
            &&& a * s.q.x + b * s.q.y + c == 0
        }),
{
    let (a, b, c) = line_of(s);
    let (px, py, qx, qy) = (s.p.x as int, s.p.y as int, s.q.x as int, s.q.y as int);
    assert(a * px + b * py + c == 0) by (nonlinear_arith)
        requires
            a == py - qy,
            b == qx - px,
            c == px * qy - qx * py,
    ;
    assert(a * qx + b * qy + c == 0) by (nonlinear_arith)
        requires
            a == py - qy,
            b == qx - px,
            c == px * qy - qx * py,
    ;
}

proof fn lemma_quotient_order(a: int, b: int, c: int, d: int, q1: int, r1: int, q2: int, r2: int)
    requires
        b > 0,
        d > 0,
        a == q1 * b + r1,
        c == q2 * d + r2,
        0 <= r1 < b,
        0 <= r2 < d,
    ensures
        q1 < q2 ==> a * d < c * b,
        q1 > q2 ==> !(a * d < c * b),
        q1 == q2 ==> (a * d < c * b) == (r1 * d < r2 * b),
{
    assert(a * d == q1 * (b * d) + r1 * d) by (nonlinear_arith)
        requires
            a == q1 * b + r1,
    ;
    assert(c * b == q2 * (b * d) + r2 * b) by (nonlinear_arith)
        requires
            c == q2 * d + r2,
    ;
    assert(0 <= r1 * d < b * d && 0 <= r2 * b < b * d) by (nonlinear_arith)
        requires
            b > 0,
            d > 0,
            0 <= r1 < b,
            0 <= r2 < d,
    ;
    if q1 < q2 {
        assert(q1 * (b * d) + b * d <= q2 * (b * d)) by (nonlinear_arith)
            requires
                q1 < q2,
                b * d > 0,
        ;
    }
    if q1 > q2 {
        assert(q2 * (b * d) + b * d <= q1 * (b * d)) by (nonlinear_arith)
            requires
                q2 < q1,
                b * d > 0,
        ;
    }
}

/// Whether `n1 / d1 < n2 / d2`, decided by comparing continued-fraction
/// expansions so that no cross product is formed.
pub fn frac_lt(n1: u128, d1: u128, n2: u128, d2: u128) -> (r: bool)
    requires
        d1 > 0,
        d2 > 0,
    ensures
        r == (n1 * d2 < n2 * d1),
{
    let mut a = n1;
    let mut b = d1;
    let mut c = n2;
    let mut d = d2;
    loop
        invariant
            b > 0,
            d > 0,
            (n1 * d2 < n2 * d1) == (a * d < c * b),
        decreases b + d,
    {
        let q1 = a / b;
        let r1 = a % b;
        let q2 = c / d;
        let r2 = c % d;
        proof {
            vstd::arithmetic::div_mod::lemma_fundamental_div_mod(a as int, b as int);
            vstd::arithmetic::div_mod::lemma_fundamental_div_mod(c as int, d as int);
            lemma_quotient_order(
                a as int,
                b as int,
                c as int,
                d as int,
                q1 as int,
                r1 as int,
                q2 as int,
                r2 as int,
            );
        }
        if q1 != q2 {
            return q1 < q2;
        }
        if r1 == 0 || r2 == 0 {
            proof {
                assert((r1 == 0 ==> r1 * d == 0) && (r1 > 0 ==> r1 * d > 0)) by (nonlinear_arith)
                    requires
                        d > 0,
                ;
                assert((r2 == 0 ==> r2 * b == 0) && (r2 > 0 ==> r2 * b > 0)) by (nonlinear_arith)
                    requires
                        b > 0,
                ;
            }
            return r2 > 0;
        }
        proof {
            assert(r1 * d == d * r1 && r2 * b == b * r2) by (nonlinear_arith);
        }
        let old_b = b;
        a = d;
        b = r2;
        c = old_b;
        d = r1;
    }
}

/// The interval test does not depend on the order of its bounds.
pub proof fn lemma_in_range_symmetric(l: int, m: int, r: int)
    ensures
        between(l, m, r) == between(r, m, l),
{
}

/// `nearer` returns one of its two candidates, and none is nearer to the
/// anchor than the one returned; on equal distances, and so when the two
/// candidates are equal, it returns the second.
pub proof fn lemma_nearer_minimizes(anchor: Point, a: Point, b: Point)
    ensures
        nearer_of(anchor, a, b) == a || nearer_of(anchor, a, b) == b,
        dist2(anchor, nearer_of(anchor, a, b)) <= dist2(anchor, a),
        dist2(anchor, nearer_of(anchor, a, b)) <= dist2(anchor, b),
        dist2(anchor, a) == dist2(anchor, b) ==> nearer_of(anchor, a, b) == b,
        a == b ==> nearer_of(anchor, a, b) == b,
{
}

} // verus!
