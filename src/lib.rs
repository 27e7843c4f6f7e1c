//! Nearest intersection of a fixed ray with a stream of candidate segments.
//!
//! Segment endpoints lie on an integer grid, with coordinates bounded by
//! `MAX_COORD`, so that exact comparisons of distances fit in 128-bit integers.
//! Lines keep exact integer coefficients, and the meeting point of two
//! crossing lines is reported exactly, as a `Hit` with numerators over a
//! positive denominator. Whether two lines count as parallel, and whether
//! parallel lines count as one line, is decided against a tolerance
//! `1 / tol_inv` (`DEFAULT_TOL_INV` gives `1e-8`) on the cross product of
//! their unit normals and on the difference of their unit-normal offsets.
//! Both tests are decided exactly, the second with wide naturals.
//!
//! - `geometry`: points, exact points, segments, lines, the interval test,
//!   `nearer`, and exact distance comparison.
//! - `intersect`: the intersection of the ray with one candidate.
//! - `reduce`: folding candidates into the nearest intersection point.
//! - `wide`: natural numbers of any width, for the exact offset test.

pub mod geometry;
pub mod intersect;
pub mod reduce;
pub mod wide;
