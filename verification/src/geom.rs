//! Points and cubic Bézier segments on the fixed-point grid, with the exact
//! de Casteljau split that the flattening pipeline composes.

use vstd::prelude::*;
use crate::fixed::{FP_ONE, fp_mul, fp_mul_spec, abs_spec, lemma_fp_mul_fraction};

verus! {

/// Bound on the magnitude of every coordinate the library works on
/// (256 in scalar units). It keeps every intermediate product of the
/// inflection and stepping formulas inside `i64`.
pub const COORD_LIMIT: i64 = 0x100_0000;

/// Bound on the tolerance (4096 in scalar units).
pub const TOL_LIMIT: i64 = 0x1000_0000;

/// A 2D point (also used as a vector) with fixed-point coordinates.
#[derive(Clone, Copy, PartialEq, Eq, Structural, Debug)]
pub struct Point {
    pub x: i64,
    pub y: i64,
}

impl Point {
    /// Both coordinates lie within `COORD_LIMIT`.
    pub open spec fn wf(self) -> bool {
        -COORD_LIMIT <= self.x <= COORD_LIMIT && -COORD_LIMIT <= self.y <= COORD_LIMIT
    }

    pub fn new(x: i64, y: i64) -> (r: Point)
        ensures
            r == (Point { x, y }),
    {
        Point { x, y }
    }
}

/// A cubic Bézier segment: start point, two control points, destination.
#[derive(Clone, Copy, PartialEq, Eq, Structural, Debug)]
pub struct CubicBezierSegment {
    pub from: Point,
    pub ctrl1: Point,
    pub ctrl2: Point,
    pub to: Point,
}

impl CubicBezierSegment {
    /// All four control points lie within `COORD_LIMIT`.
    pub open spec fn wf(self) -> bool {
        self.from.wf() && self.ctrl1.wf() && self.ctrl2.wf() && self.to.wf()
    }

    /// Splits the segment at parameter `t`, returning the curve restricted to
    /// `[0, t]` and to `[t, 1]`, each reparameterized over `[0, 1]`.
    pub fn split(&self, t: i64) -> (r: (CubicBezierSegment, CubicBezierSegment))
        requires
            self.wf(),
            0 <= t <= FP_ONE,
        ensures
            r.0 == split_before_spec(*self, t as int),
            r.1 == split_after_spec(*self, t as int),
            r.0.wf(),
            r.1.wf(),
    {
        let p01 = lerp_point(self.from, self.ctrl1, t);
        let p12 = lerp_point(self.ctrl1, self.ctrl2, t);
        let p23 = lerp_point(self.ctrl2, self.to, t);
        let p012 = lerp_point(p01, p12, t);
        let p123 = lerp_point(p12, p23, t);
        let p0123 = lerp_point(p012, p123, t);
        (
            CubicBezierSegment { from: self.from, ctrl1: p01, ctrl2: p012, to: p0123 },
            CubicBezierSegment { from: p0123, ctrl1: p123, ctrl2: p23, to: self.to },
        )
    }

    /// Splits the segment at parameter `t` and returns only the `[t, 1]`
    /// remainder. Its destination is exactly this segment's destination.
    pub fn after_split(&self, t: i64) -> (r: CubicBezierSegment)
        requires
            self.wf(),
            0 <= t <= FP_ONE,
        ensures
            r == split_after_spec(*self, t as int),
            r.wf(),
    {
        let (_, after) = self.split(t);
        after
    }
}

/// Linear interpolation from `a` to `b` by the fixed-point fraction `t`.
pub open spec fn lerp_spec(a: int, b: int, t: int) -> int {
    a + fp_mul_spec(b - a, t)
}

/// Interpolation by a fraction in `[0, 1]` stays between its endpoints.
pub proof fn lemma_lerp_bounds(a: int, b: int, t: int)
    requires
        0 <= t <= FP_ONE,
    ensures
        a <= b ==> a <= lerp_spec(a, b, t) <= b,
        b <= a ==> b <= lerp_spec(a, b, t) <= a,
{
    lemma_fp_mul_fraction(b - a, t);
}

/// Coordinatewise interpolation between two points. The fixed-point values
/// stay between the endpoints, so the casts never truncate for points that
/// satisfy `wf`.
pub open spec fn lerp_point_spec(a: Point, b: Point, t: int) -> Point {
    Point {
        x: lerp_spec(a.x as int, b.x as int, t) as i64,
        y: lerp_spec(a.y as int, b.y as int, t) as i64,
    }
}

fn lerp(a: i64, b: i64, t: i64) -> (r: i64)
    requires
        -COORD_LIMIT <= a <= COORD_LIMIT,
        -COORD_LIMIT <= b <= COORD_LIMIT,
        0 <= t <= FP_ONE,
    ensures
        r == lerp_spec(a as int, b as int, t as int),
        -COORD_LIMIT <= r <= COORD_LIMIT,
{
    let d = b - a;
    proof {
        lemma_lerp_bounds(a as int, b as int, t as int);
        assert(abs_spec(d as int) * abs_spec(t as int) <= 0x4000_0000_0000_0000_0000)
            by (nonlinear_arith)
            requires
                abs_spec(d as int) <= 0x200_0000,
                0 <= abs_spec(t as int) <= 0x10000;
        lemma_fp_mul_fraction(d as int, t as int);
    }
    a + fp_mul(d, t)
}

fn lerp_point(a: Point, b: Point, t: i64) -> (r: Point)
    requires
        a.wf(),
        b.wf(),
        0 <= t <= FP_ONE,
    ensures
        r == lerp_point_spec(a, b, t as int),
        r.wf(),
{
    Point { x: lerp(a.x, b.x, t), y: lerp(a.y, b.y, t) }
}

/// The `[0, t]` part of a split, as de Casteljau's construction gives it.
pub open spec fn split_before_spec(s: CubicBezierSegment, t: int) -> CubicBezierSegment {
    let p01 = lerp_point_spec(s.from, s.ctrl1, t);
    let p12 = lerp_point_spec(s.ctrl1, s.ctrl2, t);
    let p23 = lerp_point_spec(s.ctrl2, s.to, t);
    let p012 = lerp_point_spec(p01, p12, t);
    let p123 = lerp_point_spec(p12, p23, t);
    let p0123 = lerp_point_spec(p012, p123, t);
    CubicBezierSegment { from: s.from, ctrl1: p01, ctrl2: p012, to: p0123 }
}

/// The `[t, 1]` part of a split. Its destination is the segment's own
/// destination, exactly.
pub open spec fn split_after_spec(s: CubicBezierSegment, t: int) -> CubicBezierSegment {
    let p01 = lerp_point_spec(s.from, s.ctrl1, t);
    let p12 = lerp_point_spec(s.ctrl1, s.ctrl2, t);
    let p23 = lerp_point_spec(s.ctrl2, s.to, t);
    let p012 = lerp_point_spec(p01, p12, t);
    let p123 = lerp_point_spec(p12, p23, t);
    let p0123 = lerp_point_spec(p012, p123, t);
    CubicBezierSegment { from: p0123, ctrl1: p123, ctrl2: p23, to: s.to }
}

/// Interpolating two in-bounds points lands in bounds, with no truncation in
/// the fixed-point coordinates.
pub proof fn lemma_lerp_point_wf(a: Point, b: Point, t: int)
    requires
        a.wf(),
        b.wf(),
        0 <= t <= FP_ONE,
    ensures
        lerp_point_spec(a, b, t).wf(),
        lerp_point_spec(a, b, t).x == lerp_spec(a.x as int, b.x as int, t),
        lerp_point_spec(a, b, t).y == lerp_spec(a.y as int, b.y as int, t),
{
    lemma_lerp_bounds(a.x as int, b.x as int, t);
    lemma_lerp_bounds(a.y as int, b.y as int, t);
}

/// Splitting an in-bounds segment leaves both halves in bounds: every control
/// point of either half is an iterated interpolation of the original ones.
pub proof fn lemma_split_wf(s: CubicBezierSegment, t: int)
    requires
        s.wf(),
        0 <= t <= FP_ONE,
    ensures
        split_before_spec(s, t).wf(),
        split_after_spec(s, t).wf(),
{
    let p01 = lerp_point_spec(s.from, s.ctrl1, t);
    let p12 = lerp_point_spec(s.ctrl1, s.ctrl2, t);
    let p23 = lerp_point_spec(s.ctrl2, s.to, t);
    lemma_lerp_point_wf(s.from, s.ctrl1, t);
    lemma_lerp_point_wf(s.ctrl1, s.ctrl2, t);
    lemma_lerp_point_wf(s.ctrl2, s.to, t);
    let p012 = lerp_point_spec(p01, p12, t);
    let p123 = lerp_point_spec(p12, p23, t);
    lemma_lerp_point_wf(p01, p12, t);
    lemma_lerp_point_wf(p12, p23, t);
    lemma_lerp_point_wf(p012, p123, t);
}

} // verus!
