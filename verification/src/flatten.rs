//! Flattening of cubic Bézier segments.
//!
//! One state machine drives both call surfaces: the pull API
//! ([`CubicFlatteningIter`]) advances the machine once per call, and the push
//! API ([`flatten_cubic_bezier`]) drives the same machine to exhaustion, so
//! the two can never drift apart. The proof functions at the end state that
//! law, and that every run ends exactly at the segment's destination point.

use vstd::prelude::*;
use vstd::arithmetic::div_mod::{lemma_div_is_ordered, lemma_div_pos_is_pos};
use vstd::arithmetic::mul::lemma_mul_nonnegative;
use crate::fixed::{
    FP_ONE, abs_spec, fp_mul, fp_mul_spec, fp_div, fp_div_spec, fp_sqrt, fp_sqrt_spec, fp_hypot,
    fp_hypot_spec, fp_abs, lemma_fp_mul_abs, lemma_fp_div_abs, lemma_fp_mul_fraction,
    lemma_sq_le_implies_le, lemma_sqrt_floor_exists,
};
use crate::geom::{TOL_LIMIT, Point, CubicBezierSegment, split_before_spec, split_after_spec};
use crate::inflection::{
    cross_spec, cross, lemma_cross_abs, inflections_spec, find_cubic_bezier_inflection_points,
};

verus! {

/// The clamp threshold, 0.995 in fixed-point units: a computed step at least
/// this close to a full step is taken as a full step, since the closed-form
/// estimate is unreliable that near the end of the curve.
pub const STEP_CLAMP: i64 = 65208;

/// The largest parametric step from the start of an inflection-free segment
/// that keeps the chord within the tolerance of the true curve. A degenerate
/// direction (zero cross product or zero-length control handle) flattens the
/// rest in one step; a computed step of zero is raised to the smallest
/// positive scalar of the fixed grid, so the advance is always positive.
pub open spec fn step_spec(s: CubicBezierSegment, tolerance: int) -> int {
    let v1x = s.ctrl1.x - s.from.x;
    let v1y = s.ctrl1.y - s.from.y;
    let v2x = s.ctrl2.x - s.from.x;
    let v2y = s.ctrl2.y - s.from.y;
    let cr = cross_spec(v2x, v2y, v1x, v1y);
    let h = fp_hypot_spec(v1x, v1y);
    if fp_mul_spec(cr, h) == 0 {
        FP_ONE as int
    } else {
        let s2 = fp_div_spec(h, cr);
        let m = fp_mul_spec(tolerance, abs_spec(s2));
        let t = 2 * fp_sqrt_spec(m / 3);
        if t >= STEP_CLAMP {
            FP_ONE as int
        } else if t == 0 {
            1
        } else {
            t
        }
    }
}

/// The step estimate is always a positive advance, never past the end, and
/// anything short of a full step stays under the clamp threshold.
pub proof fn lemma_step_spec_range(s: CubicBezierSegment, tolerance: int)
    requires
        0 < tolerance,
    ensures
        1 <= step_spec(s, tolerance) <= FP_ONE,
        step_spec(s, tolerance) != FP_ONE ==> step_spec(s, tolerance) < STEP_CLAMP,
{
    let v1x = s.ctrl1.x - s.from.x;
    let v1y = s.ctrl1.y - s.from.y;
    let v2x = s.ctrl2.x - s.from.x;
    let v2y = s.ctrl2.y - s.from.y;
    let cr = cross_spec(v2x, v2y, v1x, v1y);
    let h = fp_hypot_spec(v1x, v1y);
    if fp_mul_spec(cr, h) != 0 {
        let s2 = fp_div_spec(h, cr);
        let m = fp_mul_spec(tolerance, abs_spec(s2));
        lemma_mul_nonnegative(abs_spec(tolerance), abs_spec(abs_spec(s2)));
        lemma_div_pos_is_pos(abs_spec(tolerance) * abs_spec(abs_spec(s2)), FP_ONE as int);
        assert(m >= 0);
        lemma_div_pos_is_pos(m, 3);
        lemma_mul_nonnegative(m / 3, FP_ONE as int);
        lemma_sqrt_floor_exists((m / 3) * (FP_ONE as int));
        assert(fp_sqrt_spec(m / 3) >= 0);
    }
}

/// Computes the flattening step for an inflection-free segment, exactly as
/// `step_spec` states it.
pub fn no_inflection_flattening_step(bezier: &CubicBezierSegment, tolerance: i64) -> (r: i64)
    requires
        bezier.wf(),
        0 < tolerance <= TOL_LIMIT,
    ensures
        r == step_spec(*bezier, tolerance as int),
        1 <= r <= FP_ONE,
{
    proof {
        lemma_step_spec_range(*bezier, tolerance as int);
    }
    let v1x = bezier.ctrl1.x - bezier.from.x;
    let v1y = bezier.ctrl1.y - bezier.from.y;
    let v2x = bezier.ctrl2.x - bezier.from.x;
    let v2y = bezier.ctrl2.y - bezier.from.y;

    let cr = cross(v2x, v2y, v1x, v1y);
    proof {
        lemma_cross_abs(v2x as int, v2y as int, v1x as int, v1y as int, 0x200_0000, 0x200_0000);
        assert(abs_spec(cr as int) <= 0x80_0000_0000);
    }
    let h = fp_hypot(v1x, v1y);
    proof {
        assert(0 <= v1x as int * v1x as int <= 0x4_0000_0000_0000) by (nonlinear_arith)
            requires -0x200_0000 <= v1x as int <= 0x200_0000;
        assert(0 <= v1y as int * v1y as int <= 0x4_0000_0000_0000) by (nonlinear_arith)
            requires -0x200_0000 <= v1y as int <= 0x200_0000;
        lemma_sqrt_floor_exists(v1x as int * v1x as int + v1y as int * v1y as int);
        assert(0x8_0000_0000_0000 <= 0x400_0000int * 0x400_0000int);
        lemma_sq_le_implies_le(h as int, 0x400_0000);
        assert(abs_spec(cr as int) * abs_spec(h as int) <= 0x2_0000_0000_0000_0000)
            by (nonlinear_arith)
            requires
                0 <= abs_spec(cr as int) <= 0x80_0000_0000,
                0 <= abs_spec(h as int),
                abs_spec(h as int) <= 0x400_0000;
        lemma_fp_mul_abs(cr as int, h as int, 0x2_0000_0000_0000_0000);
    }
    if fp_mul(cr, h) == 0 {
        return FP_ONE;
    }

    proof {
        if cr == 0 {
            assert(abs_spec(0) * abs_spec(h as int) == 0) by (nonlinear_arith);
            vstd::arithmetic::div_mod::lemma_div_of0(FP_ONE as int);
            assert(fp_mul_spec(0, h as int) == 0);
        }
    }
    assert(cr != 0);
    let s2inv = fp_div(h, cr);
    proof {
        lemma_fp_div_abs(h as int, cr as int, 0x400_0000);
        assert(abs_spec(fp_div_spec(h as int, cr as int)) <= 0x400_0000_0000);
        assert(abs_spec(abs_spec(s2inv as int)) == abs_spec(s2inv as int));
        assert(abs_spec(tolerance as int) * abs_spec(s2inv as int)
            <= 0x40_0000_0000_0000_0000) by (nonlinear_arith)
            requires
                0 <= abs_spec(s2inv as int) <= 0x400_0000_0000,
                0 <= abs_spec(tolerance as int) <= 0x1000_0000;
        lemma_fp_mul_abs(tolerance as int, abs_spec(s2inv as int), 0x40_0000_0000_0000_0000);
        assert(0x40_0000_0000_0000_0000int / 0x10000int == 0x40_0000_0000_0000);
    }
    let s2a = fp_abs(s2inv);
    let m = fp_mul(tolerance, s2a);
    proof {
        lemma_mul_nonnegative(abs_spec(tolerance as int), abs_spec(s2a as int));
        lemma_div_pos_is_pos(abs_spec(tolerance as int) * abs_spec(s2a as int), FP_ONE as int);
        assert(m >= 0);
        lemma_div_pos_is_pos(m as int, 3);
        vstd::arithmetic::div_mod::lemma_div_nonincreasing(m as int, 3);
    }
    let d = ((m as u64) / 3) as i64;
    assert(d as int == m as int / 3);
    let sq = fp_sqrt(d);
    proof {
        lemma_sqrt_floor_exists(d as int * (FP_ONE as int));
        assert(d as int * (FP_ONE as int) <= 0x40_0000_0000_0000_0000) by (nonlinear_arith)
            requires 0 <= d as int <= 0x40_0000_0000_0000, FP_ONE == 0x10000;
        assert(0x40_0000_0000_0000_0000int <= 0x8_0000_0000int * 0x8_0000_0000int);
        lemma_sq_le_implies_le(sq as int, 0x8_0000_0000);
    }
    let t = 2 * sq;

    if t >= STEP_CLAMP {
        return FP_ONE;
    }
    if t == 0 {
        return 1;
    }
    t
}

/// The flattening state machine, exposed as the pull API: each call of
/// [`CubicFlatteningIter::next`] advances the machine once and yields one
/// vertex, starting with the first point after the curve's origin and ending
/// at its destination.
pub struct CubicFlatteningIter {
    /// The not-yet-processed remainder of the curve.
    pub remaining_curve: CubicBezierSegment,
    /// The inflection-free piece currently being stepped through, absent only
    /// at (or on the way to) exhaustion.
    pub current_curve: Option<CubicBezierSegment>,
    /// The front pending inflection parameter, in the local parameterization
    /// of the piece it was discovered in.
    pub next_inflection: Option<i64>,
    /// The second pending inflection parameter, re-mapped into
    /// `remaining_curve`'s local parameterization.
    pub following_inflection: Option<i64>,
    /// The tolerance the machine was built with.
    pub tolerance: i64,
    /// Remaining parametric extent of the current piece, on the fixed grid.
    /// Every sub-full step shrinks it, so a piece is never stepped forever;
    /// when it reaches zero the rest of the piece is emitted as one chord.
    pub extent: i64,
}

impl CubicFlatteningIter {
    /// The machine's own invariant: segments within coordinate bounds, a
    /// positive tolerance, pending inflections inside `[0, 1)`, a second
    /// pending inflection only behind a first, and an extent inside `[0, 1]`.
    pub open spec fn wf(self) -> bool {
        &&& self.remaining_curve.wf()
        &&& (self.current_curve is Some ==> self.current_curve->Some_0.wf())
        &&& 0 < self.tolerance <= TOL_LIMIT
        &&& (self.next_inflection is Some ==> 0 <= self.next_inflection->Some_0 < FP_ONE)
        &&& (self.following_inflection is Some ==> self.next_inflection is Some
            && 0 <= self.following_inflection->Some_0 < FP_ONE)
        &&& 0 <= self.extent <= FP_ONE
    }

    /// Nothing is left: no current piece and no pending inflection work.
    pub open spec fn exhausted(self) -> bool {
        self.current_curve is None && self.next_inflection is None
    }
}

/// The machine's starting state: the up-front inflection search, the split at
/// the first inflection if one exists, and the re-mapping of the second
/// inflection into the remainder's local parameterization.
pub open spec fn iter_init_spec(bezier: CubicBezierSegment, tolerance: i64) -> CubicFlatteningIter {
    let infl = inflections_spec(bezier);
    if infl.len() >= 1 {
        let t1 = infl[0];
        let following = if infl.len() >= 2 {
            Some(fp_div_spec(infl[1] - t1, FP_ONE - t1) as i64)
        } else {
            None::<i64>
        };
        CubicFlatteningIter {
            remaining_curve: split_after_spec(bezier, t1 as int),
            current_curve: Some(split_before_spec(bezier, t1 as int)),
            next_inflection: Some(t1),
            following_inflection: following,
            tolerance: tolerance,
            extent: FP_ONE,
        }
    } else {
        CubicFlatteningIter {
            remaining_curve: bezier,
            current_curve: Some(bezier),
            next_inflection: None,
            following_inflection: None,
            tolerance: tolerance,
            extent: FP_ONE,
        }
    }
}

/// One advance of the machine: materialize the next inflection-free piece if
/// none is current, then take one estimator step on it, emitting the piece's
/// destination on a full step and the new sub-piece's start otherwise.
pub open spec fn iter_step_spec(st: CubicFlatteningIter) -> (CubicFlatteningIter, Option<Point>) {
    let st1 = if st.current_curve is None && st.next_inflection is Some {
        if st.following_inflection is Some {
            let t2 = st.following_inflection->Some_0 as int;
            CubicFlatteningIter {
                remaining_curve: split_after_spec(st.remaining_curve, t2),
                current_curve: Some(split_before_spec(st.remaining_curve, t2)),
                next_inflection: st.following_inflection,
                following_inflection: None,
                tolerance: st.tolerance,
                extent: FP_ONE,
            }
        } else {
            CubicFlatteningIter {
                remaining_curve: st.remaining_curve,
                current_curve: Some(st.remaining_curve),
                next_inflection: None,
                following_inflection: None,
                tolerance: st.tolerance,
                extent: FP_ONE,
            }
        }
    } else {
        st
    };
    if st1.current_curve is Some {
        let sub = st1.current_curve->Some_0;
        let t = if st1.extent == 0 {
            FP_ONE as int
        } else {
            step_spec(sub, st1.tolerance as int)
        };
        if t == FP_ONE {
            (
                CubicFlatteningIter {
                    remaining_curve: st1.remaining_curve,
                    current_curve: None,
                    next_inflection: st1.next_inflection,
                    following_inflection: st1.following_inflection,
                    tolerance: st1.tolerance,
                    extent: st1.extent,
                },
                Some(sub.to),
            )
        } else {
            let nc = split_after_spec(sub, t);
            (
                CubicFlatteningIter {
                    remaining_curve: st1.remaining_curve,
                    current_curve: Some(nc),
                    next_inflection: st1.next_inflection,
                    following_inflection: st1.following_inflection,
                    tolerance: st1.tolerance,
                    extent: fp_mul_spec(st1.extent as int, FP_ONE - t) as i64,
                },
                Some(nc.from),
            )
        }
    } else {
        (st1, None)
    }
}

impl CubicFlatteningIter {
    /// Builds the machine for a segment and a tolerance: the same up-front
    /// inflection search and first split as the push API performs.
    pub fn new(bezier: CubicBezierSegment, tolerance: i64) -> (r: CubicFlatteningIter)
        requires
            bezier.wf(),
            0 < tolerance <= TOL_LIMIT,
        ensures
            r == iter_init_spec(bezier, tolerance),
            r.wf(),
    {
        let inflections = find_cubic_bezier_inflection_points(&bezier);
        let first = inflections.get(0);
        let second = inflections.get(1);
        if let Some(t1) = first {
            let (before, after) = bezier.split(t1);
            let following = if let Some(t2) = second {
                proof {
                    crate::fixed::lemma_fp_div_frac((t2 - t1) as int, (FP_ONE - t1) as int);
                }
                Some(fp_div(t2 - t1, FP_ONE - t1))
            } else {
                None
            };
            CubicFlatteningIter {
                remaining_curve: after,
                current_curve: Some(before),
                next_inflection: Some(t1),
                following_inflection: following,
                tolerance: tolerance,
                extent: FP_ONE,
            }
        } else {
            CubicFlatteningIter {
                remaining_curve: bezier,
                current_curve: Some(bezier),
                next_inflection: None,
                following_inflection: None,
                tolerance: tolerance,
                extent: FP_ONE,
            }
        }
    }

    /// Advances the machine once, exactly as `iter_step_spec` states: one
    /// vertex per call while anything remains, then nothing.
    pub fn next(&mut self) -> (r: Option<Point>)
        requires
            old(self).wf(),
        ensures
            final(self).wf(),
            ({
                let (s2, out) = iter_step_spec(*old(self));
                *final(self) == s2 && r == out
            }),
    {
        if self.current_curve.is_none() {
            if self.next_inflection.is_some() {
                if let Some(t2) = self.following_inflection {
                    let (before, after) = self.remaining_curve.split(t2);
                    self.current_curve = Some(before);
                    self.remaining_curve = after;
                } else {
                    self.current_curve = Some(self.remaining_curve);
                }
                self.next_inflection = self.following_inflection;
                self.following_inflection = None;
                self.extent = FP_ONE;
            }
        }
        if let Some(sub_curve) = self.current_curve {
            let t = if self.extent == 0 {
                FP_ONE
            } else {
                no_inflection_flattening_step(&sub_curve, self.tolerance)
            };
            if t == FP_ONE {
                let to = sub_curve.to;
                self.current_curve = None;
                return Some(to);
            }
            let next_curve = sub_curve.after_split(t);
            proof {
                lemma_fp_mul_fraction(self.extent as int, (FP_ONE - t) as int);
                assert(abs_spec(self.extent as int) * abs_spec((FP_ONE - t) as int)
                    <= 0x1_0000_0000) by (nonlinear_arith)
                    requires
                        0 <= self.extent as int <= 0x10000,
                        0 <= (FP_ONE - t) as int <= 0x10000;
            }
            self.extent = fp_mul(self.extent, FP_ONE - t);
            self.current_curve = Some(next_curve);
            return Some(next_curve.from);
        }
        None
    }
}

/// How many inflection parameters are still pending.
pub open spec fn pending_inflections(st: CubicFlatteningIter) -> int {
    (if st.next_inflection is Some { 1int } else { 0int })
        + (if st.following_inflection is Some { 1int } else { 0int })
}

/// A measure that every productive advance strictly shrinks: pending
/// inflection work dominates, then the current piece's remaining extent.
pub open spec fn iter_measure(st: CubicFlatteningIter) -> int {
    pending_inflections(st) * (3 * ((FP_ONE as int) + 1)) + (
        if st.current_curve is Some {
            st.extent + 1
        } else {
            0int
        }
    )
}

/// Every advance of a well-formed, unexhausted machine strictly shrinks the
/// measure, so driving the machine to exhaustion terminates.
pub proof fn lemma_measure_decreases(st: CubicFlatteningIter)
    requires
        st.wf(),
        !st.exhausted(),
    ensures
        0 <= iter_measure(iter_step_spec(st).0) < iter_measure(st),
{
    let st1 = if st.current_curve is None && st.following_inflection is Some {
        let t2 = st.following_inflection->Some_0 as int;
        CubicFlatteningIter {
            remaining_curve: split_after_spec(st.remaining_curve, t2),
            current_curve: Some(split_before_spec(st.remaining_curve, t2)),
            next_inflection: st.following_inflection,
            following_inflection: None,
            tolerance: st.tolerance,
            extent: FP_ONE,
        }
    } else if st.current_curve is None {
        CubicFlatteningIter {
            remaining_curve: st.remaining_curve,
            current_curve: Some(st.remaining_curve),
            next_inflection: None,
            following_inflection: None,
            tolerance: st.tolerance,
            extent: FP_ONE,
        }
    } else {
        st
    };
    if st.current_curve is None {
        assert(pending_inflections(st1) == pending_inflections(st) - 1);
        assert(iter_measure(st) == pending_inflections(st) * (3 * ((FP_ONE as int) + 1)));
    }
    let sub = st1.current_curve->Some_0;
    lemma_step_spec_range(sub, st.tolerance as int);
    let t = if st1.extent == 0 {
        FP_ONE as int
    } else {
        step_spec(sub, st1.tolerance as int)
    };
    if t == FP_ONE {
        assert(iter_measure(iter_step_spec(st).0)
            == pending_inflections(st1) * (3 * ((FP_ONE as int) + 1)));
    } else {
        crate::fixed::lemma_fp_mul_extent(st1.extent as int, t);
        assert(0 <= fp_mul_spec(st1.extent as int, FP_ONE - t) <= st1.extent - 1);
        assert(iter_measure(iter_step_spec(st).0)
            == pending_inflections(st1) * (3 * ((FP_ONE as int) + 1))
                + fp_mul_spec(st1.extent as int, FP_ONE - t) + 1);
    }
    assert(0 <= pending_inflections(st1));
}

/// The machine after `n` advances.
pub open spec fn run_state(st: CubicFlatteningIter, n: nat) -> CubicFlatteningIter
    decreases n,
{
    if n == 0 {
        st
    } else {
        run_state(iter_step_spec(st).0, (n - 1) as nat)
    }
}

/// The points the machine emits over its first `n` advances; once the machine
/// stops yielding, nothing further is counted however large `n` is.
pub open spec fn emitted(st: CubicFlatteningIter, n: nat) -> Seq<Point>
    decreases n,
{
    if n == 0 {
        Seq::empty()
    } else {
        let (s2, out) = iter_step_spec(st);
        if out is Some {
            seq![out->Some_0] + emitted(s2, (n - 1) as nat)
        } else {
            Seq::empty()
        }
    }
}

/// Whether `n` advances are enough to exhaust the machine.
pub open spec fn runs_out(st: CubicFlatteningIter, n: nat) -> bool {
    run_state(st, n).exhausted()
}

/// An advance yields nothing exactly on an exhausted machine, which it leaves
/// unchanged.
pub proof fn lemma_step_exhausted(st: CubicFlatteningIter)
    ensures
        iter_step_spec(st).1 is None <==> st.exhausted(),
        st.exhausted() ==> iter_step_spec(st).0 == st,
{
}

/// An exhausted machine stays exhausted and emits nothing.
pub proof fn lemma_exhausted_run(st: CubicFlatteningIter, n: nat)
    requires
        st.exhausted(),
    ensures
        run_state(st, n) == st,
        emitted(st, n) == Seq::<Point>::empty(),
    decreases n,
{
    lemma_step_exhausted(st);
    if n > 0 {
        lemma_exhausted_run(st, (n - 1) as nat);
    }
}

/// Running `m + n` advances is running `m`, then `n` more, and the emitted
/// points concatenate accordingly.
pub proof fn lemma_run_compose(st: CubicFlatteningIter, m: nat, n: nat)
    ensures
        run_state(st, m + n) == run_state(run_state(st, m), n),
        emitted(st, m + n) == emitted(st, m) + emitted(run_state(st, m), n),
    decreases m,
{
    if m == 0 {
        assert(emitted(st, n) =~= emitted(st, 0nat) + emitted(st, n));
        assert(run_state(st, m + n) == run_state(run_state(st, m), n));
    } else {
        let (s2, out) = iter_step_spec(st);
        lemma_run_compose(s2, (m - 1) as nat, n);
        assert(run_state(st, m + n) == run_state(s2, (m + n - 1) as nat));
        assert(run_state(st, m) == run_state(s2, (m - 1) as nat));
        if out is Some {
            assert(emitted(st, m + n) == seq![out->Some_0] + emitted(s2, (m + n - 1) as nat));
            assert(emitted(st, m + n) =~= emitted(st, m) + emitted(run_state(st, m), n));
        } else {
            lemma_step_exhausted(st);
            lemma_exhausted_run(st, m + n);
            lemma_exhausted_run(st, m);
            lemma_exhausted_run(st, n);
            assert(emitted(st, m + n) =~= emitted(st, m) + emitted(run_state(st, m), n));
        }
    }
}

/// The push and the pull surface are one machine, so all complete runs agree:
/// any two advance counts that both exhaust the machine emit the same point
/// sequence, pointwise and in count.
pub proof fn lemma_flattened_runs_agree(st: CubicFlatteningIter, n1: nat, n2: nat)
    requires
        runs_out(st, n1),
        runs_out(st, n2),
    ensures
        emitted(st, n1) == emitted(st, n2),
{
    if n1 <= n2 {
        lemma_run_compose(st, n1, (n2 - n1) as nat);
        lemma_exhausted_run(run_state(st, n1), (n2 - n1) as nat);
        assert(emitted(st, n2) =~= emitted(st, n1));
    } else {
        lemma_run_compose(st, n2, (n1 - n2) as nat);
        lemma_exhausted_run(run_state(st, n2), (n1 - n2) as nat);
        assert(emitted(st, n1) =~= emitted(st, n2));
    }
}

/// The machine's pieces all chain toward `dest`: whatever splits remain, the
/// final piece ends at `dest`.
pub open spec fn heads_to(st: CubicFlatteningIter, dest: Point) -> bool {
    &&& (st.next_inflection is Some ==> st.remaining_curve.to == dest)
    &&& (st.next_inflection is None && st.current_curve is Some
        ==> st.current_curve->Some_0.to == dest)
}

/// One advance keeps the chain toward `dest` intact, since a split never
/// moves the remainder's destination.
pub proof fn lemma_step_heads_to(st: CubicFlatteningIter, dest: Point)
    requires
        heads_to(st, dest),
    ensures
        heads_to(iter_step_spec(st).0, dest),
{
}

/// A run of an unexhausted machine chained toward `dest` emits at least one
/// point and ends exactly at `dest`.
pub proof fn lemma_run_ends_at(st: CubicFlatteningIter, dest: Point, n: nat)
    requires
        heads_to(st, dest),
        !st.exhausted(),
        runs_out(st, n),
    ensures
        emitted(st, n).len() > 0,
        emitted(st, n).last() == dest,
    decreases n,
{
    lemma_step_exhausted(st);
    assert(n > 0);
    let (s2, out) = iter_step_spec(st);
    let p = out->Some_0;
    lemma_step_heads_to(st, dest);
    assert(run_state(st, n) == run_state(s2, (n - 1) as nat));
    if s2.exhausted() {
        lemma_exhausted_run(s2, (n - 1) as nat);
        assert(p == dest);
        assert(emitted(st, n) =~= seq![p]);
    } else {
        lemma_run_ends_at(s2, dest, (n - 1) as nat);
        let rest = emitted(s2, (n - 1) as nat);
        assert(emitted(st, n) == seq![p] + rest);
        assert((seq![p] + rest).last() == rest.last());
    }
}

/// The machine starts unexhausted and chained toward the segment's own
/// destination.
pub proof fn lemma_init_heads_to(bezier: CubicBezierSegment, tolerance: i64)
    ensures
        heads_to(iter_init_spec(bezier, tolerance), bezier.to),
        !iter_init_spec(bezier, tolerance).exhausted(),
{
}

/// The last point of every complete run is exactly the segment's destination
/// point, with no drift from the splits, and every complete run emits at
/// least one point.
pub proof fn lemma_last_point_is_destination(bezier: CubicBezierSegment, tolerance: i64, n: nat)
    requires
        runs_out(iter_init_spec(bezier, tolerance), n),
    ensures
        emitted(iter_init_spec(bezier, tolerance), n).len() > 0,
        emitted(iter_init_spec(bezier, tolerance), n).last() == bezier.to,
{
    lemma_init_heads_to(bezier, tolerance);
    lemma_run_ends_at(iter_init_spec(bezier, tolerance), bezier.to, n);
}

/// The push API: flattens a cubic Bézier segment within the tolerance and
/// returns every vertex in order. It drives the same machine as the pull API
/// to exhaustion, so the result is exactly the sequence the pull API yields
/// for the same inputs — some complete run of the machine.
pub fn flatten_cubic_bezier(bezier: CubicBezierSegment, tolerance: i64) -> (r: Vec<Point>)
    requires
        bezier.wf(),
        0 < tolerance <= TOL_LIMIT,
    ensures
        exists|n: nat|
            #[trigger] runs_out(iter_init_spec(bezier, tolerance), n)
                && r@ == emitted(iter_init_spec(bezier, tolerance), n),
        r@.len() > 0,
        r@.last() == bezier.to,
{
    let ghost init = iter_init_spec(bezier, tolerance);
    let mut iter = CubicFlatteningIter::new(bezier, tolerance);
    let mut out: Vec<Point> = Vec::new();
    let ghost mut steps: nat = 0nat;
    loop
        invariant
            iter.wf(),
            iter == run_state(init, steps),
            out@ == emitted(init, steps),
        ensures
            runs_out(init, steps),
            out@ == emitted(init, steps),
        decreases iter_measure(iter),
    {
        let ghost pre = iter;
        let step_result = iter.next();
        match step_result {
            Some(p) => {
                out.push(p);
                proof {
                    lemma_step_exhausted(pre);
                    lemma_measure_decreases(pre);
                    lemma_run_compose(init, steps, 1nat);
                    let ghost s2 = iter_step_spec(pre).0;
                    assert(run_state(s2, 0nat) == s2);
                    assert(run_state(pre, 1nat) == run_state(s2, 0nat));
                    assert(emitted(s2, 0nat) =~= Seq::<Point>::empty());
                    assert(iter_step_spec(pre).1 == Some(p));
                    assert(emitted(pre, 1nat) == seq![p] + emitted(s2, 0nat));
                    assert(emitted(pre, 1nat) =~= seq![p]);
                    assert(out@ =~= emitted(init, steps) + emitted(pre, 1nat));
                    steps = steps + 1;
                }
            },
            None => {
                proof {
                    lemma_step_exhausted(pre);
                }
                break;
            },
        }
    }
    proof {
        assert(runs_out(init, steps) && out@ == emitted(init, steps));
        lemma_last_point_is_destination(bezier, tolerance, steps);
    }
    out
}

impl CubicBezierSegment {
    /// The pull API: a lazy flattener over this segment, yielding one vertex
    /// per advance.
    pub fn flattening_iter(&self, tolerance: i64) -> (r: CubicFlatteningIter)
        requires
            self.wf(),
            0 < tolerance <= TOL_LIMIT,
        ensures
            r == iter_init_spec(*self, tolerance),
            r.wf(),
    {
        CubicFlatteningIter::new(*self, tolerance)
    }
}

/// Whether two point sequences have the same length and agree pointwise
/// within `eps` on each coordinate.
pub fn assert_approx_eq(a: &Vec<Point>, b: &Vec<Point>, eps: i64) -> (r: bool)
    requires
        0 <= eps,
    ensures
        r <==> (a@.len() == b@.len() && forall|j: int|
            0 <= j < a@.len() ==> abs_spec(a@[j].x - b@[j].x) <= eps
                && abs_spec(a@[j].y - b@[j].y) <= eps),
{
    if a.len() != b.len() {
        return false;
    }
    let mut i: usize = 0;
    while i < a.len()
        invariant
            a@.len() == b@.len(),
            i <= a@.len(),
            0 <= eps,
            forall|j: int|
                0 <= j < i ==> abs_spec(a@[j].x - b@[j].x) <= eps
                    && abs_spec(a@[j].y - b@[j].y) <= eps,
        decreases a@.len() - i,
    {
        let dx = a[i].x as i128 - (b[i].x as i128);
        let dy = a[i].y as i128 - (b[i].y as i128);
        let adx = if dx >= 0 { dx } else { -dx };
        let ady = if dy >= 0 { dy } else { -dy };
        if adx > eps as i128 || ady > eps as i128 {
            return false;
        }
        i = i + 1;
    }
    true
}

/// One advance keeps the machine well formed.
pub proof fn lemma_step_wf(st: CubicFlatteningIter)
    requires
        st.wf(),
    ensures
        iter_step_spec(st).0.wf(),
{
    if st.current_curve is Some {
        let sub = st.current_curve->Some_0;
        lemma_step_spec_range(sub, st.tolerance as int);
        let t = if st.extent == 0 {
            FP_ONE as int
        } else {
            step_spec(sub, st.tolerance as int)
        };
        if t != FP_ONE {
            crate::geom::lemma_split_wf(sub, t);
            lemma_fp_mul_fraction(st.extent as int, FP_ONE - t);
        }
    } else if st.next_inflection is Some {
        let sub = if st.following_inflection is Some {
            split_before_spec(st.remaining_curve, st.following_inflection->Some_0 as int)
        } else {
            st.remaining_curve
        };
        if st.following_inflection is Some {
            crate::geom::lemma_split_wf(st.remaining_curve, st.following_inflection->Some_0 as int);
        }
        lemma_step_spec_range(sub, st.tolerance as int);
        let t = step_spec(sub, st.tolerance as int);
        if t != FP_ONE {
            crate::geom::lemma_split_wf(sub, t);
            lemma_fp_mul_fraction(FP_ONE as int, FP_ONE - t);
        }
    }
}

/// The machine starts well formed.
pub proof fn lemma_init_wf(bezier: CubicBezierSegment, tolerance: i64)
    requires
        bezier.wf(),
        0 < tolerance <= TOL_LIMIT,
    ensures
        iter_init_spec(bezier, tolerance).wf(),
{
    crate::inflection::lemma_inflections_ok(bezier);
    let infl = inflections_spec(bezier);
    if infl.len() >= 1 {
        crate::geom::lemma_split_wf(bezier, infl[0] as int);
        if infl.len() >= 2 {
            crate::fixed::lemma_fp_div_frac((infl[1] - infl[0]) as int, (FP_ONE - infl[0]) as int);
        }
    }
}

/// A well-formed machine always runs out: some finite number of advances
/// exhausts it, since every advance strictly shrinks the measure.
pub proof fn lemma_machine_runs_out(st: CubicFlatteningIter)
    requires
        st.wf(),
    ensures
        exists|n: nat| #[trigger] runs_out(st, n),
    decreases iter_measure(st),
{
    if st.exhausted() {
        assert(run_state(st, 0nat) == st);
        assert(runs_out(st, 0nat));
    } else {
        lemma_measure_decreases(st);
        lemma_step_wf(st);
        let s2 = iter_step_spec(st).0;
        lemma_machine_runs_out(s2);
        let n = choose|n: nat| runs_out(s2, n);
        lemma_run_compose(st, 1nat, n);
        assert(run_state(st, 1nat) == run_state(s2, 0nat));
        assert(runs_out(st, 1nat + n));
    }
}

/// The flattening always terminates: for every in-bounds segment and positive
/// tolerance, finitely many advances exhaust the machine, so the push API
/// returns and the pull API reaches its end.
pub proof fn lemma_flattening_terminates(bezier: CubicBezierSegment, tolerance: i64)
    requires
        bezier.wf(),
        0 < tolerance <= TOL_LIMIT,
    ensures
        exists|n: nat| #[trigger] runs_out(iter_init_spec(bezier, tolerance), n),
{
    lemma_init_wf(bezier, tolerance);
    lemma_machine_runs_out(iter_init_spec(bezier, tolerance));
}

} // verus!
