//! The inflection finder: the 0-2 curve parameters at which the curvature of
//! a cubic segment changes sign, each in `[0, 1)`, strictly ascending.

use vstd::prelude::*;
use crate::fixed::{
    FP_ONE, FP_HALF, abs_spec, fp_mul, fp_mul_spec, fp_div, fp_div_spec, fp_sqrt, fp_sqrt_spec,
    lemma_fp_mul_abs, lemma_fp_div_abs,
};
use crate::geom::{COORD_LIMIT, CubicBezierSegment};
use crate::uptotwo::UpToTwo;

verus! {

/// 2D cross product of the vectors `(ux, uy)` and `(vx, vy)`, on the fixed
/// grid.
pub open spec fn cross_spec(ux: int, uy: int, vx: int, vy: int) -> int {
    fp_mul_spec(ux, vy) - fp_mul_spec(uy, vx)
}

/// The three scalar coefficients `(a, b, c)` of the quadratic whose roots are
/// the inflection parameters, formed as cross products of the derivative
/// coefficient vectors of the curve's polynomial form.
pub open spec fn infl_coeffs(s: CubicBezierSegment) -> (int, int, int) {
    let pax = s.ctrl1.x - s.from.x;
    let pay = s.ctrl1.y - s.from.y;
    let pbx = s.ctrl2.x - 2 * s.ctrl1.x + s.from.x;
    let pby = s.ctrl2.y - 2 * s.ctrl1.y + s.from.y;
    let pcx = s.to.x - 3 * s.ctrl2.x + 3 * s.ctrl1.x - s.from.x;
    let pcy = s.to.y - 3 * s.ctrl2.y + 3 * s.ctrl1.y - s.from.y;
    (
        cross_spec(pbx, pby, pcx, pcy),
        cross_spec(pax, pay, pcx, pcy),
        cross_spec(pax, pay, pbx, pby),
    )
}

/// A curve parameter counts as an inflection only inside `[0, 1)`.
pub open spec fn in_range_spec(t: int) -> bool {
    0 <= t < FP_ONE
}

/// The single root of the quadratic when the discriminant vanishes (also used
/// when the stable split of a positive discriminant degenerates on the fixed
/// grid).
pub open spec fn double_root_list(a: int, b: int) -> Seq<i64> {
    let t = fp_div_spec(-b, 2 * a);
    if in_range_spec(t) {
        seq![t as i64]
    } else {
        Seq::empty()
    }
}

/// The ascending, range-filtered, deduplicated pair of roots from the
/// numerically stable quadratic formula.
pub open spec fn two_root_list(a: int, c: int, q: int) -> Seq<i64> {
    let r1 = fp_div_spec(q, a);
    let r2 = fp_div_spec(c, q);
    let lo = if r1 <= r2 { r1 } else { r2 };
    let hi = if r1 <= r2 { r2 } else { r1 };
    if in_range_spec(lo) {
        if in_range_spec(hi) && hi != lo {
            seq![lo as i64, hi as i64]
        } else {
            seq![lo as i64]
        }
    } else if in_range_spec(hi) {
        seq![hi as i64]
    } else {
        Seq::empty()
    }
}

/// The inflection parameters of a cubic segment, ascending, each in `[0, 1)`.
///
/// When the quadratic degenerates to the zero constant the curve is a
/// straight line (or otherwise degenerate) and by convention one inflection
/// is reported at zero, so that the rest of the pipeline flattens the whole
/// curve as a single inflection-free run.
pub open spec fn inflections_spec(s: CubicBezierSegment) -> Seq<i64> {
    let (a, b, c) = infl_coeffs(s);
    if a == 0 {
        if b == 0 {
            if c == 0 {
                seq![0i64]
            } else {
                Seq::empty()
            }
        } else {
            let t = fp_div_spec(-c, b);
            if in_range_spec(t) {
                seq![t as i64]
            } else {
                Seq::empty()
            }
        }
    } else {
        let disc = fp_mul_spec(b, b) - 4 * fp_mul_spec(a, c);
        if disc < 0 {
            Seq::empty()
        } else if disc == 0 {
            double_root_list(a, b)
        } else {
            let ds = fp_sqrt_spec(disc);
            let bb = if b < 0 { b - ds } else { b + ds };
            let q = -fp_mul_spec(bb, FP_HALF as int);
            if q == 0 {
                double_root_list(a, b)
            } else {
                two_root_list(a, c, q)
            }
        }
    }
}

/// Every entry of the inflection list lies in `[0, 1)`, and the list is
/// strictly ascending and never longer than two.
pub open spec fn inflection_list_ok(r: Seq<i64>) -> bool {
    &&& r.len() <= 2
    &&& forall|i: int| 0 <= i < r.len() ==> 0 <= #[trigger] r[i] < FP_ONE
    &&& r.len() == 2 ==> r[0] < r[1]
}

/// Caps the magnitude of a cross product by caps on its inputs.
pub(crate) proof fn lemma_cross_abs(ux: int, uy: int, vx: int, vy: int, bu: int, bv: int)
    requires
        abs_spec(ux) <= bu,
        abs_spec(uy) <= bu,
        abs_spec(vx) <= bv,
        abs_spec(vy) <= bv,
        0 <= bu,
        0 <= bv,
        bu * bv <= 0x4000_0000_0000_0000_0000,
    ensures
        abs_spec(cross_spec(ux, uy, vx, vy)) <= 2 * ((bu * bv) / (FP_ONE as int)),
{
    assert(abs_spec(ux) * abs_spec(vy) <= bu * bv) by (nonlinear_arith)
        requires
            0 <= abs_spec(ux) <= bu,
            0 <= abs_spec(vy) <= bv;
    assert(abs_spec(uy) * abs_spec(vx) <= bu * bv) by (nonlinear_arith)
        requires
            0 <= abs_spec(uy) <= bu,
            0 <= abs_spec(vx) <= bv;
    vstd::arithmetic::mul::lemma_mul_nonnegative(bu, bv);
    lemma_fp_mul_abs(ux, vy, bu * bv);
    lemma_fp_mul_abs(uy, vx, bu * bv);
}

pub(crate) fn cross(ux: i64, uy: i64, vx: i64, vy: i64) -> (r: i64)
    requires
        abs_spec(ux as int) <= 0x800_0000,
        abs_spec(uy as int) <= 0x800_0000,
        abs_spec(vx as int) <= 0x800_0000,
        abs_spec(vy as int) <= 0x800_0000,
    ensures
        r == cross_spec(ux as int, uy as int, vx as int, vy as int),
        abs_spec(r as int) <= 0x80_0000_0000,
{
    proof {
        assert(abs_spec(ux as int) * abs_spec(vy as int) <= 0x40_0000_0000_0000) by (nonlinear_arith)
            requires
                abs_spec(ux as int) <= 0x800_0000,
                abs_spec(vy as int) <= 0x800_0000,
                abs_spec(ux as int) >= 0,
                abs_spec(vy as int) >= 0;
        assert(abs_spec(uy as int) * abs_spec(vx as int) <= 0x40_0000_0000_0000) by (nonlinear_arith)
            requires
                abs_spec(uy as int) <= 0x800_0000,
                abs_spec(vx as int) <= 0x800_0000,
                abs_spec(uy as int) >= 0,
                abs_spec(vx as int) >= 0;
        lemma_fp_mul_abs(ux as int, vy as int, 0x40_0000_0000_0000);
        lemma_fp_mul_abs(uy as int, vx as int, 0x40_0000_0000_0000);
    }
    fp_mul(ux, vy) - fp_mul(uy, vx)
}

/// Finds the inflection parameters of a cubic Bézier segment: at most two
/// ascending values in `[0, 1)`, exactly as `inflections_spec` states,
/// including the convention that a fully degenerate (collinear) segment
/// reports a single inflection at zero.
pub fn find_cubic_bezier_inflection_points(bezier: &CubicBezierSegment) -> (r: UpToTwo)
    requires
        bezier.wf(),
    ensures
        r@ == inflections_spec(*bezier),
        inflection_list_ok(r@),
        ({
            let (a, b, c) = infl_coeffs(*bezier);
            a == 0 && b == 0 && c == 0 ==> r@ == seq![0i64]
        }),
{
    let pax = bezier.ctrl1.x - bezier.from.x;
    let pay = bezier.ctrl1.y - bezier.from.y;
    let pbx = bezier.ctrl2.x - 2 * bezier.ctrl1.x + bezier.from.x;
    let pby = bezier.ctrl2.y - 2 * bezier.ctrl1.y + bezier.from.y;
    let pcx = bezier.to.x - 3 * bezier.ctrl2.x + 3 * bezier.ctrl1.x - bezier.from.x;
    let pcy = bezier.to.y - 3 * bezier.ctrl2.y + 3 * bezier.ctrl1.y - bezier.from.y;

    let a = cross(pbx, pby, pcx, pcy);
    let b = cross(pax, pay, pcx, pcy);
    let c = cross(pax, pay, pbx, pby);
    proof {
        lemma_cross_abs(pbx as int, pby as int, pcx as int, pcy as int, 0x400_0000, 0x800_0000);
        lemma_cross_abs(pax as int, pay as int, pcx as int, pcy as int, 0x200_0000, 0x800_0000);
        lemma_cross_abs(pax as int, pay as int, pbx as int, pby as int, 0x200_0000, 0x400_0000);
        assert(abs_spec(a as int) <= 0x40_0000_0000);
        assert(abs_spec(b as int) <= 0x20_0000_0000);
        assert(abs_spec(c as int) <= 0x10_0000_0000);
    }

    let mut ret = UpToTwo::new();

    if a == 0 {
        if b == 0 {
            if c == 0 {
                ret.push(0);
                assert(ret@ =~= seq![0i64]);
            }
        } else {
            let t = fp_div(-c, b);
            if 0 <= t && t < FP_ONE {
                ret.push(t);
                assert(ret@ =~= seq![t]);
            }
        }
        return ret;
    }

    proof {
        assert(abs_spec(b as int) * abs_spec(b as int) <= 0x400_0000_0000_0000_0000)
            by (nonlinear_arith)
            requires 0 <= abs_spec(b as int) <= 0x20_0000_0000;
        assert(abs_spec(a as int) * abs_spec(c as int) <= 0x400_0000_0000_0000_0000)
            by (nonlinear_arith)
            requires
                0 <= abs_spec(a as int) <= 0x40_0000_0000,
                0 <= abs_spec(c as int) <= 0x10_0000_0000;
        lemma_fp_mul_abs(b as int, b as int, 0x400_0000_0000_0000_0000);
        lemma_fp_mul_abs(a as int, c as int, 0x400_0000_0000_0000_0000);
    }
    let discriminant = fp_mul(b, b) - 4 * fp_mul(a, c);
    assert(abs_spec(discriminant as int) <= 0x2800_0000_0000_0000);

    if discriminant < 0 {
        return ret;
    }

    if discriminant == 0 {
        let t = fp_div(-b, 2 * a);
        if 0 <= t && t < FP_ONE {
            ret.push(t);
            assert(ret@ =~= seq![t]);
        }
        return ret;
    }

    let discriminant_sqrt = fp_sqrt(discriminant);
    proof {
        crate::fixed::lemma_sqrt_floor_exists(discriminant as int * FP_ONE as int);
        assert((discriminant_sqrt as int) * (discriminant_sqrt as int)
            <= discriminant as int * FP_ONE as int);
        assert(discriminant as int * FP_ONE as int <= 0x2800_0000_0000_0000_0000)
            by (nonlinear_arith)
            requires
                0 <= discriminant as int <= 0x2800_0000_0000_0000,
                FP_ONE == 0x10000;
        assert(0x2800_0000_0000_0000_0000 <= 0x100_0000_0000int * 0x100_0000_0000int);
        crate::fixed::lemma_sq_le_implies_le(discriminant_sqrt as int, 0x100_0000_0000);
    }
    let bb = if b < 0 { b - discriminant_sqrt } else { b + discriminant_sqrt };
    proof {
        assert(abs_spec(bb as int) * abs_spec(FP_HALF as int) <= 0x100_0000_0000_0000)
            by (nonlinear_arith)
            requires 0 <= abs_spec(bb as int) <= 0x200_0000_0000, FP_HALF == 0x8000;
        lemma_fp_mul_abs(bb as int, FP_HALF as int, 0x100_0000_0000_0000);
        assert(0x100_0000_0000_0000int / 0x10000int == 0x100_0000_0000);
    }
    let q = -fp_mul(bb, FP_HALF);

    if q == 0 {
        let t = fp_div(-b, 2 * a);
        if 0 <= t && t < FP_ONE {
            ret.push(t);
            assert(ret@ =~= seq![t]);
        }
        return ret;
    }

    let r1 = fp_div(q, a);
    let r2 = fp_div(c, q);
    let first_inflection = if r1 <= r2 { r1 } else { r2 };
    let second_inflection = if r1 <= r2 { r2 } else { r1 };

    if 0 <= first_inflection && first_inflection < FP_ONE {
        ret.push(first_inflection);
        if 0 <= second_inflection && second_inflection < FP_ONE
            && second_inflection != first_inflection {
            ret.push(second_inflection);
            assert(ret@ =~= seq![first_inflection, second_inflection]);
        } else {
            assert(ret@ =~= seq![first_inflection]);
        }
    } else if 0 <= second_inflection && second_inflection < FP_ONE {
        ret.push(second_inflection);
        assert(ret@ =~= seq![second_inflection]);
    }

    ret
}

/// The inflection list of any segment is well formed: at most two entries,
/// each in `[0, 1)`, strictly ascending.
pub proof fn lemma_inflections_ok(s: CubicBezierSegment)
    ensures
        inflection_list_ok(inflections_spec(s)),
{
}

} // verus!
