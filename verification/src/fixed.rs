//! Fixed-point scalar arithmetic.
//!
//! A scalar `s` is stored as the integer `s * FP_ONE`, so `FP_ONE` stands for
//! one. Products and quotients are rounded toward zero, as the spec functions
//! here state exactly.

use vstd::prelude::*;
use vstd::arithmetic::div_mod::{lemma_div_is_ordered, lemma_div_pos_is_pos, lemma_div_nonincreasing};
use vstd::arithmetic::mul::{lemma_mul_inequality, lemma_mul_nonnegative};

verus! {

/// The fixed-point scale: this integer stands for the scalar one.
pub const FP_ONE: i64 = 65536;

/// Half of the fixed-point scale: stands for the scalar one half.
pub const FP_HALF: i64 = 32768;

/// Magnitude of an integer.
pub open spec fn abs_spec(a: int) -> int {
    if a >= 0 {
        a
    } else {
        -a
    }
}

/// Fixed-point product: the exact product scaled back down by `FP_ONE`,
/// rounded toward zero.
pub open spec fn fp_mul_spec(a: int, b: int) -> int {
    let m = (abs_spec(a) * abs_spec(b)) / (FP_ONE as int);
    if (a >= 0) == (b >= 0) {
        m
    } else {
        -m
    }
}

/// Fixed-point quotient: the dividend scaled up by `FP_ONE`, divided by the
/// divisor, rounded toward zero.
pub open spec fn fp_div_spec(a: int, b: int) -> int {
    let m = (abs_spec(a) * (FP_ONE as int)) / abs_spec(b);
    if (a >= 0) == (b >= 0) {
        m
    } else {
        -m
    }
}

/// `r` is the floor of the square root of `v`.
pub open spec fn is_sqrt_floor(v: int, r: int) -> bool {
    0 <= r && r * r <= v && v < (r + 1) * (r + 1)
}

/// The floor of the square root of a nonnegative integer.
pub open spec fn sqrt_floor(v: int) -> int {
    choose|r: int| is_sqrt_floor(v, r)
}

/// Fixed-point square root of a nonnegative scalar.
pub open spec fn fp_sqrt_spec(x: int) -> int {
    sqrt_floor(x * (FP_ONE as int))
}

/// Fixed-point Euclidean norm of a vector, rounded down to the fixed grid.
pub open spec fn fp_hypot_spec(x: int, y: int) -> int {
    sqrt_floor(x * x + y * y)
}

/// Every nonnegative integer has a floor square root.
pub proof fn lemma_sqrt_floor_exists(v: int)
    requires
        v >= 0,
    ensures
        is_sqrt_floor(v, sqrt_floor(v)),
    decreases v,
{
    if v == 0 {
        assert(is_sqrt_floor(0, 0));
    } else {
        lemma_sqrt_floor_exists(v - 1);
        let r = sqrt_floor(v - 1);
        if v < (r + 1) * (r + 1) {
            assert(is_sqrt_floor(v, r));
        } else {
            assert(v == (r + 1) * (r + 1));
            assert((r + 1) * (r + 1) < (r + 2) * (r + 2)) by (nonlinear_arith)
                requires r >= 0;
            assert(is_sqrt_floor(v, r + 1));
        }
    }
    let w = choose|q: int| is_sqrt_floor(v, q);
    assert(is_sqrt_floor(v, w));
}

/// The floor square root is unique, so any witness equals `sqrt_floor`.
pub proof fn lemma_sqrt_floor_unique(v: int, r: int)
    requires
        is_sqrt_floor(v, r),
    ensures
        sqrt_floor(v) == r,
{
    assert(is_sqrt_floor(v, r));
    let q = sqrt_floor(v);
    assert(is_sqrt_floor(v, q));
    assert(q == r) by (nonlinear_arith)
        requires is_sqrt_floor(v, q), is_sqrt_floor(v, r);
}

/// Floor of the square root, by bisection.
fn isqrt(v: u128) -> (r: u64)
    requires
        v < 0x1_0000_0000_0000_0000_0000,
    ensures
        is_sqrt_floor(v as int, r as int),
{
    let mut lo: u64 = 0;
    let mut hi: u64 = 0x100_0000_0000;
    assert((hi as int) * (hi as int) == 0x1_0000_0000_0000_0000_0000);
    while lo + 1 < hi
        invariant
            lo < hi,
            hi <= 0x100_0000_0000,
            (lo as int) * (lo as int) <= v as int,
            (v as int) < (hi as int) * (hi as int),
        decreases hi - lo,
    {
        let mid = lo + (hi - lo) / 2;
        assert(lo < mid < hi);
        assert((mid as int) * (mid as int) <= 0x1_0000_0000_0000_0000_0000) by (nonlinear_arith)
            requires 0 <= mid <= 0x100_0000_0000int;
        if (mid as u128) * (mid as u128) <= v {
            lo = mid;
        } else {
            hi = mid;
        }
    }
    assert(hi == lo + 1);
    lo
}

/// Magnitude of an `i64`, widened so that the smallest value needs no care.
fn abs_u128(a: i64) -> (r: u128)
    ensures
        r == abs_spec(a as int),
{
    if a >= 0 {
        a as u128
    } else {
        (-(a as i128)) as u128
    }
}

/// Fixed-point product, rounded toward zero.
pub fn fp_mul(a: i64, b: i64) -> (r: i64)
    requires
        abs_spec(a as int) * abs_spec(b as int) <= 0x4000_0000_0000_0000_0000,
    ensures
        r == fp_mul_spec(a as int, b as int),
{
    let ma = abs_u128(a);
    let mb = abs_u128(b);
    assert(ma * mb <= 0x4000_0000_0000_0000_0000);
    let m: u128 = (ma * mb) / (FP_ONE as u128);
    proof {
        lemma_div_is_ordered(ma as int * mb as int, 0x4000_0000_0000_0000_0000, FP_ONE as int);
        lemma_div_pos_is_pos(ma as int * mb as int, FP_ONE as int);
    }
    assert(m <= 0x4000_0000_0000_0000_0000int / 0x10000int);
    if (a < 0) != (b < 0) {
        -(m as i64)
    } else {
        m as i64
    }
}

/// Fixed-point quotient, rounded toward zero.
pub fn fp_div(a: i64, b: i64) -> (r: i64)
    requires
        b != 0,
        -0x4000_0000_0000 <= a <= 0x4000_0000_0000,
    ensures
        r == fp_div_spec(a as int, b as int),
{
    let ma = abs_u128(a);
    let mb = abs_u128(b);
    assert(ma <= 0x4000_0000_0000);
    assert(ma as int * (FP_ONE as int) <= 0x4000_0000_0000_0000) by (nonlinear_arith)
        requires ma as int <= 0x4000_0000_0000, FP_ONE == 0x10000;
    let num: u128 = ma * (FP_ONE as u128);
    assert(num <= 0x4000_0000_0000_0000);
    let m: u128 = num / mb;
    proof {
        lemma_div_nonincreasing(num as int, mb as int);
        lemma_div_pos_is_pos(num as int, mb as int);
    }
    assert(m <= num);
    if (a < 0) != (b < 0) {
        -(m as i64)
    } else {
        m as i64
    }
}

/// Fixed-point square root of a nonnegative scalar.
pub fn fp_sqrt(x: i64) -> (r: i64)
    requires
        0 <= x,
    ensures
        r == fp_sqrt_spec(x as int),
        0 <= r,
{
    proof {
        assert(x as int * (FP_ONE as int) < 0x1_0000_0000_0000_0000_0000) by (nonlinear_arith)
            requires 0 <= x as int, (x as int) < 0x8000_0000_0000_0000, FP_ONE == 0x10000;
    }
    let v: u128 = (x as u128) * (FP_ONE as u128);
    assert(v < 0x1_0000_0000_0000_0000_0000);
    let s = isqrt(v);
    proof {
        lemma_sqrt_floor_unique(v as int, s as int);
        assert(s as int <= 0x100_0000_0000) by (nonlinear_arith)
            requires
                (s as int) * (s as int) <= v as int,
                0 <= s as int,
                v < 0x1_0000_0000_0000_0000_0000;
    }
    s as i64
}

/// Fixed-point Euclidean norm of a vector.
pub fn fp_hypot(x: i64, y: i64) -> (r: i64)
    requires
        -0x4000_0000 <= x <= 0x4000_0000,
        -0x4000_0000 <= y <= 0x4000_0000,
    ensures
        r == fp_hypot_spec(x as int, y as int),
        0 <= r,
{
    proof {
        assert(x as int * x as int <= 0x1000_0000_0000_0000) by (nonlinear_arith)
            requires -0x4000_0000 <= x as int <= 0x4000_0000;
        assert(y as int * y as int <= 0x1000_0000_0000_0000) by (nonlinear_arith)
            requires -0x4000_0000 <= y as int <= 0x4000_0000;
        assert(x as int * x as int >= 0) by (nonlinear_arith);
        assert(y as int * y as int >= 0) by (nonlinear_arith);
    }
    let vx: i128 = (x as i128) * (x as i128);
    let vy: i128 = (y as i128) * (y as i128);
    let v: u128 = (vx + vy) as u128;
    let s = isqrt(v);
    proof {
        lemma_sqrt_floor_unique(v as int, s as int);
        assert(s as int <= 0x1_0000_0000) by (nonlinear_arith)
            requires
                (s as int) * (s as int) <= v as int,
                0 <= s as int,
                v as int <= 0x2000_0000_0000_0000;
    }
    s as i64
}

/// Magnitude of a fixed-point scalar.
pub fn fp_abs(a: i64) -> (r: i64)
    requires
        a != i64::MIN,
    ensures
        r == abs_spec(a as int),
{
    if a >= 0 {
        a
    } else {
        -a
    }
}

/// A number whose square is at most the square of a nonnegative bound is at
/// most that bound.
pub proof fn lemma_sq_le_implies_le(d: int, bound: int)
    requires
        0 <= d,
        0 <= bound,
        d * d <= bound * bound,
    ensures
        d <= bound,
{
    if d > bound {
        assert(d * d > bound * bound) by (nonlinear_arith)
            requires 0 <= bound, d > bound;
    }
}

/// A cap on the magnitudes of the factors caps the magnitude of the
/// fixed-point product.
pub proof fn lemma_fp_mul_abs(a: int, b: int, cap: int)
    requires
        abs_spec(a) * abs_spec(b) <= cap,
        0 <= cap,
    ensures
        0 <= abs_spec(fp_mul_spec(a, b)) <= cap / (FP_ONE as int),
{
    let m = (abs_spec(a) * abs_spec(b)) / (FP_ONE as int);
    lemma_mul_nonnegative(abs_spec(a), abs_spec(b));
    lemma_div_pos_is_pos(abs_spec(a) * abs_spec(b), FP_ONE as int);
    lemma_div_is_ordered(abs_spec(a) * abs_spec(b), cap, FP_ONE as int);
}

/// A cap on the magnitude of the dividend caps the magnitude of the
/// fixed-point quotient, whatever the divisor.
pub proof fn lemma_fp_div_abs(a: int, b: int, cap: int)
    requires
        abs_spec(a) <= cap,
        b != 0,
    ensures
        0 <= abs_spec(fp_div_spec(a, b)) <= cap * (FP_ONE as int),
{
    let num = abs_spec(a) * (FP_ONE as int);
    let m = num / abs_spec(b);
    lemma_mul_nonnegative(abs_spec(a), FP_ONE as int);
    lemma_div_pos_is_pos(num, abs_spec(b));
    lemma_div_nonincreasing(num, abs_spec(b));
    lemma_mul_inequality(abs_spec(a), cap, FP_ONE as int);
}

/// Scaling by a fraction of one pulls a value toward zero: the product of `d`
/// with a scalar in `[0, 1]` lies between zero and `d`.
pub proof fn lemma_fp_mul_fraction(d: int, t: int)
    requires
        0 <= t <= FP_ONE,
    ensures
        d >= 0 ==> 0 <= fp_mul_spec(d, t) <= d,
        d < 0 ==> d <= fp_mul_spec(d, t) <= 0,
{
    let m = (abs_spec(d) * abs_spec(t)) / (FP_ONE as int);
    lemma_mul_nonnegative(abs_spec(d), abs_spec(t));
    lemma_div_pos_is_pos(abs_spec(d) * abs_spec(t), FP_ONE as int);
    lemma_mul_inequality(t, FP_ONE as int, abs_spec(d));
    assert(abs_spec(d) * abs_spec(t) <= abs_spec(d) * (FP_ONE as int)) by (nonlinear_arith)
        requires 0 <= t <= FP_ONE as int, abs_spec(d) >= 0, abs_spec(t) == t;
    lemma_div_is_ordered(abs_spec(d) * abs_spec(t), abs_spec(d) * (FP_ONE as int), FP_ONE as int);
    assert(abs_spec(d) * (FP_ONE as int) / (FP_ONE as int) == abs_spec(d)) by (nonlinear_arith);
    assert(0 <= m <= abs_spec(d));
}

/// Dividing a nonnegative scalar by a strictly larger one gives a fraction
/// in `[0, 1)`.
pub proof fn lemma_fp_div_frac(d: int, e: int)
    requires
        0 <= d < e,
    ensures
        0 <= fp_div_spec(d, e) < FP_ONE,
{
    let a = d * (FP_ONE as int);
    let m = a / e;
    lemma_mul_nonnegative(d, FP_ONE as int);
    lemma_div_pos_is_pos(a, e);
    vstd::arithmetic::div_mod::lemma_fundamental_div_mod(a, e);
    vstd::arithmetic::div_mod::lemma_mod_bound(a, e);
    assert(e * m <= a);
    assert(a < e * (FP_ONE as int)) by (nonlinear_arith)
        requires 0 <= d < e, a == d * (FP_ONE as int), FP_ONE == 0x10000;
    assert(m < FP_ONE as int) by (nonlinear_arith)
        requires e > 0, e * m <= a, a < e * (FP_ONE as int);
}

/// One positive step of the estimator shrinks a positive remaining extent by
/// at least one grid unit.
pub proof fn lemma_fp_mul_extent(e: int, t: int)
    requires
        1 <= e <= FP_ONE,
        1 <= t < FP_ONE,
    ensures
        0 <= fp_mul_spec(e, FP_ONE - t) <= e - 1,
{
    let f = (FP_ONE - t) as int;
    let m = (e * f) / (FP_ONE as int);
    lemma_mul_nonnegative(e, f);
    lemma_div_pos_is_pos(e * f, FP_ONE as int);
    assert(e * f <= e * (FP_ONE - 1)) by (nonlinear_arith)
        requires e >= 0, f <= FP_ONE - 1;
    lemma_div_is_ordered(e * f, e * ((FP_ONE - 1) as int), FP_ONE as int);
    assert(e * ((FP_ONE - 1) as int) == (FP_ONE as int) * (e - 1) + ((FP_ONE as int) - e));
    vstd::arithmetic::div_mod::lemma_div_multiples_vanish_fancy(e - 1, (FP_ONE as int) - e, FP_ONE as int);
    assert(abs_spec(e) == e);
    assert(abs_spec(f) == f);
}

} // verus!
