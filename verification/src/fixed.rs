//! Fixed-point arithmetic in micro-units: the value 1.0 is `ONE`.
//!
//! Products and quotients round toward zero, which on the non-negative
//! values used here is plain floor division. The signed helpers split a
//! value into sign and magnitude so that all executable division happens
//! on unsigned operands.

use vstd::prelude::*;

verus! {

/// One whole unit: all real-valued quantities are scaled by this.
pub const ONE: u64 = 1_000_000;

/// One half, in micro-units.
pub const HALF: u64 = 500_000;

/// Largest magnitude accepted by the fixed-point helpers; products of two
/// such magnitudes divided by `ONE` still fit in 63 bits.
pub const FP_MAX: u64 = 3_000_000_000_000;

/// Fixed-point product of two non-negative values, rounded down.
pub open spec fn fpmul(a: int, b: int) -> int {
    a * b / (ONE as int)
}

/// Fixed-point quotient `a / b` of two non-negative values, rounded down.
pub open spec fn fpdiv(a: int, b: int) -> int {
    a * (ONE as int) / b
}

/// Magnitude of an integer.
pub open spec fn abs_int(a: int) -> int {
    if a >= 0 {
        a
    } else {
        -a
    }
}

/// Fixed-point product for signed values: the product of the magnitudes,
/// rounded down, carrying the sign of the exact product.
pub open spec fn fpmul_signed(a: int, b: int) -> int {
    if (a < 0) == (b < 0) {
        abs_int(a) * abs_int(b) / (ONE as int)
    } else {
        -(abs_int(a) * abs_int(b) / (ONE as int))
    }
}

/// Linear interpolation from `a` to `b` by `t` (in units of `ONE`),
/// on signed fixed-point values.
pub open spec fn fplerp(a: int, b: int, t: int) -> int {
    a + fpmul_signed(b - a, t)
}

/// A fixed-point product of bounded factors is bounded by the product of
/// the bounds.
pub proof fn lemma_fpmul_bound(a: int, b: int, ca: int, cb: int)
    requires
        0 <= a <= ca,
        0 <= b <= cb,
    ensures
        0 <= a * b / (ONE as int) <= ca * cb / (ONE as int),
{
    vstd::arithmetic::mul::lemma_mul_upper_bound(a, ca, b, cb);
    vstd::arithmetic::mul::lemma_mul_nonnegative(a, b);
    vstd::arithmetic::div_mod::lemma_div_is_ordered(a * b, ca * cb, ONE as int);
    vstd::arithmetic::div_mod::lemma_div_pos_is_pos(a * b, ONE as int);
}

proof fn lemma_mul_div_bound(a: int, b: int, cap: int)
    requires
        0 <= a <= cap,
        0 <= b <= cap,
        0 <= cap,
    ensures
        0 <= a * b / (ONE as int) <= cap * cap / (ONE as int),
{
    lemma_fpmul_bound(a, b, cap, cap);
}

/// `a * b / ONE`, for non-negative fixed-point values.
pub fn mul_fp(a: u64, b: u64) -> (r: u64)
    requires
        a <= FP_MAX,
        b <= FP_MAX,
    ensures
        r == fpmul(a as int, b as int),
{
    proof {
        lemma_mul_div_bound(a as int, b as int, FP_MAX as int);
    }
    (((a as u128) * (b as u128)) / (ONE as u128)) as u64
}

/// `a * ONE / b`, for non-negative fixed-point values, `b` nonzero.
pub fn div_fp(a: u64, b: u64) -> (r: u64)
    requires
        a <= FP_MAX,
        1 <= b,
    ensures
        r == fpdiv(a as int, b as int),
{
    proof {
        lemma_mul_div_bound(a as int, ONE as int, FP_MAX as int);
        vstd::arithmetic::mul::lemma_mul_nonnegative(a as int, ONE as int);
        vstd::arithmetic::mul::lemma_mul_upper_bound(a as int, FP_MAX as int, ONE as int, ONE as int);
        vstd::arithmetic::div_mod::lemma_div_is_ordered(
            a * (ONE as int),
            (FP_MAX as int) * (ONE as int),
            b as int,
        );
        vstd::arithmetic::div_mod::lemma_div_nonincreasing(
            (FP_MAX as int) * (ONE as int),
            b as int,
        );
        vstd::arithmetic::div_mod::lemma_div_pos_is_pos(a * (ONE as int), b as int);
    }
    (((a as u128) * (ONE as u128)) / (b as u128)) as u64
}

/// Fixed-point product of two signed values, magnitudes bounded by `FP_MAX`.
pub fn mul_fp_signed(a: i64, b: i64) -> (r: i64)
    requires
        abs_int(a as int) <= FP_MAX,
        abs_int(b as int) <= FP_MAX,
    ensures
        r == fpmul_signed(a as int, b as int),
        abs_int(r as int) <= abs_int(a as int) * abs_int(b as int) / (ONE as int),
{
    let am: u64 = if a >= 0 {
        a as u64
    } else {
        (-a) as u64
    };
    let bm: u64 = if b >= 0 {
        b as u64
    } else {
        (-b) as u64
    };
    let m = mul_fp(am, bm);
    proof {
        lemma_mul_div_bound(am as int, bm as int, FP_MAX as int);
    }
    if (a < 0) != (b < 0) {
        -(m as i64)
    } else {
        m as i64
    }
}

/// A fixed-point product by a factor `t <= ONE` never grows the magnitude.
pub proof fn lemma_fpmul_shrinks(a: int, t: int)
    requires
        0 <= a,
        0 <= t <= ONE,
    ensures
        0 <= a * t / (ONE as int) <= a,
{
    vstd::arithmetic::mul::lemma_mul_upper_bound(a, a, t, ONE as int);
    vstd::arithmetic::mul::lemma_mul_nonnegative(a, t);
    vstd::arithmetic::div_mod::lemma_div_is_ordered(a * t, a * (ONE as int), ONE as int);
    vstd::arithmetic::div_mod::lemma_div_multiples_vanish(a, ONE as int);
    vstd::arithmetic::div_mod::lemma_div_pos_is_pos(a * t, ONE as int);
}

/// A fixed-point product by `ONE` is exact.
pub proof fn lemma_fpmul_one(a: int)
    ensures
        fpmul_signed(a, ONE as int) == a,
{
    vstd::arithmetic::mul::lemma_mul_is_commutative(abs_int(a), ONE as int);
    vstd::arithmetic::div_mod::lemma_div_multiples_vanish(abs_int(a), ONE as int);
}

/// Fixed-point products on non-negative values are monotone in both factors.
pub proof fn lemma_fpmul_ordered(a1: int, a2: int, b1: int, b2: int)
    requires
        0 <= a1 <= a2,
        0 <= b1 <= b2,
    ensures
        fpmul(a1, b1) <= fpmul(a2, b2),
{
    vstd::arithmetic::mul::lemma_mul_upper_bound(a1, a2, b1, b2);
    vstd::arithmetic::div_mod::lemma_div_is_ordered(a1 * b1, a2 * b2, ONE as int);
}

/// Fixed-point quotients are monotone in the numerator.
pub proof fn lemma_fpdiv_ordered(a1: int, a2: int, b: int)
    requires
        0 <= a1 <= a2,
        1 <= b,
    ensures
        fpdiv(a1, b) <= fpdiv(a2, b),
{
    vstd::arithmetic::mul::lemma_mul_inequality(a1, a2, ONE as int);
    vstd::arithmetic::div_mod::lemma_div_is_ordered(a1 * (ONE as int), a2 * (ONE as int), b);
}

/// Interpolation by `t = 0` returns the start, by `t = ONE` the end.
pub proof fn lemma_fplerp_ends(a: int, b: int)
    ensures
        fplerp(a, b, 0) == a,
        fplerp(a, b, ONE as int) == b,
{
    vstd::arithmetic::mul::lemma_mul_basics(abs_int(b - a));
    vstd::arithmetic::div_mod::lemma_div_of0(ONE as int);
    lemma_fpmul_one(b - a);
}

/// Interpolation by `t` in `[0, ONE]` stays between its two ends.
pub proof fn lemma_fplerp_range(a: int, b: int, t: int)
    requires
        0 <= t <= ONE,
    ensures
        a <= b ==> a <= fplerp(a, b, t) <= b,
        b <= a ==> b <= fplerp(a, b, t) <= a,
{
    lemma_fpmul_shrinks(abs_int(b - a), t);
}

/// Largest magnitude accepted by the interpolation helper: the span of two
/// such values still fits the fixed-point product helpers.
pub const LERP_MAX: u64 = 1_000_000_000_000;

/// Signed interpolation `a + (b - a) * t / ONE`, with `t` in `[0, ONE]`.
pub fn lerp_fp(a: i64, b: i64, t: u64) -> (r: i64)
    requires
        abs_int(a as int) <= LERP_MAX,
        abs_int(b as int) <= LERP_MAX,
        t <= ONE,
    ensures
        r == fplerp(a as int, b as int, t as int),
        a <= b ==> a <= r <= b,
        b <= a ==> b <= r <= a,
{
    let d = b - a;
    let m = mul_fp_signed(d, t as i64);
    proof {
        lemma_fpmul_shrinks(abs_int(d as int), t as int);
        lemma_fplerp_range(a as int, b as int, t as int);
    }
    a + m
}

/// Floor of the square root of `n`.
pub open spec fn is_floor_sqrt(n: int, r: int) -> bool {
    &&& 0 <= r
    &&& r * r <= n
    &&& n < (r + 1) * (r + 1)
}

/// The floor square root of a number is unique.
pub proof fn lemma_floor_sqrt_unique(n: int, r1: int, r2: int)
    requires
        is_floor_sqrt(n, r1),
        is_floor_sqrt(n, r2),
    ensures
        r1 == r2,
{
    if r1 < r2 {
        vstd::arithmetic::mul::lemma_mul_upper_bound(r1 + 1, r2, r1 + 1, r2);
    }
    if r2 < r1 {
        vstd::arithmetic::mul::lemma_mul_upper_bound(r2 + 1, r1, r2 + 1, r1);
    }
}

/// The floor square root, as a spec-level value.
pub open spec fn spec_floor_sqrt(n: int) -> int {
    choose|r: int| #[trigger] is_floor_sqrt(n, r)
}

/// Fixed-point square root of a value in `[0, ONE]`: the floor of
/// `sqrt(a * ONE)`, so that squaring the result rounds back down to at
/// most `a`.
pub fn sqrt_fp(a: u64) -> (r: u64)
    requires
        a <= ONE,
    ensures
        is_floor_sqrt(a * ONE, r as int),
        r == spec_floor_sqrt(a * ONE),
        r <= ONE,
{
    let n: u64 = a * ONE;
    let mut lo: u64 = 0;
    let mut hi: u64 = ONE;
    // Invariant: lo * lo <= n and n < (hi + 1) * (hi + 1).
    proof {
        vstd::arithmetic::mul::lemma_mul_upper_bound(a as int, ONE as int, ONE as int, ONE as int);
    }
    while lo < hi
        invariant
            lo <= hi <= ONE,
            lo * lo <= n,
            n < (hi + 1) * (hi + 1),
        decreases hi - lo,
    {
        let mid: u64 = lo + (hi - lo + 1) / 2;
        proof {
            vstd::arithmetic::mul::lemma_mul_upper_bound(mid as int, ONE as int, mid as int, ONE as int);
        }
        if mid * mid <= n {
            lo = mid;
        } else {
            hi = mid - 1;
        }
    }
    proof {
        assert(is_floor_sqrt(a * ONE, lo as int));
        let c = choose|r: int| #[trigger] is_floor_sqrt(a * ONE, r);
        lemma_floor_sqrt_unique(a * ONE, c, lo as int);
    }
    lo
}

} // verus!
