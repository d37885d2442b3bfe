//! The easing-curve library: pure, stateless maps from a progress value in
//! `[0, ONE]` to a shaped progress value, used to bend attack and release
//! envelopes away from linear.
//!
//! Fractional powers are computed as `2^(-k * log2(1/x))`: a verified
//! doubling loop finds the binary exponent, a quadratic expansion refines
//! the fraction, and `levels::exp2_neg` maps back to a linear value.

use vstd::arithmetic::div_mod::*;
use vstd::arithmetic::mul::*;
use vstd::arithmetic::power2::*;
use vstd::prelude::*;

use crate::fixed::{
    div_fp, fpdiv, fplerp, fpmul, lerp_fp, lemma_fpmul_ordered, lemma_fpmul_shrinks, mul_fp, ONE,
};
use crate::levels::{exp2_neg, exp2_neg_spec, lemma_exp2_neg_bounds};

verus! {

/// First coefficient of the fractional log2 expansion, in micro-units.
pub const LOG_C1: u64 = 1_346_600;

/// Second coefficient of the fractional log2 expansion, in micro-units.
pub const LOG_C2: u64 = 360_700;

/// Largest exponent accepted by the power map (one million, in micro-units).
pub const POW_MAX: u64 = 1_000_000_000_000;

/// Largest value an easing curve can return: `ONE` plus the epsilon that
/// guards the S-curve region splits.
pub const CURVE_MAX: u64 = 1_000_001;

/// Number of doublings that bring `x` up to at least `ONE`.
pub open spec fn nlog2_steps(x: int) -> nat
    decreases 2 * (ONE as int) - x,
    when 1 <= x
{
    if x >= ONE {
        0
    } else {
        1 + nlog2_steps(2 * x)
    }
}

/// The fractional part of `log2(v / ONE)` for `v` in `[ONE, 2 * ONE)`, by a
/// quadratic expansion of the mantissa.
pub open spec fn log2_frac(v: int) -> int {
    let m = v - (ONE as int);
    fpmul(m, LOG_C1 as int) - fpmul(fpmul(m, m), LOG_C2 as int)
}

/// `-log2(x / ONE)` in micro-units, for `x` in `[1, ONE]`: the doubling
/// count minus the fractional refinement, floored at zero.
pub open spec fn nlog2_spec(x: int) -> int {
    let e = nlog2_steps(x) as int;
    let frac = log2_frac(x * pow2(nlog2_steps(x)));
    if frac > e * (ONE as int) {
        0
    } else {
        e * (ONE as int) - frac
    }
}

/// `(x / ONE) ^ (k / ONE)` in micro-units, for `x` in `[0, ONE]`.
pub open spec fn pow_curve(x: int, k: int) -> int {
    if x <= 0 {
        0
    } else {
        exp2_neg_spec(fpmul(k, nlog2_spec(x)))
    }
}

/// The fixed-point reciprocal of a power parameter.
pub open spec fn recip_spec(k: int) -> int {
    fpdiv(ONE as int, k)
}

/// `-log2(x / ONE)` in micro-units.
pub fn neg_log2(x: u64) -> (r: u64)
    requires
        1 <= x <= ONE,
    ensures
        r == nlog2_spec(x as int),
        r <= 20 * ONE,
        x == ONE ==> r == 0,
{
    let mut v = x;
    let mut e: u64 = 0;
    proof {
        assert(pow2(0) == 1) by {
            lemma2_to64();
        }
        lemma_mul_basics(x as int);
    }
    while v < ONE
        invariant
            1 <= v < 2 * ONE,
            1 <= x <= ONE,
            e <= 20,
            v == (x as int) * (pow2(e as nat) as int),
            nlog2_steps(x as int) == e + nlog2_steps(v as int),
        decreases 2 * ONE - v,
    {
        proof {
            assert(pow2((e + 1) as nat) == 2 * pow2(e as nat)) by {
                lemma_pow2_adds(1, e as nat);
                lemma_pow2_unfold(1);
                assert(pow2(1) == 2) by {
                    lemma2_to64();
                }
            }
            assert((x as int) * (2 * pow2(e as nat) as int) == 2 * ((x as int) * (pow2(
                e as nat,
            ) as int))) by (nonlinear_arith);
            // The doubling count stays under 20 because pow2(20) exceeds ONE.
            assert(pow2(e as nat) <= v) by {
                lemma_pow2_pos(e as nat);
                lemma_mul_inequality(1, x as int, pow2(e as nat) as int);
                lemma_mul_is_commutative(x as int, pow2(e as nat) as int);
            }
            if e >= 20 {
                assert(pow2(e as nat) >= pow2(20)) by {
                    if e > 20 {
                        lemma_pow2_strictly_increases(20, e as nat);
                    }
                }
                assert(pow2(20) == 0x100000) by {
                    lemma2_to64();
                }
            }
        }
        v = v * 2;
        e = e + 1;
    }
    let m = v - ONE;
    let a = mul_fp(m, LOG_C1);
    let u = mul_fp(m, m);
    proof {
        lemma_fpmul_shrinks(m as int, m as int);
    }
    let b = mul_fp(u, LOG_C2);
    proof {
        lemma_fpmul_ordered(u as int, m as int, LOG_C2 as int, LOG_C1 as int);
        assert(b <= a);
        lemma_mul_inequality(e as int, 20, ONE as int);
    }
    let frac = a - b;
    if frac > e * ONE {
        0
    } else {
        e * ONE - frac
    }
}

/// `(x / ONE) ^ (k / ONE)`: a fractional power on `[0, ONE]`.
pub fn pow_fp(x: u64, k: u64) -> (r: u64)
    requires
        x <= ONE,
        1 <= k <= POW_MAX,
    ensures
        r == pow_curve(x as int, k as int),
        r <= ONE,
        x == ONE ==> r == ONE,
        x == 0 ==> r == 0,
{
    if x == 0 {
        return 0;
    }
    let nl = neg_log2(x);
    let y = mul_fp(k, nl);
    proof {
        lemma_fpmul_ordered(k as int, POW_MAX as int, nl as int, 20 * (ONE as int));
        assert((POW_MAX as int) * (20 * (ONE as int)) == 20_000_000_000_000_000_000 * 1int)
            by (nonlinear_arith);
        assert(fpmul(POW_MAX as int, 20 * (ONE as int)) <= 20_000_000_000_000) by {
            assert((POW_MAX as int) * (20 * (ONE as int)) <= 20_000_000_000_000int * (
            ONE as int)) by (nonlinear_arith);
            lemma_div_is_ordered(
                (POW_MAX as int) * (20 * (ONE as int)),
                20_000_000_000_000int * (ONE as int),
                ONE as int,
            );
            lemma_div_by_multiple(20_000_000_000_000, ONE as int);
        }
        if x == ONE {
            lemma_mul_basics(k as int);
            lemma_div_of0(ONE as int);
        }
        lemma_exp2_neg_bounds(y as int);
    }
    exp2_neg(y)
}

/// Fixed-point reciprocal of a power parameter.
pub fn recip_fp(k: u64) -> (r: u64)
    requires
        1 <= k <= POW_MAX,
    ensures
        r == recip_spec(k as int),
        1 <= r <= POW_MAX,
{
    let r = div_fp(ONE, k);
    proof {
        lemma_mul_inequality(ONE as int, ONE as int, ONE as int);
        lemma_div_is_ordered_by_denominator((ONE as int) * (ONE as int), k as int, POW_MAX as int);
        lemma_div_by_multiple(1, POW_MAX as int);
        lemma_mul_basics(POW_MAX as int);
        assert((ONE as int) * (ONE as int) == 1 * (POW_MAX as int)) by (nonlinear_arith);
        lemma_div_is_ordered_by_denominator((ONE as int) * (ONE as int), 1, k as int);
        lemma_div_basics((ONE as int) * (ONE as int));
        lemma_mul_upper_bound(ONE as int, ONE as int, ONE as int, ONE as int);
    }
    r
}

/// A curve: a pure map from a progress value in `[0, ONE]` to a shaped one.
pub trait Ease: Sized {
    /// The mathematical value of the curve at `x`.
    spec fn spec_process(&self, x: int) -> int;

    /// The parameter ranges under which the curve may be evaluated.
    spec fn wf(&self) -> bool;

    /// Evaluate the curve at `x`.
    fn process(&self, x: u64) -> (r: u64)
        requires
            self.wf(),
            x <= ONE,
        ensures
            r == self.spec_process(x as int),
            r <= CURVE_MAX,
    ;
}

/// The identity curve.
#[derive(Debug, Clone, Copy)]
pub struct Linear;

impl Ease for Linear {
    open spec fn spec_process(&self, x: int) -> int {
        x
    }

    open spec fn wf(&self) -> bool {
        true
    }

    /// The identity curve returns its input unchanged.
    fn process(&self, x: u64) -> (r: u64) {
        x
    }
}

/// Clamp a polarity parameter into `[0, ONE]`.
pub open spec fn clamp_polarity(p: int) -> int {
    if p > ONE {
        ONE as int
    } else if p < 0 {
        0
    } else {
        p
    }
}

/// The ease-in law: `x^k` at full polarity, the mirrored root at zero
/// polarity, and a blend by `x` itself in between.
pub open spec fn ease_in_spec(p: int, k: int, x: int) -> int {
    let pc = clamp_polarity(p);
    if pc == ONE {
        pow_curve(x, k)
    } else if pc == 0 {
        (ONE as int) - pow_curve((ONE as int) - x, recip_spec(k))
    } else {
        fplerp(
            (ONE as int) - pow_curve((ONE as int) - x, recip_spec(k)),
            pow_curve(x, k),
            x,
        )
    }
}

/// The ease-out law: mirror of ease-in.
pub open spec fn ease_out_spec(p: int, k: int, x: int) -> int {
    let pc = clamp_polarity(p);
    if pc == ONE {
        (ONE as int) - pow_curve((ONE as int) - x, k)
    } else if pc == 0 {
        pow_curve(x, recip_spec(k))
    } else {
        fplerp(
            pow_curve(x, recip_spec(k)),
            (ONE as int) - pow_curve((ONE as int) - x, k),
            x,
        )
    }
}

/// An accelerating curve with configurable polarity and power.
#[derive(Debug, Clone, Copy)]
pub struct EaseIn {
    pub polarity: u64,
    pub power: u64,
}

impl EaseIn {
    pub fn new(polarity: u64, power: u64) -> (r: Self)
        ensures
            r.polarity == polarity,
            r.power == power,
            1 <= power <= POW_MAX ==> r.wf(),
    {
        Self { polarity, power }
    }
}

impl Ease for EaseIn {
    open spec fn spec_process(&self, x: int) -> int {
        ease_in_spec(self.polarity as int, self.power as int, x)
    }

    open spec fn wf(&self) -> bool {
        1 <= self.power <= POW_MAX
    }

    fn process(&self, x: u64) -> (r: u64) {
        let p = if self.polarity > ONE {
            ONE
        } else {
            self.polarity
        };
        if p == ONE {
            pow_fp(x, self.power)
        } else if p == 0 {
            let q = pow_fp(ONE - x, recip_fp(self.power));
            ONE - q
        } else {
            let q = pow_fp(ONE - x, recip_fp(self.power));
            let a = ONE - q;
            let b = pow_fp(x, self.power);
            let r = lerp_fp(a as i64, b as i64, x);
            r as u64
        }
    }
}

/// A decelerating curve with configurable polarity and power.
#[derive(Debug, Clone, Copy)]
pub struct EaseOut {
    pub polarity: u64,
    pub power: u64,
}

impl EaseOut {
    pub fn new(polarity: u64, power: u64) -> (r: Self)
        ensures
            r.polarity == polarity,
            r.power == power,
            1 <= power <= POW_MAX ==> r.wf(),
    {
        Self { polarity, power }
    }
}

impl Ease for EaseOut {
    open spec fn spec_process(&self, x: int) -> int {
        ease_out_spec(self.polarity as int, self.power as int, x)
    }

    open spec fn wf(&self) -> bool {
        1 <= self.power <= POW_MAX
    }

    fn process(&self, x: u64) -> (r: u64) {
        let p = if self.polarity > ONE {
            ONE
        } else {
            self.polarity
        };
        if p == ONE {
            let q = pow_fp(ONE - x, self.power);
            ONE - q
        } else if p == 0 {
            pow_fp(x, recip_fp(self.power))
        } else {
            let a = pow_fp(x, recip_fp(self.power));
            let q = pow_fp(ONE - x, self.power);
            let b = ONE - q;
            let r = lerp_fp(a as i64, b as i64, x);
            r as u64
        }
    }
}

/// Clamp a negative interpolation result up to zero.
pub open spec fn clamp0(v: int) -> int {
    if v < 0 {
        0
    } else {
        v
    }
}

/// The larger of a value and one: the epsilon guard on the S-curve region
/// widths.
pub open spec fn at_least_eps(v: int) -> int {
    if v < 1 {
        1
    } else {
        v
    }
}

/// Where the "out" region of an S-curve begins.
pub open spec fn scurve_start(center: int, smoothing: int) -> int {
    center - at_least_eps(fpmul(center, smoothing))
}

/// Where the "in" region of an S-curve ends.
pub open spec fn scurve_end(center: int, smoothing: int) -> int {
    center + at_least_eps(fpmul((ONE as int) - center, smoothing))
}

/// An S-shaped curve: an ease-in over `[0, end]`, an ease-out over
/// `[start, ONE]`, crossfaded by a nested smoothing curve where the two
/// regions overlap.
#[derive(Debug, Clone, Copy)]
pub struct SCurve<T: Ease> {
    pub ease_in: EaseIn,
    pub ease_out: EaseOut,
    pub center: u64,
    pub smoothing: u64,
    pub sm_ease: T,
}

impl<T: Ease> SCurve<T> {
    pub fn new(ease_in: EaseIn, ease_out: EaseOut, center: u64, smoothing: u64, sm_ease: T) -> (r:
        Self)
        ensures
            r.ease_in == ease_in,
            r.ease_out == ease_out,
            r.center == center,
            r.smoothing == smoothing,
            r.sm_ease == sm_ease,
    {
        Self { ease_in, ease_out, center, smoothing, sm_ease }
    }

    /// The "in" region value at `x`: the ease-in on the local progress,
    /// scaled back to the region's length.
    pub open spec fn in_value(&self, x: int) -> int {
        let end = scurve_end(self.center as int, self.smoothing as int);
        fpmul(self.ease_in.spec_process(fpdiv(x, end)), end)
    }

    /// The "out" region value at `x`: the ease-out on the local progress,
    /// scaled back and shifted to the region's base.
    pub open spec fn out_value(&self, x: int) -> int {
        let start = scurve_start(self.center as int, self.smoothing as int);
        let out_len = (ONE as int) - start;
        fpmul(self.ease_out.spec_process(fpdiv(x - start, out_len)), out_len) + start
    }
}

impl<T: Ease> Ease for SCurve<T> {
    open spec fn spec_process(&self, x: int) -> int {
        let start = scurve_start(self.center as int, self.smoothing as int);
        let end = scurve_end(self.center as int, self.smoothing as int);
        let in_prog = fpdiv(x, end);
        let out_len = (ONE as int) - start;
        let out_prog = if x <= start {
            0
        } else {
            fpdiv(x - start, out_len)
        };
        let v0 = if in_prog < ONE {
            self.in_value(x)
        } else {
            0
        };
        let v1 = if out_prog > 0 {
            self.out_value(x)
        } else {
            0
        };
        if v0 != 0 && v1 != 0 {
            let sm_prog = fpdiv(x - start, end - start);
            let t = self.sm_ease.spec_process(sm_prog);
            let tc = if t > ONE {
                ONE as int
            } else {
                t
            };
            clamp0(fplerp(v0, v1, tc))
        } else {
            clamp0(v0 + v1)
        }
    }

    open spec fn wf(&self) -> bool {
        &&& self.ease_in.wf()
        &&& self.ease_out.wf()
        &&& self.sm_ease.wf()
        &&& self.center <= ONE
        &&& self.smoothing <= ONE
    }

    fn process(&self, x: u64) -> (r: u64) {
        let so_raw = mul_fp(self.center, self.smoothing);
        proof {
            lemma_fpmul_shrinks(self.center as int, self.smoothing as int);
            lemma_fpmul_shrinks((ONE - self.center) as int, self.smoothing as int);
        }
        let so = if so_raw == 0 {
            1
        } else {
            so_raw
        };
        let start: i64 = self.center as i64 - so as i64;
        let eo_raw = mul_fp(ONE - self.center, self.smoothing);
        let eo = if eo_raw == 0 {
            1
        } else {
            eo_raw
        };
        let end: u64 = self.center + eo;
        let in_prog = div_fp(x, end);
        let out_len: u64 = (ONE as i64 - start) as u64;
        let xs: i64 = x as i64 - start;
        let mut v0: u64 = 0;
        if in_prog < ONE {
            let e = self.ease_in.process(in_prog);
            proof {
                lemma_ease_in_range(self.ease_in.polarity as int, self.ease_in.power as int,
                    in_prog as int);
                lemma_fpmul_shrinks(end as int, e as int);
                vstd::arithmetic::mul::lemma_mul_is_commutative(e as int, end as int);
            }
            v0 = mul_fp(e, end);
        }
        let mut out_prog: u64 = 0;
        if xs > 0 {
            proof {
                lemma_fpdiv_within(xs as int, out_len as int);
            }
            out_prog = div_fp(xs as u64, out_len);
        }
        let mut v1: i64 = 0;
        if out_prog > 0 {
            let e = self.ease_out.process(out_prog);
            proof {
                lemma_ease_out_range(self.ease_out.polarity as int, self.ease_out.power as int,
                    out_prog as int);
                lemma_fpmul_shrinks(out_len as int, e as int);
                vstd::arithmetic::mul::lemma_mul_is_commutative(e as int, out_len as int);
            }
            v1 = mul_fp(e, out_len) as i64 + start;
        }
        if v0 != 0 && v1 != 0 {
            let sm_len: u64 = (end as i64 - start) as u64;
            proof {
                // The in region is still open, so x lies short of its end
                // and the crossfade progress stays under ONE.
                lemma_fpdiv_full(x as int, end as int);
                lemma_fpdiv_under(xs as int, sm_len as int);
            }
            let sm_prog = div_fp(xs as u64, sm_len);
            let t_raw = self.sm_ease.process(sm_prog);
            let t = if t_raw > ONE {
                ONE
            } else {
                t_raw
            };
            let l = lerp_fp(v0 as i64, v1, t);
            if l < 0 {
                0
            } else {
                l as u64
            }
        } else {
            let s = v0 as i64 + v1;
            if s < 0 {
                0
            } else {
                s as u64
            }
        }
    }
}

/// A curve blended toward the identity by a linearity amount.
#[derive(Debug, Clone, Copy)]
pub struct LinearBlend<T: Ease> {
    pub curve: T,
    pub linearity: u64,
}

impl<T: Ease> LinearBlend<T> {
    pub fn new(curve: T, linearity: u64) -> (r: Self)
        ensures
            r.curve == curve,
            r.linearity == linearity,
    {
        Self { curve, linearity }
    }
}

impl<T: Ease> Ease for LinearBlend<T> {
    open spec fn spec_process(&self, x: int) -> int {
        fplerp(self.curve.spec_process(x), x, self.linearity as int)
    }

    open spec fn wf(&self) -> bool {
        self.curve.wf() && self.linearity <= ONE
    }

    fn process(&self, x: u64) -> (r: u64) {
        let v = self.curve.process(x);
        let l = lerp_fp(v as i64, x as i64, self.linearity);
        l as u64
    }
}

/// A quotient `a * ONE / b` with `0 < a <= b` never exceeds `ONE`.
proof fn lemma_fpdiv_within(a: int, b: int)
    requires
        0 < b,
        a <= b,
    ensures
        a > 0 ==> fpdiv(a, b) <= ONE,
        a <= 0 ==> fpdiv(a, b) <= 0,
{
    if a > 0 {
        lemma_mul_inequality(a, b, ONE as int);
        lemma_div_is_ordered(a * (ONE as int), b * (ONE as int), b);
        lemma_div_by_multiple(ONE as int, b);
        lemma_mul_is_commutative(b, ONE as int);
    } else {
        lemma_mul_nonnegative(-a, ONE as int);
        lemma_div_is_ordered(a * (ONE as int), 0, b);
        lemma_div_of0(b);
    }
}

/// If the quotient `x * ONE / b` stays under `ONE`, then `x` stays under
/// `b`.
proof fn lemma_fpdiv_full(x: int, b: int)
    requires
        0 < b,
        0 <= x,
        fpdiv(x, b) < ONE,
    ensures
        x < b,
{
    if x >= b {
        lemma_mul_inequality(b, x, ONE as int);
        lemma_div_is_ordered(b * (ONE as int), x * (ONE as int), b);
        lemma_div_by_multiple(ONE as int, b);
        lemma_mul_is_commutative(b, ONE as int);
    }
}

/// A quotient of a value strictly inside the range stays strictly under
/// `ONE`.
proof fn lemma_fpdiv_under(a: int, b: int)
    requires
        0 < b,
        0 <= a < b,
    ensures
        fpdiv(a, b) < ONE,
{
    lemma_mul_nonnegative(a, ONE as int);
    assert(a * (ONE as int) < b * (ONE as int)) by {
        lemma_mul_strict_inequality(a, b, ONE as int);
    }
    lemma_multiply_divide_lt(a * (ONE as int), b, ONE as int);
    lemma_mul_is_commutative(b, ONE as int);
}

/// Ease-in values stay inside `[0, ONE]` on the unit interval.
pub proof fn lemma_ease_in_range(p: int, k: int, x: int)
    requires
        0 <= x <= ONE,
        1 <= k,
    ensures
        0 <= ease_in_spec(p, k, x) <= ONE,
{
    lemma_pow_range(x, k);
    lemma_pow_range((ONE as int) - x, recip_spec(k));
    lemma_pow_range(x, recip_spec(k));
    lemma_pow_range((ONE as int) - x, k);
    crate::fixed::lemma_fplerp_range(
        (ONE as int) - pow_curve((ONE as int) - x, recip_spec(k)),
        pow_curve(x, k),
        x,
    );
}

/// Ease-out values stay inside `[0, ONE]` on the unit interval.
pub proof fn lemma_ease_out_range(p: int, k: int, x: int)
    requires
        0 <= x <= ONE,
        1 <= k,
    ensures
        0 <= ease_out_spec(p, k, x) <= ONE,
{
    lemma_pow_range(x, k);
    lemma_pow_range((ONE as int) - x, recip_spec(k));
    lemma_pow_range(x, recip_spec(k));
    lemma_pow_range((ONE as int) - x, k);
    crate::fixed::lemma_fplerp_range(
        pow_curve(x, recip_spec(k)),
        (ONE as int) - pow_curve((ONE as int) - x, k),
        x,
    );
}

/// The power map stays inside `[0, ONE]`.
pub proof fn lemma_pow_range(x: int, k: int)
    requires
        0 <= k,
    ensures
        0 <= pow_curve(x, k) <= ONE,
{
    if x > 0 {
        assert(fpmul(k, nlog2_spec(x)) >= 0) by {
            lemma_mul_nonnegative(k, nlog2_spec(x));
            lemma_div_pos_is_pos(k * nlog2_spec(x), ONE as int);
        }
        lemma_exp2_neg_bounds(fpmul(k, nlog2_spec(x)));
    }
}

/// Below the smoothing start only the "in" region is active: the S-curve
/// agrees there with the single-region ease-in value. Together with the
/// crossfade lemma this rules out a jump where the "out" region switches
/// on.
pub proof fn lemma_scurve_agrees_in_region<T: Ease>(c: &SCurve<T>, x: int)
    requires
        c.wf(),
        0 <= x <= scurve_start(c.center as int, c.smoothing as int),
    ensures
        c.spec_process(x) == c.in_value(x),
{
    let start = scurve_start(c.center as int, c.smoothing as int);
    let end = scurve_end(c.center as int, c.smoothing as int);
    assert(end >= start + 2);
    lemma_fpdiv_under(x, end);
    lemma_ease_in_range(c.ease_in.polarity as int, c.ease_in.power as int, fpdiv(x, end));
    assert(fpdiv(x, end) <= ONE) by {
        lemma_fpdiv_within(x, end);
        if x == 0 {
            lemma_mul_basics(ONE as int);
            lemma_div_of0(end);
        }
    }
    assert(c.in_value(x) >= 0) by {
        lemma_mul_nonnegative(c.ease_in.spec_process(fpdiv(x, end)), end);
        lemma_div_pos_is_pos(c.ease_in.spec_process(fpdiv(x, end)) * end, ONE as int);
    }
}

/// At or past the smoothing end only the "out" region is active: the
/// S-curve agrees there with the single-region ease-out value, clamped at
/// zero.
pub proof fn lemma_scurve_agrees_out_region<T: Ease>(c: &SCurve<T>, x: int)
    requires
        c.wf(),
        scurve_end(c.center as int, c.smoothing as int) <= x <= ONE,
    ensures
        c.spec_process(x) == clamp0(c.out_value(x)),
{
    let start = scurve_start(c.center as int, c.smoothing as int);
    let end = scurve_end(c.center as int, c.smoothing as int);
    let out_len = (ONE as int) - start;
    assert(end >= start + 2);
    // The in-region progress has reached ONE, so the in value is out of
    // play.
    assert(fpdiv(x, end) >= ONE) by {
        lemma_mul_inequality(end, x, ONE as int);
        lemma_div_is_ordered(end * (ONE as int), x * (ONE as int), end);
        lemma_div_by_multiple(ONE as int, end);
        lemma_mul_is_commutative(end, ONE as int);
    }
    // The out-region progress is strictly positive.
    assert(fpdiv(x - start, out_len) > 0) by {
        assert(x - start >= 2);
        lemma_fpmul_shrinks(c.center as int, c.smoothing as int);
        assert(out_len <= 2 * (ONE as int));
        lemma_mul_inequality(2, x - start, ONE as int);
        lemma_div_is_ordered(2 * (ONE as int), (x - start) * (ONE as int), out_len);
        assert(2 * (ONE as int) / out_len >= 1) by {
            lemma_div_is_ordered(out_len, 2 * (ONE as int), out_len);
            lemma_div_basics_3(out_len);
        }
    }
}

/// Where both regions are active but the crossfade progress still rounds
/// to zero, a smoothing curve that starts at zero hands back exactly the
/// "in" value: the blend switches on without a jump.
pub proof fn lemma_scurve_crossfade_start<T: Ease>(c: &SCurve<T>, x: int)
    requires
        c.wf(),
        0 <= x <= ONE,
        fpdiv(x, scurve_end(c.center as int, c.smoothing as int)) < ONE,
        x > scurve_start(c.center as int, c.smoothing as int),
        fpdiv(
            x - scurve_start(c.center as int, c.smoothing as int),
            scurve_end(c.center as int, c.smoothing as int) - scurve_start(
                c.center as int,
                c.smoothing as int,
            ),
        ) == 0,
        c.sm_ease.spec_process(0) == 0,
        c.in_value(x) != 0,
        c.out_value(x) != 0,
    ensures
        c.spec_process(x) == c.in_value(x),
{
    let start = scurve_start(c.center as int, c.smoothing as int);
    let end = scurve_end(c.center as int, c.smoothing as int);
    crate::fixed::lemma_fplerp_ends(c.in_value(x), c.out_value(x));
    assert(fpdiv(x, end) >= 0) by {
        lemma_mul_nonnegative(x, ONE as int);
        lemma_div_pos_is_pos(x * (ONE as int), end);
    }
    lemma_ease_in_range(c.ease_in.polarity as int, c.ease_in.power as int, fpdiv(x, end));
    assert(c.in_value(x) >= 0) by {
        lemma_mul_nonnegative(c.ease_in.spec_process(fpdiv(x, end)), end);
        lemma_div_pos_is_pos(c.ease_in.spec_process(fpdiv(x, end)) * end, ONE as int);
    }
}

/// Every ease-in curve starts at zero and ends at one, whatever its
/// polarity and power.
pub proof fn lemma_ease_in_boundaries(p: int, k: int)
    requires
        1 <= k <= POW_MAX,
    ensures
        ease_in_spec(p, k, 0) == 0,
        ease_in_spec(p, k, ONE as int) == ONE,
{
    lemma_pow_at_one(k);
    lemma_pow_at_one(recip_spec(k));
    crate::fixed::lemma_fplerp_ends(
        (ONE as int) - pow_curve(ONE as int, recip_spec(k)),
        pow_curve(0, k),
    );
    crate::fixed::lemma_fplerp_ends(
        (ONE as int) - pow_curve(0, recip_spec(k)),
        pow_curve(ONE as int, k),
    );
}

/// Every ease-out curve starts at zero and ends at one, whatever its
/// polarity and power.
pub proof fn lemma_ease_out_boundaries(p: int, k: int)
    requires
        1 <= k <= POW_MAX,
    ensures
        ease_out_spec(p, k, 0) == 0,
        ease_out_spec(p, k, ONE as int) == ONE,
{
    lemma_pow_at_one(k);
    lemma_pow_at_one(recip_spec(k));
    crate::fixed::lemma_fplerp_ends(
        pow_curve(0, recip_spec(k)),
        (ONE as int) - pow_curve(ONE as int, k),
    );
    crate::fixed::lemma_fplerp_ends(
        pow_curve(ONE as int, recip_spec(k)),
        (ONE as int) - pow_curve(0, k),
    );
}

/// The power map fixes one: `ONE ^ k == ONE` for any exponent.
pub proof fn lemma_pow_at_one(k: int)
    ensures
        pow_curve(ONE as int, k) == ONE,
{
    assert(nlog2_steps(ONE as int) == 0);
    assert(pow2(0) == 1) by {
        lemma2_to64();
    }
    lemma_mul_basics(ONE as int);
    assert((ONE as int) * (pow2(nlog2_steps(ONE as int)) as int) == ONE);
    assert(log2_frac(ONE as int) == 0) by {
        lemma_mul_basics(LOG_C1 as int);
        lemma_mul_basics(LOG_C2 as int);
        lemma_div_of0(ONE as int);
        assert(fpmul(0, LOG_C1 as int) == 0);
        assert(fpmul(0, 0) == 0);
        assert(fpmul(0, LOG_C2 as int) == 0);
    }
    assert(nlog2_spec(ONE as int) == 0);
    assert(fpmul(k, 0) == 0) by {
        lemma_mul_basics(k);
        lemma_div_of0(ONE as int);
    }
    lemma_exp2_neg_bounds(0);
}

} // verus!
