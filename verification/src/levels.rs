//! Loudness and gain on the fixed-point scale.
//!
//! A gain reduction of `r` micro-decibels maps to the linear factor
//! `gain_of_reduction(r)`, a fixed-point base-two exponential. Loudness in
//! decibels is defined as the exact adjoint of that map: the overshoot of an
//! amplitude above the ceiling is the least reduction that brings it back
//! under, found by binary search. This makes the ceiling guarantee of the
//! limiter an exact theorem rather than an approximate one.

use vstd::arithmetic::div_mod::*;
use vstd::arithmetic::mul::*;
use vstd::arithmetic::power2::*;
use vstd::prelude::*;

use crate::fixed::{div_fp, fpdiv, fpmul, mul_fp, ONE};

verus! {

/// Micro-decibels per factor of two of gain: `20 * log10(2)` in micro-units.
pub const DB_PER_OCTAVE: u64 = 6_020_600;

/// The natural logarithm of two, in micro-units.
pub const LN2: u64 = 693_147;

/// Loudness floor in micro-decibels: silence reads as -100 dB.
pub const DB_FLOOR: u64 = 100_000_000;

/// Largest reduction the overshoot search ever needs to consider.
pub const DB_SEARCH_MAX: u64 = 2_000_000_000;

/// Largest amplitude magnitude the level maps accept (one million, +120 dB).
pub const AMP_CAP: u64 = 1_000_000_000_000;

/// Largest micro-decibel magnitude accepted by the gain map.
pub const DB_ARG_MAX: u64 = 1_000_000_000_000;

/// Fixed-point `2^(-y / ONE)`, by a quadratic expansion of the fractional
/// part and a right shift by the integer part.
pub open spec fn exp2_neg_spec(y: int) -> int {
    let i = y / (ONE as int);
    let f = y % (ONE as int);
    let x1 = f * (LN2 as int) / (ONE as int);
    let x2 = x1 * x1 / (ONE as int);
    let poly = (ONE as int) + x1 + x2 / 2;
    ((ONE as int) * (ONE as int) / poly) / (pow2(i as nat) as int)
}

/// The polynomial part of `exp2_neg_spec` on the fractional argument `f`.
spec fn exp2_poly(f: int) -> int {
    let x1 = f * (LN2 as int) / (ONE as int);
    let x2 = x1 * x1 / (ONE as int);
    (ONE as int) + x1 + x2 / 2
}

proof fn lemma_exp2_poly_bounds(f: int)
    requires
        0 <= f < ONE,
    ensures
        (ONE as int) <= exp2_poly(f) < 2 * (ONE as int),
        exp2_poly(0) == ONE,
{
    let x1 = f * (LN2 as int) / (ONE as int);
    let x2 = x1 * x1 / (ONE as int);
    // x1 is at most (ONE - 1) * LN2 / ONE < LN2.
    lemma_mul_inequality(f, (ONE as int) - 1, LN2 as int);
    lemma_mul_nonnegative(f, LN2 as int);
    lemma_div_is_ordered(f * (LN2 as int), ((ONE as int) - 1) * (LN2 as int), ONE as int);
    lemma_div_pos_is_pos(f * (LN2 as int), ONE as int);
    assert(((ONE as int) - 1) * (LN2 as int) < 693_147 * (ONE as int)) by (nonlinear_arith);
    lemma_multiply_divide_lt(((ONE as int) - 1) * (LN2 as int), ONE as int, 693_147);
    assert(0 <= x1 <= 693_146);
    // x2 is at most x1 * x1 / ONE <= 693146^2 / ONE < 480452.
    lemma_mul_inequality(x1, 693_146, x1);
    lemma_mul_nonnegative(x1, x1);
    assert(693_146 * x1 <= 693_146 * 693_146) by {
        lemma_mul_inequality(x1, 693_146, 693_146);
        lemma_mul_is_commutative(x1, 693_146);
        lemma_mul_is_commutative(693_146, 693_146);
    }
    assert(693_146 * 693_146 < 480_452 * (ONE as int)) by (nonlinear_arith);
    lemma_div_is_ordered(x1 * x1, 693_146int * 693_146int, ONE as int);
    lemma_multiply_divide_lt(693_146int * 693_146int, ONE as int, 480_452);
    lemma_div_pos_is_pos(x1 * x1, ONE as int);
    assert(0 <= x2 <= 480_451);
    lemma_div_is_ordered(x2, 480_451, 2);
    lemma_div_pos_is_pos(x2, 2);
    assert(480_451int / 2 <= 240_226) by {
        lemma_div_by_multiple(240_226, 2);
        lemma_div_is_ordered(480_451, 480_452, 2);
    }
    assert(exp2_poly(f) <= (ONE as int) + 693_146 + 240_226);
    // At f = 0 every term vanishes.
    lemma_div_of0(ONE as int);
    assert(0 * (LN2 as int) == 0) by (nonlinear_arith);
    lemma_div_of0(2);
}

/// `exp2_neg_spec` stays in `[0, ONE]` and starts exactly at `ONE`.
pub proof fn lemma_exp2_neg_bounds(y: int)
    requires
        0 <= y,
    ensures
        0 <= exp2_neg_spec(y) <= ONE,
        y == 0 ==> exp2_neg_spec(y) == ONE,
{
    let i = y / (ONE as int);
    let f = y % (ONE as int);
    lemma_fundamental_div_mod(y, ONE as int);
    lemma_div_pos_is_pos(y, ONE as int);
    lemma_mod_division_less_than_divisor(y, ONE as int);
    lemma_exp2_poly_bounds(f);
    let q = (ONE as int) * (ONE as int) / exp2_poly(f);
    lemma_div_is_ordered_by_denominator((ONE as int) * (ONE as int), ONE as int, exp2_poly(f));
    lemma_div_by_multiple(ONE as int, ONE as int);
    lemma_div_pos_is_pos((ONE as int) * (ONE as int), exp2_poly(f));
    assert(0 <= q <= ONE);
    lemma_pow2_pos(i as nat);
    lemma_div_is_ordered(q, ONE as int, pow2(i as nat) as int);
    lemma_div_nonincreasing(ONE as int, pow2(i as nat) as int);
    lemma_div_pos_is_pos(q, pow2(i as nat) as int);
    if y == 0 {
        assert(pow2(0) == 1) by {
            lemma2_to64();
        }
        lemma_div_basics(q);
    }
}

/// One step of antitonicity: raising the exponent by one cannot raise the
/// result.
proof fn lemma_exp2_neg_step(y: int)
    requires
        0 <= y,
    ensures
        exp2_neg_spec(y + 1) <= exp2_neg_spec(y),
{
    let i = y / (ONE as int);
    let f = y % (ONE as int);
    lemma_fundamental_div_mod(y, ONE as int);
    lemma_div_pos_is_pos(y, ONE as int);
    lemma_mod_division_less_than_divisor(y, ONE as int);
    lemma_pow2_pos(i as nat);
    if f < (ONE as int) - 1 {
        lemma_fundamental_div_mod_converse(y + 1, ONE as int, i, f + 1);
        lemma_fundamental_div_mod_converse_mod(y + 1, ONE as int, i, f + 1);
        let x1a = f * (LN2 as int) / (ONE as int);
        let x1b = (f + 1) * (LN2 as int) / (ONE as int);
        lemma_mul_inequality(f, f + 1, LN2 as int);
        lemma_div_is_ordered(f * (LN2 as int), (f + 1) * (LN2 as int), ONE as int);
        lemma_mul_nonnegative(f, LN2 as int);
        lemma_div_pos_is_pos(f * (LN2 as int), ONE as int);
        assert(0 <= x1a <= x1b);
        assert(x1a * x1a <= x1b * x1b) by {
            lemma_mul_inequality(x1a, x1b, x1a);
            lemma_mul_is_commutative(x1b, x1a);
            lemma_mul_inequality(x1a, x1b, x1b);
            lemma_mul_is_commutative(x1b, x1b);
        }
        lemma_div_is_ordered(x1a * x1a, x1b * x1b, ONE as int);
        lemma_div_is_ordered(
            x1a * x1a / (ONE as int),
            x1b * x1b / (ONE as int),
            2,
        );
        lemma_exp2_poly_bounds(f);
        lemma_exp2_poly_bounds(f + 1);
        lemma_div_is_ordered_by_denominator(
            (ONE as int) * (ONE as int),
            exp2_poly(f),
            exp2_poly(f + 1),
        );
        lemma_div_is_ordered(
            (ONE as int) * (ONE as int) / exp2_poly(f + 1),
            (ONE as int) * (ONE as int) / exp2_poly(f),
            pow2(i as nat) as int,
        );
    } else {
        // Crossing a whole step: the quotient at the top of the fractional
        // range still exceeds half of ONE, so one more halving keeps order.
        lemma_fundamental_div_mod_converse(y + 1, ONE as int, i + 1, 0);
        lemma_fundamental_div_mod_converse_mod(y + 1, ONE as int, i + 1, 0);
        lemma_exp2_poly_bounds(f);
        lemma_exp2_poly_bounds(0);
        let qa = (ONE as int) * (ONE as int) / exp2_poly(f);
        lemma_div_is_ordered_by_denominator(
            (ONE as int) * (ONE as int),
            exp2_poly(f),
            2 * (ONE as int),
        );
        assert((ONE as int) * (ONE as int) / (2 * (ONE as int)) == 500_000) by {
            lemma_div_denominator((ONE as int) * (ONE as int), ONE as int, 2);
            lemma_div_by_multiple(ONE as int, ONE as int);
            lemma_div_by_multiple(500_000, 2);
        }
        assert(qa >= 500_000);
        let qb = (ONE as int) * (ONE as int) / exp2_poly(0);
        lemma_div_by_multiple(ONE as int, ONE as int);
        assert(qb == ONE);
        assert(pow2((i + 1) as nat) == 2 * pow2(i as nat)) by {
            lemma_pow2_adds(1, i as nat);
            lemma_pow2_unfold(1);
            assert(pow2(1) == 2) by {
                lemma2_to64();
            }
        }
        assert(qb / (pow2((i + 1) as nat) as int) == (qb / 2) / (pow2(i as nat) as int)) by {
            lemma_div_denominator(qb, 2, pow2(i as nat) as int);
        }
        assert(qb / 2 == 500_000) by {
            lemma_div_by_multiple(500_000, 2);
        }
        lemma_div_is_ordered(500_000, qa, pow2(i as nat) as int);
    }
}

/// The negative exponential is antitone: deeper exponents give smaller
/// factors.
pub proof fn lemma_exp2_neg_antitone(y1: int, y2: int)
    requires
        0 <= y1 <= y2,
    ensures
        exp2_neg_spec(y2) <= exp2_neg_spec(y1),
    decreases y2 - y1,
{
    if y1 < y2 {
        lemma_exp2_neg_step(y2 - 1);
        lemma_exp2_neg_antitone(y1, y2 - 1);
    }
}

/// Fixed-point `2^(-y / ONE)`.
pub fn exp2_neg(y: u64) -> (r: u64)
    requires
        y <= 1_000_000_000_000_000_000,
    ensures
        r == exp2_neg_spec(y as int),
        r <= ONE,
        y == 0 ==> r == ONE,
{
    proof {
        lemma_exp2_neg_bounds(y as int);
    }
    let i: u64 = y / ONE;
    let f: u64 = y % ONE;
    let x1 = mul_fp(f, LN2);
    proof {
        lemma_exp2_poly_bounds(f as int);
    }
    let x2 = mul_fp(x1, x1);
    let poly = ONE + x1 + x2 / 2;
    let q = div_fp(ONE, poly);
    proof {
        assert(q == (ONE as int) * (ONE as int) / (poly as int));
        lemma_div_is_ordered_by_denominator((ONE as int) * (ONE as int), ONE as int, poly as int);
        lemma_div_by_multiple(ONE as int, ONE as int);
        lemma_div_pos_is_pos((ONE as int) * (ONE as int), poly as int);
    }
    if i >= 20 {
        proof {
            assert(pow2(20) == 0x100000) by {
                lemma2_to64();
            }
            assert(pow2(i as nat) >= pow2(20)) by {
                if i > 20 {
                    lemma_pow2_strictly_increases(20, i as nat);
                }
            }
            lemma_pow2_pos(i as nat);
            lemma_basic_div(q as int, pow2(i as nat) as int);
        }
        0
    } else {
        let mut r = q;
        let mut k: u64 = 0;
        proof {
            assert(pow2(0) == 1) by {
                lemma2_to64();
            }
            lemma_div_by_multiple(q as int, 1);
        }
        while k < i
            invariant
                k <= i < 20,
                q <= ONE,
                r == (q as int) / (pow2(k as nat) as int),
                r <= q,
            decreases i - k,
        {
            proof {
                lemma_pow2_pos(k as nat);
                lemma_pow2_pos((k + 1) as nat);
                lemma_div_denominator(q as int, pow2(k as nat) as int, 2);
                assert(pow2((k + 1) as nat) == pow2(k as nat) * 2) by {
                    lemma_pow2_adds(k as nat, 1);
                    assert(pow2(1) == 2) by {
                        lemma2_to64();
                    }
                }
                lemma_div_is_ordered(r as int / 2, r as int, 1);
                lemma_div_nonincreasing(r as int, 2);
                lemma_div_pos_is_pos(r as int, 2);
            }
            r = r / 2;
            k = k + 1;
        }
        r
    }
}

/// Linear gain factor of a reduction of `r` micro-decibels.
pub open spec fn gain_of_reduction(r: int) -> int {
    exp2_neg_spec(fpdiv(r, DB_PER_OCTAVE as int))
}

/// The reduction `r` pulls amplitude `a` to or under the ceiling.
pub open spec fn reduces_to_ceiling(a: int, r: int) -> bool {
    fpmul(a, gain_of_reduction(r)) <= ONE
}

/// The gain factor of a reduction, as executable code.
pub fn reduction_gain(r: u64) -> (g: u64)
    requires
        r <= DB_ARG_MAX,
    ensures
        g == gain_of_reduction(r as int),
        g <= ONE,
        r == 0 ==> g == ONE,
{
    let y = div_fp(r, DB_PER_OCTAVE);
    proof {
        lemma_exp2_neg_bounds(y as int);
        if r == 0 {
            lemma_mul_basics(ONE as int);
            lemma_div_of0(DB_PER_OCTAVE as int);
        }
    }
    exp2_neg(y)
}

/// Deeper reductions give smaller gain factors.
pub proof fn lemma_gain_antitone(r1: int, r2: int)
    requires
        0 <= r1 <= r2,
    ensures
        gain_of_reduction(r2) <= gain_of_reduction(r1),
{
    crate::fixed::lemma_fpdiv_ordered(r1, r2, DB_PER_OCTAVE as int);
    lemma_mul_nonnegative(r1, ONE as int);
    lemma_div_pos_is_pos(r1 * (ONE as int), DB_PER_OCTAVE as int);
    lemma_exp2_neg_antitone(fpdiv(r1, DB_PER_OCTAVE as int), fpdiv(r2, DB_PER_OCTAVE as int));
}

/// Once an amplitude is reduced to the ceiling, any deeper reduction keeps
/// it there.
pub proof fn lemma_deeper_reduction_keeps_ceiling(a: int, r1: int, r2: int)
    requires
        0 <= a,
        0 <= r1 <= r2,
        reduces_to_ceiling(a, r1),
    ensures
        reduces_to_ceiling(a, r2),
{
    lemma_gain_antitone(r1, r2);
    lemma_exp2_neg_bounds(fpdiv(r2, DB_PER_OCTAVE as int));
    lemma_mul_nonnegative(r2, ONE as int);
    lemma_div_pos_is_pos(r2 * (ONE as int), DB_PER_OCTAVE as int);
    crate::fixed::lemma_fpmul_ordered(a, a, gain_of_reduction(r2), gain_of_reduction(r1));
}

/// Any amplitude at or under the ceiling stays there under any reduction.
pub proof fn lemma_under_ceiling_stays(a: int, r: int)
    requires
        0 <= a <= ONE,
        0 <= r,
    ensures
        reduces_to_ceiling(a, r),
{
    lemma_mul_nonnegative(r, ONE as int);
    lemma_div_pos_is_pos(r * (ONE as int), DB_PER_OCTAVE as int);
    lemma_exp2_neg_bounds(fpdiv(r, DB_PER_OCTAVE as int));
    crate::fixed::lemma_fpmul_ordered(a, ONE as int, gain_of_reduction(r), ONE as int);
    crate::fixed::lemma_fpmul_one(ONE as int);
    assert(fpmul(ONE as int, ONE as int) == crate::fixed::fpmul_signed(ONE as int, ONE as int));
}

/// The overshoot of an amplitude above the ceiling: the least reduction, in
/// micro-decibels, that brings it to or under the ceiling.
pub fn overshoot_db(a: u64) -> (r: u64)
    requires
        ONE < a <= AMP_CAP,
    ensures
        0 < r <= DB_SEARCH_MAX,
        reduces_to_ceiling(a as int, r as int),
        !reduces_to_ceiling(a as int, r as int - 1),
{
    let mut lo: u64 = 0;
    let mut hi: u64 = DB_SEARCH_MAX;
    proof {
        // At the top of the range the gain underflows to zero.
        let ytop = fpdiv(DB_SEARCH_MAX as int, DB_PER_OCTAVE as int);
        assert(332_192 * (DB_PER_OCTAVE as int) <= (DB_SEARCH_MAX as int) * (ONE as int))
            by (nonlinear_arith);
        lemma_div_by_multiple(332_192, DB_PER_OCTAVE as int);
        lemma_div_is_ordered(
            332_192 * (DB_PER_OCTAVE as int),
            (DB_SEARCH_MAX as int) * (ONE as int),
            DB_PER_OCTAVE as int,
        );
        assert(ytop >= 332_192);
        lemma_exp2_neg_antitone(20 * (ONE as int), ytop);
        let i20 = (20 * (ONE as int)) / (ONE as int);
        lemma_div_by_multiple(20, ONE as int);
        lemma_mod_multiples_basic(20, ONE as int);
        assert(i20 == 20);
        lemma_exp2_poly_bounds(0);
        assert(pow2(20) == 0x100000) by {
            lemma2_to64();
        }
        lemma_div_by_multiple(ONE as int, ONE as int);
        lemma_basic_div(ONE as int, pow2(20) as int);
        assert(exp2_neg_spec(20 * (ONE as int)) == 0);
        lemma_exp2_neg_bounds(ytop);
        assert(gain_of_reduction(DB_SEARCH_MAX as int) == 0);
        lemma_mul_basics(a as int);
        lemma_div_of0(ONE as int);
        assert(reduces_to_ceiling(a as int, DB_SEARCH_MAX as int));
        // At zero reduction the gain is ONE and the amplitude stays put.
        lemma_div_of0(DB_PER_OCTAVE as int);
        lemma_mul_basics(ONE as int);
        lemma_exp2_neg_bounds(0);
        crate::fixed::lemma_fpmul_one(a as int);
        assert(fpmul(a as int, ONE as int) == crate::fixed::fpmul_signed(a as int, ONE as int));
        assert(!reduces_to_ceiling(a as int, 0));
    }
    while lo + 1 < hi
        invariant
            lo < hi <= DB_SEARCH_MAX,
            ONE < a <= AMP_CAP,
            !reduces_to_ceiling(a as int, lo as int),
            reduces_to_ceiling(a as int, hi as int),
        decreases hi - lo,
    {
        let mid = lo + (hi - lo) / 2;
        let g = reduction_gain(mid);
        let reduced = mul_fp(a, g);
        if reduced <= ONE {
            hi = mid;
        } else {
            lo = mid;
        }
    }
    hi
}

/// `r` is the exact overshoot of `a` over the ceiling: the least positive
/// reduction that brings `a` back to or under it.
pub open spec fn is_overshoot_of(a: int, r: int) -> bool {
    &&& 0 < r
    &&& reduces_to_ceiling(a, r)
    &&& !reduces_to_ceiling(a, r - 1)
}

/// `h` is the exact headroom of `a` under the ceiling: the least positive
/// reduction whose gain factor falls to `a`, or the loudness floor when
/// none does.
pub open spec fn is_headroom_of(a: int, h: int) -> bool {
    ||| {
        &&& 0 < h <= DB_FLOOR
        &&& gain_of_reduction(h) <= a
        &&& gain_of_reduction(h - 1) > a
    }
    ||| (h == DB_FLOOR && gain_of_reduction(DB_FLOOR as int) > a)
}

/// The loudness of a non-negative amplitude: zero at the ceiling, the
/// overshoot above it, minus the headroom below it.
pub open spec fn spec_level(a: int) -> int {
    if a > ONE {
        choose|r: int| is_overshoot_of(a, r)
    } else if a == ONE {
        0
    } else {
        -(choose|h: int| is_headroom_of(a, h))
    }
}

/// At most one reduction is the exact overshoot.
pub proof fn lemma_overshoot_unique(a: int, r1: int, r2: int)
    requires
        0 <= a,
        is_overshoot_of(a, r1),
        is_overshoot_of(a, r2),
    ensures
        r1 == r2,
{
    if r1 < r2 {
        lemma_deeper_reduction_keeps_ceiling(a, r1, r2 - 1);
    }
    if r2 < r1 {
        lemma_deeper_reduction_keeps_ceiling(a, r2, r1 - 1);
    }
}

/// At most one reduction is the exact headroom.
pub proof fn lemma_headroom_unique(a: int, h1: int, h2: int)
    requires
        0 <= a,
        is_headroom_of(a, h1),
        is_headroom_of(a, h2),
    ensures
        h1 == h2,
{
    if h1 != h2 {
        if 0 < h1 <= DB_FLOOR && gain_of_reduction(h1) <= a {
            lemma_gain_antitone(h1, DB_FLOOR as int);
            if 0 < h2 <= DB_FLOOR && gain_of_reduction(h2) <= a {
                if h1 < h2 {
                    lemma_gain_antitone(h1, h2 - 1);
                } else {
                    lemma_gain_antitone(h2, h1 - 1);
                }
            }
        } else {
            // h1 is the floored case, so h2 must be a boundary under it.
            lemma_gain_antitone(h2, DB_FLOOR as int);
        }
    }
}

/// The headroom of an amplitude at or under the ceiling: the least reduction
/// whose gain factor falls to or under the amplitude, floored at `DB_FLOOR`.
pub fn headroom_db(a: u64) -> (h: u64)
    requires
        a <= ONE,
    ensures
        h <= DB_FLOOR,
        a == ONE ==> h == 0,
        a < ONE ==> h > 0,
        h < DB_FLOOR ==> gain_of_reduction(h as int) <= a,
        a < ONE ==> is_headroom_of(a as int, h as int),
{
    let g0 = reduction_gain(0);
    if g0 <= a {
        proof {
            lemma_div_of0(DB_PER_OCTAVE as int);
            lemma_mul_basics(ONE as int);
            lemma_exp2_neg_bounds(0);
        }
        return 0;
    }
    let gf = reduction_gain(DB_FLOOR);
    if gf > a {
        return DB_FLOOR;
    }
    let mut lo: u64 = 0;
    let mut hi: u64 = DB_FLOOR;
    while lo + 1 < hi
        invariant
            lo < hi <= DB_FLOOR,
            a < ONE,
            gain_of_reduction(lo as int) > a,
            gain_of_reduction(hi as int) <= a,
        decreases hi - lo,
    {
        let mid = lo + (hi - lo) / 2;
        let g = reduction_gain(mid);
        if g <= a {
            hi = mid;
        } else {
            lo = mid;
        }
    }
    hi
}

} // verus!
