use limit2zero::easing::{Ease, EaseIn, EaseOut, Linear, LinearBlend, SCurve};
use limit2zero::easing::pow_fp;
use limit2zero::fixed::{HALF, ONE};
use limit2zero::graph::{generate_attack_graph, generate_release_graph};
use limit2zero::limiter::CurveParams;

#[test]
fn identity_curve_returns_input() {
    let lin = Linear;
    for x in [0u64, 1, 137, HALF, ONE - 1, ONE] {
        assert_eq!(lin.process(x), x);
    }
}

#[test]
fn ease_in_boundaries_hold_for_every_polarity_and_power() {
    for polarity in [0u64, 250_000, HALF, 750_000, ONE] {
        for power in [62_500u64, 250_000, ONE, 2 * ONE, 16 * ONE] {
            let curve = EaseIn::new(polarity, power);
            assert_eq!(curve.process(0), 0);
            assert_eq!(curve.process(ONE), ONE);
        }
    }
}

#[test]
fn ease_out_boundaries_hold_for_every_polarity_and_power() {
    for polarity in [0u64, 250_000, HALF, 750_000, ONE] {
        for power in [62_500u64, 250_000, ONE, 2 * ONE, 16 * ONE] {
            let curve = EaseOut::new(polarity, power);
            assert_eq!(curve.process(0), 0);
            assert_eq!(curve.process(ONE), ONE);
        }
    }
}

#[test]
fn quadratic_ease_in_at_half_is_a_quarter() {
    // pow is computed through the binary log, which is exact at one half:
    // (1/2)^2 == 1/4 with no rounding at all.
    assert_eq!(pow_fp(HALF, 2 * ONE), 250_000);
}

#[test]
fn pow_fixes_zero_and_one() {
    for power in [1u64, ONE, 2 * ONE, 16 * ONE] {
        assert_eq!(pow_fp(0, power), 0);
        assert_eq!(pow_fp(ONE, power), ONE);
    }
}

#[test]
fn ease_in_is_monotone_on_a_grid() {
    let curve = EaseIn::new(ONE, 2 * ONE);
    let mut prev = 0u64;
    for i in 0..=100u64 {
        let x = i * ONE / 100;
        let y = curve.process(x);
        assert!(y + 40_000 >= prev, "dip at x = {x}: {y} after {prev}");
        prev = y;
    }
}

#[test]
fn scurve_has_no_jump_at_the_region_boundaries() {
    // center 0.5, smoothing 0.5: the crossfade spans [0.25, 0.75].
    let curve = SCurve::new(
        EaseIn::new(ONE, 2 * ONE),
        EaseOut::new(ONE, 2 * ONE),
        HALF,
        HALF,
        Linear,
    );
    let tolerance = 20_000u64;
    for boundary in [250_000u64, 750_000] {
        let below = curve.process(boundary - 1);
        let at = curve.process(boundary);
        let above = curve.process(boundary + 1);
        assert!(at.abs_diff(below) <= tolerance, "jump below {boundary}: {below} vs {at}");
        assert!(at.abs_diff(above) <= tolerance, "jump above {boundary}: {at} vs {above}");
    }
}

#[test]
fn full_linearity_blend_is_the_identity() {
    let blend = LinearBlend::new(
        SCurve::new(
            EaseIn::new(HALF, 4 * ONE),
            EaseOut::new(0, 2 * ONE),
            300_000,
            HALF,
            Linear,
        ),
        ONE,
    );
    for x in [0u64, 123_456, HALF, 999_999, ONE] {
        assert_eq!(blend.process(x), x);
    }
}

#[test]
fn release_graph_of_the_neutral_shape_is_the_diagonal() {
    let points = generate_release_graph(&CurveParams::default(), 4);
    assert_eq!(points.len(), 5);
    let expect = [0u64, 250_000, 500_000, 750_000, ONE];
    for (i, (x, y)) in points.iter().enumerate() {
        assert_eq!(*x, expect[i]);
        assert_eq!(*y, expect[i]);
    }
}

#[test]
fn attack_graph_of_the_neutral_shape_is_the_falling_diagonal() {
    let points = generate_attack_graph(&CurveParams::default(), 4);
    assert_eq!(points.len(), 5);
    let expect_x = [0u64, 250_000, 500_000, 750_000, ONE];
    for (i, (x, y)) in points.iter().enumerate() {
        assert_eq!(*x, expect_x[i]);
        assert_eq!(*y, ONE - expect_x[i]);
    }
}
