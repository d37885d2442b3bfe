use limit2zero::fixed::{mul_fp, sqrt_fp, ONE};
use limit2zero::levels::{exp2_neg, headroom_db, overshoot_db, reduction_gain, DB_FLOOR};
use limit2zero::limiter::drive_sample;

#[test]
fn exponential_is_exact_at_whole_octaves() {
    assert_eq!(exp2_neg(0), ONE);
    assert_eq!(exp2_neg(ONE), 500_000);
    assert_eq!(exp2_neg(2 * ONE), 250_000);
    assert_eq!(exp2_neg(10 * ONE), 976);
}

#[test]
fn zero_reduction_is_unity_gain() {
    assert_eq!(reduction_gain(0), ONE);
}

#[test]
fn six_db_of_reduction_halves_the_signal() {
    // 6.0206 dB is exactly one octave on this scale.
    assert_eq!(reduction_gain(6_020_600), 500_000);
}

#[test]
fn overshoot_of_a_doubled_signal_is_about_six_db() {
    let r = overshoot_db(2 * ONE);
    assert!(r >= 6_000_000 && r <= 6_050_000, "got {r}");
}

#[test]
fn overshoot_is_the_least_sufficient_reduction() {
    for amp in [1_000_001u64, 1_258_925, 2 * ONE, 10 * ONE, 1_000 * ONE] {
        let r = overshoot_db(amp);
        assert!(mul_fp(amp, reduction_gain(r)) <= ONE);
        assert!(mul_fp(amp, reduction_gain(r - 1)) > ONE);
    }
}

#[test]
fn headroom_of_a_halved_signal_is_about_six_db() {
    let h = headroom_db(500_000);
    assert!(h >= 6_000_000 && h <= 6_050_000, "got {h}");
}

#[test]
fn headroom_floors_at_silence() {
    assert_eq!(headroom_db(0), DB_FLOOR);
    assert_eq!(headroom_db(ONE), 0);
}

#[test]
fn driving_a_sample_scales_it_and_measures_the_overshoot() {
    let ns = drive_sample(500_000, 2 * ONE);
    assert_eq!(ns.sample, ONE as i64);
    assert_eq!(ns.db, 0);

    let loud = drive_sample(2 * ONE as i64, ONE);
    assert_eq!(loud.sample, 2 * ONE as i64);
    assert!(loud.db >= 6_000_000 && loud.db <= 6_050_000, "got {}", loud.db);

    let negative = drive_sample(-(2 * ONE as i64), ONE);
    assert_eq!(negative.sample, -(2 * ONE as i64));
    assert_eq!(negative.db, loud.db);

    let quiet = drive_sample(250_000, ONE);
    assert_eq!(quiet.sample, 250_000);
    assert!(quiet.db < 0);
}

#[test]
fn fixed_square_root_is_exact_on_squares() {
    assert_eq!(sqrt_fp(0), 0);
    assert_eq!(sqrt_fp(ONE), ONE);
    assert_eq!(sqrt_fp(250_000), 500_000);
    assert_eq!(sqrt_fp(810_000), 900_000);
}
