use limit2zero::easing::Ease;
use limit2zero::fixed::{mul_fp, HALF, ONE};
use limit2zero::scan::simd_max_reduction;
use limit2zero::levels::{overshoot_db, reduction_gain};
use limit2zero::limiter::{
    build_envelope, drive_sample, Config, EnvState, Limit2zero, LimiterBuffer,
};

fn process_one(eng: &mut Limit2zero, cfg: &Config, frame: &[i64]) -> Vec<i64> {
    let mut buf: Vec<Vec<i64>> = frame.iter().map(|s| vec![*s]).collect();
    eng.process(&mut buf, cfg);
    buf.into_iter().map(|ch| ch[0]).collect()
}

#[test]
fn impulse_with_no_lookahead_is_clamped_to_the_ceiling() {
    let mut eng = Limit2zero::default();
    eng.initialize(2, 48000, 0);
    let cfg = Config::default();
    let over = 1_995_262i64; // +6 dB over the ceiling
    let out = process_one(&mut eng, &cfg, &[over, over]);
    assert!(out[0] <= ONE as i64, "over the ceiling: {}", out[0]);
    assert!(out[0] >= 950_000, "clamped too deep: {}", out[0]);
    assert!(eng.limiters.limiters[0].envelope < 0);
    let out2 = process_one(&mut eng, &cfg, &[0, 0]);
    assert_eq!(out2[0], 0);
    assert_eq!(eng.limiters.limiters[0].envelope, 0, "envelope must return to rest");
}

#[test]
fn sustained_tone_holds_then_releases_monotonically() {
    let mut eng = Limit2zero::default();
    eng.initialize(1, 48000, 0);
    let mut cfg = Config::default();
    cfg.hold_len = 50 * ONE;
    cfg.release_len = 200 * ONE;
    let tone = 1_412_538i64; // +3 dB over the ceiling
    let mut env_trace: Vec<i64> = Vec::new();
    for s in 0..340usize {
        let x = if s < 60 { tone } else { 0 };
        process_one(&mut eng, &cfg, &[x]);
        env_trace.push(eng.limiters.limiters[0].envelope);
    }
    // The envelope is a reduction at every sample.
    assert!(env_trace.iter().all(|e| *e <= 0));
    // Constant while the tone lasts and through the hold plateau. The
    // release that fires mid-tone is clamped straight back, re-entering
    // hold at sample 52; the plateau therefore runs to sample 103.
    let held = env_trace[5];
    assert!(held < 0);
    for s in 5..=103 {
        assert_eq!(env_trace[s], held, "plateau broken at sample {s}");
    }
    // Monotone decay toward zero over the configured release.
    for s in 104..=304 {
        assert!(env_trace[s] >= env_trace[s - 1], "decay dips at sample {s}");
    }
    // The default release shape is the identity curve, so the decay is an
    // exact linear ramp: envelope = held - held * t with t = e / 201.
    for s in 104..=304usize {
        let e = (s - 103) as i64;
        let t = e * ONE as i64 / 201;
        let expected = held + (-held) * t / ONE as i64;
        assert_eq!(env_trace[s], expected, "off the release curve at sample {s}");
    }
    assert_eq!(env_trace[310], 0);
}

#[test]
fn lookahead_change_updates_latency_and_reprimes_buffers() {
    let mut eng = Limit2zero::default();
    eng.initialize(2, 48000, 0);
    assert_eq!(eng.lookahead_len, 0);
    let cfg = Config::default();
    // Run loud material through first, so stale samples would be visible.
    for _ in 0..8 {
        process_one(&mut eng, &cfg, &[1_500_000, -1_500_000]);
    }
    // 10.1 samples of lookahead: latency is ceil(10.1 / 2) == 6.
    let lat = eng.update_lookahead(10_100_000);
    assert_eq!(lat, Some(6));
    assert_eq!(eng.lookahead_len, 11);
    for ch in 0..2 {
        let l = &eng.limiters.limiters[ch];
        assert_eq!(l.buffer.len(), 11);
        assert!(l.buffer.iter().all(|s| s.sample == 0 && s.db == -100_000_000));
        assert_eq!(l.envelope, 0);
        assert!(matches!(l.state, EnvState::Off));
    }
    // The same length again is no change and reports nothing.
    assert_eq!(eng.update_lookahead(10_100_000), None);
}

#[test]
fn quiet_input_passes_through_delayed_by_the_lookahead() {
    let mut eng = Limit2zero::default();
    // 4 ms at 1 kHz: a lookahead of exactly 4 samples.
    eng.initialize(1, 1000, 4 * ONE);
    assert_eq!(eng.lookahead_len, 4);
    let cfg = Config::default();
    let inputs: Vec<i64> = (1..=40).map(|i| i * 1_000).collect();
    for (s, x) in inputs.iter().enumerate() {
        let out = process_one(&mut eng, &cfg, &[*x]);
        // The delay line length never changes: the FIFO invariant.
        assert_eq!(eng.limiters.limiters[0].buffer.len(), 4);
        if s < 4 {
            assert_eq!(out[0], 0, "priming silence expected at sample {s}");
        } else {
            assert_eq!(out[0], inputs[s - 4], "wrong delayed sample at {s}");
        }
        assert_eq!(eng.limiters.limiters[0].envelope, 0);
    }
}

#[test]
fn every_output_respects_the_ceiling_under_a_hostile_block() {
    let mut eng = Limit2zero::default();
    // One third of a millisecond at 48 kHz: 16 samples of lookahead.
    eng.initialize(2, 48000, 333_333);
    assert_eq!(eng.lookahead_len, 16);
    let mut cfg = Config::default();
    cfg.drive = 3 * ONE;
    cfg.hold_len = 3 * ONE;
    cfg.release_len = 20 * ONE;
    cfg.stereo_link = HALF;
    cfg.attack_amt = 2 * ONE;
    cfg.trim = -500_000;
    cfg.compensate = true;
    cfg.lookahead_accuracy = 4;
    let n = 256usize;
    let left: Vec<i64> = (0..n)
        .map(|s| {
            let ramp = (s as i64 % 64) * 40_000 - 1_200_000;
            if s % 17 == 0 { 2_500_000 } else { ramp }
        })
        .collect();
    let right: Vec<i64> = (0..n)
        .map(|s| {
            let saw = 1_800_000 - (s as i64 % 48) * 70_000;
            if s % 23 == 0 { -2_200_000 } else { saw }
        })
        .collect();
    let mut buf = vec![left, right];
    eng.process(&mut buf, &cfg);
    for ch in 0..2 {
        assert_eq!(buf[ch].len(), n);
        for s in 0..n {
            assert!(
                buf[ch][s].unsigned_abs() <= ONE,
                "ceiling broken at channel {ch}, sample {s}: {}",
                buf[ch][s]
            );
        }
        assert_eq!(eng.limiters.limiters[ch].buffer.len(), 16);
    }
}

#[test]
fn unlinked_channels_each_apply_their_own_reduction() {
    let cfg = Config::default();
    let atk = build_envelope(&cfg.attack_shape);
    let rel = build_envelope(&cfg.release_shape);
    let loud = drive_sample(1_995_262, ONE);
    let quiet = drive_sample(500_000, ONE);
    let mut lb = LimiterBuffer::new(2, 0);
    let outs = lb.process_frame(&vec![loud, quiet], &cfg, &atk, &rel, 0, true, ONE, 0);
    // The quiet channel's own envelope is zero: it passes unchanged.
    assert_eq!(outs[1], 500_000);
    assert!(outs[0] <= ONE as i64 && outs[0] >= 950_000);
}

#[test]
fn fully_linked_channels_share_the_deepest_reduction() {
    let mut cfg = Config::default();
    cfg.stereo_link = ONE;
    let atk = build_envelope(&cfg.attack_shape);
    let rel = build_envelope(&cfg.release_shape);
    let loud = drive_sample(1_995_262, ONE);
    let quiet = drive_sample(500_000, ONE);
    let mut lb = LimiterBuffer::new(2, 0);
    let outs = lb.process_frame(&vec![loud, quiet], &cfg, &atk, &rel, 0, true, ONE, 0);
    let deepest = overshoot_db(1_995_262);
    let expected = mul_fp(500_000, reduction_gain(deepest)) as i64;
    assert_eq!(outs[1], expected, "quiet channel must duck by the loud channel's reduction");
}

#[test]
fn composed_envelope_fixes_its_endpoints() {
    let mut shape = limit2zero::limiter::CurveParams::default();
    shape.center = 300_000;
    shape.smooth_amount = 400_000;
    shape.linearity = 250_000;
    shape.polarity_in = 0;
    shape.polarity_out = 700_000;
    shape.power_in = 4 * ONE;
    shape.power_out = ONE / 2;
    let env = build_envelope(&shape);
    assert_eq!(env.process(0), 0);
    assert_eq!(env.process(ONE), ONE);
}

#[test]
fn out_of_range_channel_requests_are_clamped_to_the_last_channel() {
    let lb = LimiterBuffer::new(2, 3);
    assert_eq!(lb.channel(0).buffer.len(), 3);
    assert_eq!(lb.channel(5).buffer.len(), 3);
    assert!(std::ptr::eq(lb.channel(1), lb.channel(99)));
}

#[test]
fn batch_peak_scan_returns_the_steepest_weighted_reduction() {
    let dbs: Vec<i64> = vec![1_000_000, 0, 3_000_000];
    // Weights over a window of 3: 1e6 * 1/3, nothing, 3e6 * 3/3.
    assert_eq!(simd_max_reduction::<4>(&dbs, 3), -3_000_000);
    let none: Vec<i64> = vec![0, -5_000_000, 0];
    assert_eq!(simd_max_reduction::<2>(&none, 3), 0);
    let first: Vec<i64> = vec![2_400_000, 0, 0, 0];
    assert_eq!(simd_max_reduction::<2>(&first, 4), -600_000);
}
