//! The limiting engine: per-channel lookahead delay lines with a peak
//! model, an attack/hold/release envelope state machine shaped by easing
//! curves, a stereo link stage and a final gain stage.
//!
//! All amplitudes are fixed-point micro-units on a linear scale; all
//! loudness values are micro-decibels relative to the ceiling, produced by
//! the exact adjoint conversion in `levels`. The headline theorem is the
//! ceiling guarantee: every sample the engine emits has magnitude at most
//! `ONE`.

use std::collections::VecDeque;
use vstd::prelude::*;

use crate::easing::{
    clamp0, CURVE_MAX, Ease, EaseIn, EaseOut, Linear, LinearBlend, POW_MAX, SCurve,
};
use crate::fixed::{
    abs_int, fpdiv, fplerp, fpmul, fpmul_signed, lemma_fpmul_shrinks, lerp_fp, mul_fp,
    mul_fp_signed, sqrt_fp, HALF, ONE,
};
use crate::levels::{
    gain_of_reduction, is_headroom_of, is_overshoot_of, lemma_headroom_unique,
    lemma_overshoot_unique, overshoot_db, headroom_db, reduces_to_ceiling, reduction_gain,
    spec_level, AMP_CAP, DB_FLOOR, DB_SEARCH_MAX,
};

verus! {

/// One quarter, in micro-units.
pub const QUARTER: u64 = 250_000;

/// Largest input sample magnitude the engine accepts (one thousand full
/// scale, +60 dB).
pub const INPUT_CAP: u64 = 1_000_000_000;

/// Largest drive gain (one thousand, +60 dB) in micro-units.
pub const DRIVE_MAX: u64 = 1_000_000_000;

/// Largest attack amount, in micro-units.
pub const ATTACK_MAX: u64 = 5_000_000;

/// Largest hold or release length, in micro-samples (one million samples).
pub const LEN_MAX: u64 = 1_000_000_000_000;

/// Largest lookahead length, in whole samples.
pub const LA_MAX: u64 = 1_000_000;

/// Largest magnitude an envelope value can reach, in micro-decibels.
pub const ENV_CAP: u64 = 100_000_000_000;

/// A buffered sample: the driven amplitude and its loudness in
/// micro-decibels over the ceiling.
#[derive(Debug, Clone, Copy, PartialEq, Eq, Structural)]
pub struct SampleDB {
    pub sample: i64,
    pub db: i64,
}

impl SampleDB {
    /// A sample is a peak when its loudness exceeds the ceiling.
    pub open spec fn spec_peak(&self) -> bool {
        self.db > 0
    }

    /// Whether this sample is over the ceiling.
    pub fn peak(&self) -> (r: bool)
        ensures
            r == self.spec_peak(),
    {
        self.db > 0
    }

    /// Value bounds a buffered sample always meets.
    pub open spec fn wf(&self) -> bool {
        &&& abs_int(self.sample as int) <= AMP_CAP
        &&& -(DB_FLOOR as int) <= self.db <= DB_SEARCH_MAX
        &&& self.db > 0 ==> reduces_to_ceiling(abs_int(self.sample as int), self.db as int)
        &&& self.db <= 0 ==> abs_int(self.sample as int) <= ONE
    }
}

/// The sample every buffer is primed with: digital silence at the loudness
/// floor.
pub open spec fn silence() -> SampleDB {
    SampleDB { sample: 0, db: (-(DB_FLOOR as int)) as i64 }
}

/// The envelope state machine: no reduction, a frozen plateau, or a decay
/// back toward zero. The payload counts elapsed micro-samples.
#[derive(Debug, Clone, Copy, PartialEq, Eq, Structural)]
pub enum EnvState {
    Hold(u64),
    Release(u64),
    Off,
}

/// Whether a hold or release length rounds to at least one sample.
pub open spec fn needs_sample(len: int) -> bool {
    len >= HALF
}

/// The state entered when the envelope is (re)triggered: hold if a hold
/// phase is configured, else release, else off.
pub open spec fn entry_state(hold_len: int, release_len: int) -> EnvState {
    if needs_sample(hold_len) {
        EnvState::Hold(0)
    } else if needs_sample(release_len) {
        EnvState::Release(0)
    } else {
        EnvState::Off
    }
}

/// One channel of the limiter: the delay line, the envelope scalars, and
/// the cached strongest peak used between rescans.
#[derive(Debug)]
pub struct Limiter {
    pub buffer: VecDeque<SampleDB>,
    pub state: EnvState,
    pub target: i64,
    pub hold: i64,
    pub envelope: i64,
    pub peak_db: i64,
    pub peak_position: u64,
    pub peak_lerp_len: u64,
}

impl Limiter {
    /// Well-formedness: the delay line holds exactly the configured number
    /// of samples, every envelope scalar is a bounded non-positive
    /// reduction, and the peak cache is bounded.
    pub open spec fn wf(&self, la_len: int) -> bool {
        &&& self.buffer@.len() == la_len
        &&& forall|i: int| 0 <= i < self.buffer@.len() ==> (#[trigger] self.buffer@[i]).wf()
        &&& -(ENV_CAP as int) <= self.envelope <= 0
        &&& -(ENV_CAP as int) <= self.target <= 0
        &&& -(ENV_CAP as int) <= self.hold <= 0
        &&& 0 <= self.peak_db <= DB_SEARCH_MAX
        &&& self.peak_position <= (LA_MAX + 2) * ONE
        &&& self.peak_lerp_len <= LA_MAX * ONE
        &&& match self.state {
            EnvState::Hold(e) => e <= LEN_MAX + 2 * ONE,
            EnvState::Release(e) => e <= LEN_MAX + 2 * ONE,
            EnvState::Off => true,
        }
    }

    /// A freshly primed channel: silence in the delay line, the envelope
    /// at rest, the peak cache parked past its window.
    pub open spec fn pristine(&self, la_len: int) -> bool {
        &&& self.buffer@ == Seq::new(la_len as nat, |i: int| silence())
        &&& self.state == EnvState::Off
        &&& self.target == 0
        &&& self.hold == 0
        &&& self.envelope == 0
        &&& self.peak_db == 0
        &&& self.peak_position == 2 * ONE
        &&& self.peak_lerp_len == ONE
    }

    /// Build one freshly primed channel.
    pub fn primed(sample_len: usize) -> (r: Limiter)
        requires
            sample_len <= LA_MAX,
        ensures
            r.pristine(sample_len as int),
            r.wf(sample_len as int),
    {
        let mut buffer: VecDeque<SampleDB> = VecDeque::with_capacity(sample_len);
        let mut i: usize = 0;
        while i < sample_len
            invariant
                i <= sample_len,
                buffer@ == Seq::new(i as nat, |j: int| silence()),
            decreases sample_len - i,
        {
            buffer.push_back(SampleDB { sample: 0, db: -(DB_FLOOR as i64) });
            i = i + 1;
            proof {
                assert(buffer@ =~= Seq::new(i as nat, |j: int| silence()));
            }
        }
        Limiter {
            buffer,
            state: EnvState::Off,
            target: 0,
            hold: 0,
            envelope: 0,
            peak_db: 0,
            peak_position: 2 * ONE,
            peak_lerp_len: ONE,
        }
    }
}

/// The flat set of shape parameters an envelope curve is built from.
#[derive(Debug, Clone, Copy)]
pub struct CurveParams {
    pub linearity: u64,
    pub center: u64,
    pub smooth_amount: u64,
    pub polarity_in: u64,
    pub polarity_out: u64,
    pub power_in: u64,
    pub power_out: u64,
    pub sm_polarity_in: u64,
    pub sm_polarity_out: u64,
    pub sm_power_in: u64,
    pub sm_power_out: u64,
}

impl CurveParams {
    /// Parameter ranges: fractions in `[0, ONE]`, powers in the accepted
    /// band.
    pub open spec fn wf(&self) -> bool {
        &&& self.linearity <= ONE
        &&& self.center <= ONE
        &&& self.smooth_amount <= ONE
        &&& 1 <= self.power_in <= POW_MAX
        &&& 1 <= self.power_out <= POW_MAX
        &&& 1 <= self.sm_power_in <= POW_MAX
        &&& 1 <= self.sm_power_out <= POW_MAX
    }
}

/// The neutral shape: fully linear, centered, unsmoothed, quadratic
/// polarity-one easings.
pub open spec fn neutral_shape() -> CurveParams {
    CurveParams {
        linearity: ONE,
        center: HALF,
        smooth_amount: 0,
        polarity_in: ONE,
        polarity_out: ONE,
        power_in: 2_000_000,
        power_out: 2_000_000,
        sm_polarity_in: ONE,
        sm_polarity_out: ONE,
        sm_power_in: 2_000_000,
        sm_power_out: 2_000_000,
    }
}

impl Default for CurveParams {
    /// The neutral shape.
    fn default() -> (r: Self)
        ensures
            r.wf(),
            r == neutral_shape(),
    {
        CurveParams {
            linearity: ONE,
            center: HALF,
            smooth_amount: 0,
            polarity_in: ONE,
            polarity_out: ONE,
            power_in: 2 * ONE,
            power_out: 2 * ONE,
            sm_polarity_in: ONE,
            sm_polarity_out: ONE,
            sm_power_in: 2 * ONE,
            sm_power_out: 2 * ONE,
        }
    }
}

/// The composed envelope curve: a blend toward linear of an S-curve whose
/// smoothing is itself S-shaped.
pub type Envelope = LinearBlend<SCurve<SCurve<Linear>>>;

/// The envelope that a flat parameter set composes: low linearity raises
/// the default smoothing of the outer S-curve and of its nested smoother.
pub open spec fn spec_build_envelope(p: CurveParams) -> Envelope {
    let lin2 = fpmul(p.linearity as int, p.linearity as int);
    LinearBlend {
        curve: SCurve {
            ease_in: EaseIn { polarity: p.polarity_in, power: p.power_in },
            ease_out: EaseOut { polarity: p.polarity_out, power: p.power_out },
            center: p.center,
            smoothing: (p.smooth_amount + fpmul((ONE as int) - p.smooth_amount, lin2)) as u64,
            sm_ease: SCurve {
                ease_in: EaseIn { polarity: p.sm_polarity_in, power: p.sm_power_in },
                ease_out: EaseOut { polarity: p.sm_polarity_out, power: p.sm_power_out },
                center: HALF,
                smoothing: fpmul(lin2, QUARTER as int) as u64,
                sm_ease: Linear,
            },
        },
        linearity: p.linearity,
    }
}

/// Compose the attack or release envelope from a flat parameter set.
pub fn build_envelope(p: &CurveParams) -> (env: Envelope)
    requires
        p.wf(),
    ensures
        env == spec_build_envelope(*p),
        env.wf(),
{
    let lin2 = mul_fp(p.linearity, p.linearity);
    proof {
        lemma_fpmul_shrinks(p.linearity as int, p.linearity as int);
        lemma_fpmul_shrinks((ONE - p.smooth_amount) as int, lin2 as int);
        lemma_fpmul_shrinks(QUARTER as int, lin2 as int);
        vstd::arithmetic::mul::lemma_mul_is_commutative(lin2 as int, QUARTER as int);
    }
    let linear_smoothing_factor = mul_fp(ONE - p.smooth_amount, lin2);
    LinearBlend::new(
        SCurve::new(
            EaseIn::new(p.polarity_in, p.power_in),
            EaseOut::new(p.polarity_out, p.power_out),
            p.center,
            p.smooth_amount + linear_smoothing_factor,
            SCurve::new(
                EaseIn::new(p.sm_polarity_in, p.sm_power_in),
                EaseOut::new(p.sm_polarity_out, p.sm_power_out),
                HALF,
                mul_fp(lin2, QUARTER),
                Linear,
            ),
        ),
        p.linearity,
    )
}

/// The composed envelope fixes its endpoints: zero shaping at zero
/// progress and full shaping at the end of the window, for every
/// parameter set whose center keeps both regions inside the unit
/// interval.
pub proof fn lemma_envelope_boundaries(p: CurveParams)
    requires
        p.wf(),
        1 <= p.center,
        p.center <= ONE - 1,
    ensures
        spec_build_envelope(p).spec_process(0) == 0,
        spec_build_envelope(p).spec_process(ONE as int) == ONE,
{
    let env = spec_build_envelope(p);
    let c = env.curve;
    let lin2 = fpmul(p.linearity as int, p.linearity as int);
    lemma_fpmul_shrinks(p.linearity as int, p.linearity as int);
    lemma_fpmul_shrinks((ONE as int) - p.smooth_amount, lin2);
    lemma_fpmul_shrinks(lin2, QUARTER as int);
    assert(c.wf());
    let start = crate::easing::scurve_start(c.center as int, c.smoothing as int);
    let end = crate::easing::scurve_end(c.center as int, c.smoothing as int);
    // The region bounds stay inside the unit interval.
    lemma_fpmul_shrinks(c.center as int, c.smoothing as int);
    lemma_fpmul_shrinks((ONE as int) - c.center, c.smoothing as int);
    assert(0 <= start);
    assert(end <= ONE);
    // At zero progress only the in region is active and the ease-in
    // starts at zero.
    crate::easing::lemma_scurve_agrees_in_region(&c, 0);
    assert(fpdiv(0, end) == 0) by {
        vstd::arithmetic::mul::lemma_mul_basics(ONE as int);
        vstd::arithmetic::div_mod::lemma_div_of0(end);
    }
    crate::easing::lemma_ease_in_boundaries(c.ease_in.polarity as int, c.ease_in.power as int);
    assert(c.in_value(0) == 0) by {
        vstd::arithmetic::mul::lemma_mul_basics(end);
        vstd::arithmetic::div_mod::lemma_div_of0(ONE as int);
    }
    // At full progress only the out region is active and the ease-out
    // ends at one.
    crate::easing::lemma_scurve_agrees_out_region(&c, ONE as int);
    let out_len = (ONE as int) - start;
    assert(fpdiv(out_len, out_len) == ONE) by {
        vstd::arithmetic::div_mod::lemma_div_by_multiple(ONE as int, out_len);
        vstd::arithmetic::mul::lemma_mul_is_commutative(out_len, ONE as int);
    }
    crate::easing::lemma_ease_out_boundaries(c.ease_out.polarity as int, c.ease_out.power as int);
    assert(c.out_value(ONE as int) == ONE) by {
        vstd::arithmetic::div_mod::lemma_div_multiples_vanish(out_len, ONE as int);
        vstd::arithmetic::mul::lemma_mul_is_commutative(out_len, ONE as int);
    }
    // The linear blend keeps both fixed points.
    crate::fixed::lemma_fplerp_ends(0, 0);
    crate::fixed::lemma_fplerp_ends(ONE as int, ONE as int);
    assert(fplerp(0, 0, env.linearity as int) == 0) by {
        vstd::arithmetic::mul::lemma_mul_basics(env.linearity as int);
        vstd::arithmetic::div_mod::lemma_div_of0(ONE as int);
    }
    assert(fplerp(ONE as int, ONE as int, env.linearity as int) == ONE) by {
        vstd::arithmetic::mul::lemma_mul_basics(env.linearity as int);
        vstd::arithmetic::div_mod::lemma_div_of0(ONE as int);
    }
}

/// The configuration surface read once per processed block.
#[derive(Debug, Clone, Copy)]
pub struct Config {
    pub drive: u64,
    pub trim: i64,
    pub lookahead_accuracy: u64,
    pub attack_amt: u64,
    pub attack_shape: CurveParams,
    pub hold_len: u64,
    pub release_len: u64,
    pub release_amt: u64,
    pub release_shape: CurveParams,
    pub stereo_link: u64,
    pub compensate: bool,
}

impl Config {
    /// The parameter ranges of the configuration surface.
    pub open spec fn wf(&self) -> bool {
        &&& (ONE as int) <= self.drive <= DRIVE_MAX
        &&& -(ONE as int) <= self.trim <= 0
        &&& 1 <= self.lookahead_accuracy <= 16
        &&& self.attack_amt <= ATTACK_MAX
        &&& self.attack_shape.wf()
        &&& self.hold_len <= LEN_MAX
        &&& self.release_len <= LEN_MAX
        &&& self.release_amt <= ONE
        &&& self.release_shape.wf()
        &&& self.stereo_link <= ONE
    }
}

impl Default for Config {
    /// The defaults: unity drive, no trim, rescan every sample, unity
    /// attack, neutral shapes, no hold or release, full hold amount,
    /// unlinked channels, no compensation.
    fn default() -> (r: Self)
        ensures
            r.wf(),
            r.drive == ONE,
            r.trim == 0,
            r.lookahead_accuracy == 1,
            r.attack_amt == ONE,
            r.hold_len == 0,
            r.release_len == 0,
            r.release_amt == ONE,
            r.stereo_link == 0,
            !r.compensate,
            r.attack_shape == neutral_shape(),
            r.release_shape == neutral_shape(),
    {
        Config {
            drive: ONE,
            trim: 0,
            lookahead_accuracy: 1,
            attack_amt: ONE,
            attack_shape: CurveParams::default(),
            hold_len: 0,
            release_len: 0,
            release_amt: ONE,
            release_shape: CurveParams::default(),
            stereo_link: 0,
            compensate: false,
        }
    }
}

/// The driven sample an input produces: the amplitude scaled by the drive
/// gain, and its loudness on the exact adjoint scale.
pub open spec fn spec_driven(input: int, drive: int) -> SampleDB {
    let s = fpmul_signed(input, drive);
    SampleDB { sample: s as i64, db: spec_level(abs_int(s)) as i64 }
}

/// Apply the drive gain to an input sample and measure its loudness. The
/// loudness is the exact adjoint of the gain curve: positive only over the
/// ceiling, and then the least reduction that brings the sample back under.
pub fn drive_sample(input: i64, drive: u64) -> (ns: SampleDB)
    requires
        abs_int(input as int) <= INPUT_CAP,
        drive <= DRIVE_MAX,
    ensures
        ns == spec_driven(input as int, drive as int),
        ns.sample == fpmul_signed(input as int, drive as int),
        ns.wf(),
        abs_int(ns.sample as int) > ONE ==> {
            &&& ns.db > 0
            &&& reduces_to_ceiling(abs_int(ns.sample as int), ns.db as int)
            &&& !reduces_to_ceiling(abs_int(ns.sample as int), ns.db as int - 1)
        },
        abs_int(ns.sample as int) <= ONE ==> ns.db <= 0,
        abs_int(ns.sample as int) == ONE ==> ns.db == 0,
        abs_int(ns.sample as int) < ONE ==> ns.db < 0,
{
    let driven = mul_fp_signed(input, drive as i64);
    proof {
        crate::fixed::lemma_fpmul_bound(
            abs_int(input as int),
            drive as int,
            INPUT_CAP as int,
            DRIVE_MAX as int,
        );
        assert((INPUT_CAP as int) * (DRIVE_MAX as int) == (AMP_CAP as int) * (ONE as int))
            by (nonlinear_arith);
        vstd::arithmetic::div_mod::lemma_div_by_multiple(AMP_CAP as int, ONE as int);
    }
    let mag: u64 = if driven >= 0 {
        driven as u64
    } else {
        (-driven) as u64
    };
    let db: i64 = if mag > ONE {
        let r = overshoot_db(mag);
        proof {
            assert(is_overshoot_of(mag as int, r as int));
            let c = choose|x: int| is_overshoot_of(mag as int, x);
            lemma_overshoot_unique(mag as int, c, r as int);
        }
        r as i64
    } else {
        let h = headroom_db(mag);
        proof {
            if mag < ONE {
                let c = choose|x: int| is_headroom_of(mag as int, x);
                lemma_headroom_unique(mag as int, c, h as int);
            }
        }
        -(h as i64)
    };
    SampleDB { sample: driven, db }
}

/// The envelope scalars and peak cache of one channel: everything but the
/// delay line, as one copyable value the step function can be stated over.
#[derive(Debug, Clone, Copy, PartialEq, Eq, Structural)]
pub struct EnvScalars {
    pub state: EnvState,
    pub target: i64,
    pub hold: i64,
    pub envelope: i64,
    pub peak_db: i64,
    pub peak_position: u64,
    pub peak_lerp_len: u64,
}

impl Limiter {
    /// The scalar part of this channel's state.
    pub open spec fn scalars(&self) -> EnvScalars {
        EnvScalars {
            state: self.state,
            target: self.target,
            hold: self.hold,
            envelope: self.envelope,
            peak_db: self.peak_db,
            peak_position: self.peak_position,
            peak_lerp_len: self.peak_lerp_len,
        }
    }
}

/// The envelope state tick, run first each sample: a hold counts time at a
/// frozen value, a release relaxes toward zero along the release curve,
/// and an idle envelope stays zeroed.
pub open spec fn spec_env_tick(
    sc: EnvScalars,
    hold_len: int,
    release_len: int,
    rel_env: Envelope,
) -> EnvScalars {
    match sc.state {
        EnvState::Hold(e0) => {
            let tg = if e0 == 0 {
                sc.hold
            } else {
                sc.target
            };
            let en = if e0 == 0 {
                sc.hold
            } else {
                sc.envelope
            };
            let e = e0 + ONE;
            let st = if e >= hold_len + ONE {
                if needs_sample(release_len) {
                    EnvState::Release(0)
                } else {
                    EnvState::Off
                }
            } else {
                EnvState::Hold(e as u64)
            };
            EnvScalars { state: st, target: tg, envelope: en, ..sc }
        },
        EnvState::Release(e0) => {
            let tg = if e0 == 0 {
                sc.hold
            } else {
                sc.target
            };
            let e = e0 + ONE;
            let t = fpdiv(e, release_len + ONE);
            let tc = if t > ONE {
                ONE as int
            } else {
                t
            };
            let cv = rel_env.spec_process(tc);
            let cvc = clamp0(
                if cv > ONE {
                    ONE as int
                } else {
                    cv
                },
            );
            let en = fplerp(tg as int, 0, cvc);
            let st = if e >= release_len + ONE {
                EnvState::Off
            } else {
                EnvState::Release(e as u64)
            };
            EnvScalars { state: st, target: tg, envelope: en as i64, ..sc }
        },
        EnvState::Off => EnvScalars { envelope: 0, target: 0, hold: 0, ..sc },
    }
}

/// The weight by which a buffered peak competes for the attack envelope:
/// its age times its loudness, so that loud peaks about to leave the
/// window win. Non-peaks never compete.
pub open spec fn peak_factor(s: Seq<SampleDB>, j: int) -> int {
    if s[j].db > 0 {
        (s.len() - 1 - j) * s[j].db
    } else {
        -1
    }
}

/// The index of the strongest pending peak among the first `n` buffered
/// samples, oldest first; the oldest wins ties.
pub open spec fn best_peak_idx(s: Seq<SampleDB>, n: int) -> int
    decreases n,
{
    if n <= 1 {
        0
    } else {
        let b = best_peak_idx(s, n - 1);
        if peak_factor(s, n - 1) > peak_factor(s, b) {
            n - 1
        } else {
            b
        }
    }
}

/// The peak the scan selects carries the largest factor of any buffered
/// sample: no louder-and-older peak is ever passed over.
pub proof fn lemma_best_peak_maximal(s: Seq<SampleDB>, n: int, j: int)
    requires
        0 <= j < n,
    ensures
        0 <= best_peak_idx(s, n) < n,
        peak_factor(s, best_peak_idx(s, n)) >= peak_factor(s, j),
    decreases n,
{
    if n > 1 {
        if j < n - 1 {
            lemma_best_peak_maximal(s, n - 1, j);
        } else {
            lemma_best_peak_maximal(s, n - 1, 0);
        }
    }
}

/// The normalized window position of a peak of the given age.
pub open spec fn window_progress(age: int, la_len: int) -> int {
    ((age + 1) * (ONE as int)) / (la_len + 1)
}

/// The attack-envelope value a peak proposes: its loudness scaled by the
/// attack curve at its window position and by the attack amount, negated
/// into a reduction.
pub open spec fn attack_candidate(db: int, curve_val: int, attack_amt: int) -> int {
    -fpmul(fpmul(db, curve_val), attack_amt)
}

/// A rescan of the delay line: select the strongest pending peak, refresh
/// the peak cache from it, and propose its attack candidate.
pub open spec fn spec_scan(
    sc: EnvScalars,
    q: Seq<SampleDB>,
    atk_env: Envelope,
    la_len: int,
    attack_amt: int,
) -> (EnvScalars, int) {
    let b = best_peak_idx(q, q.len() as int);
    if q.len() > 0 && q[b].db > 0 {
        let age = q.len() - 1 - b;
        let t = window_progress(age, la_len);
        let cand = attack_candidate(q[b].db as int, atk_env.spec_process(t), attack_amt);
        (
            EnvScalars {
                peak_db: q[b].db,
                peak_position: (age * ONE) as u64,
                peak_lerp_len: (la_len * ONE) as u64,
                ..sc
            },
            cand,
        )
    } else {
        (sc, 0)
    }
}

/// Between rescans the cached peak ages by one sample and proposes its
/// candidate from its new window position, until it leaves the window.
pub open spec fn spec_cache_read(sc: EnvScalars, atk_env: Envelope, attack_amt: int) -> (
    EnvScalars,
    int,
) {
    let pos = sc.peak_position + ONE;
    let progress = fpdiv(pos + ONE, sc.peak_lerp_len + ONE);
    if progress > ONE {
        (sc, 0)
    } else {
        let cand = attack_candidate(sc.peak_db as int, atk_env.spec_process(progress), attack_amt);
        (EnvScalars { peak_position: pos as u64, ..sc }, cand)
    }
}

/// A candidate deeper than the current envelope retriggers the attack:
/// the envelope adopts it, the hold value takes the configured scale, and
/// the state machine re-enters hold, release or off.
pub open spec fn spec_retrigger(
    sc: EnvScalars,
    cand: int,
    hold_len: int,
    release_len: int,
    hold_scale: int,
) -> EnvScalars {
    if cand < sc.envelope {
        EnvScalars {
            target: cand as i64,
            hold: fpmul_signed(cand, hold_scale) as i64,
            envelope: cand as i64,
            state: entry_state(hold_len, release_len),
            ..sc
        }
    } else {
        sc
    }
}

/// The last line of defense: if the envelope under-reduces the delayed
/// sample, force the reduction that pins it exactly to the ceiling.
pub open spec fn spec_safety_clamp(
    sc: EnvScalars,
    delayed: SampleDB,
    hold_len: int,
    release_len: int,
    hold_scale: int,
) -> EnvScalars {
    if delayed.db + sc.envelope > 0 {
        EnvScalars {
            target: (-(delayed.db as int)) as i64,
            hold: fpmul_signed(-(delayed.db as int), hold_scale) as i64,
            envelope: (-(delayed.db as int)) as i64,
            state: entry_state(hold_len, release_len),
            ..sc
        }
    } else {
        sc
    }
}

/// One processed sample of one channel, after the new sample has been
/// pushed: tick the state machine, evaluate the strongest pending peak (by
/// rescan or from the cache), maybe retrigger, then clamp against the
/// sample about to leave the window.
#[verifier::opaque]
pub open spec fn spec_step(
    sc: EnvScalars,
    q: Seq<SampleDB>,
    cfg: Config,
    atk_env: Envelope,
    rel_env: Envelope,
    la_len: int,
    do_scan: bool,
    hold_scale: int,
) -> EnvScalars {
    let s1 = spec_env_tick(sc, cfg.hold_len as int, cfg.release_len as int, rel_env);
    let sr = if do_scan && la_len >= 1 {
        spec_scan(s1, q, atk_env, la_len, cfg.attack_amt as int)
    } else {
        spec_cache_read(s1, atk_env, cfg.attack_amt as int)
    };
    let s3 = spec_retrigger(
        sr.0,
        sr.1,
        cfg.hold_len as int,
        cfg.release_len as int,
        hold_scale,
    );
    spec_safety_clamp(s3, q[0], cfg.hold_len as int, cfg.release_len as int, hold_scale)
}

impl Limiter {
    /// Advance the envelope state machine by one sample: a hold counts
    /// time at its frozen value, a release relaxes toward zero along the
    /// release curve, an idle envelope stays zeroed.
    fn env_tick(&mut self, cfg: &Config, rel_env: &Envelope)
        requires
            cfg.wf(),
            rel_env.wf(),
            -(ENV_CAP as int) <= old(self).envelope <= 0,
            -(ENV_CAP as int) <= old(self).target <= 0,
            -(ENV_CAP as int) <= old(self).hold <= 0,
            match old(self).state {
                EnvState::Hold(e) => e <= LEN_MAX + 2 * ONE,
                EnvState::Release(e) => e <= LEN_MAX + 2 * ONE,
                EnvState::Off => true,
            },
        ensures
            final(self).scalars() == spec_env_tick(
                old(self).scalars(),
                cfg.hold_len as int,
                cfg.release_len as int,
                *rel_env,
            ),
            final(self).buffer == old(self).buffer,
            -(ENV_CAP as int) <= final(self).envelope <= 0,
            -(ENV_CAP as int) <= final(self).target <= 0,
            -(ENV_CAP as int) <= final(self).hold <= 0,
            final(self).peak_db == old(self).peak_db,
            final(self).peak_position == old(self).peak_position,
            final(self).peak_lerp_len == old(self).peak_lerp_len,
            match final(self).state {
                EnvState::Hold(e) => e <= LEN_MAX + 2 * ONE,
                EnvState::Release(e) => e <= LEN_MAX + 2 * ONE,
                EnvState::Off => true,
            },
    {
        match self.state {
            EnvState::Hold(e0) => {
                if e0 == 0 {
                    self.target = self.hold;
                    self.envelope = self.hold;
                }
                let e = e0 + ONE;
                if e >= cfg.hold_len + ONE {
                    if cfg.release_len >= HALF {
                        self.state = EnvState::Release(0);
                    } else {
                        self.state = EnvState::Off;
                    }
                } else {
                    self.state = EnvState::Hold(e);
                }
            },
            EnvState::Release(e0) => {
                if e0 == 0 {
                    self.target = self.hold;
                    self.envelope = self.hold;
                }
                let e = e0 + ONE;
                let t = crate::fixed::div_fp(e, cfg.release_len + ONE);
                let tc = if t > ONE {
                    ONE
                } else {
                    t
                };
                let cv = rel_env.process(tc);
                let cvc = if cv > ONE {
                    ONE
                } else {
                    cv
                };
                let en = lerp_fp(self.target, 0, cvc);
                self.envelope = en;
                if e >= cfg.release_len + ONE {
                    self.state = EnvState::Off;
                } else {
                    self.state = EnvState::Release(e);
                }
            },
            EnvState::Off => {
                if self.envelope != 0 || self.target != 0 || self.hold != 0 {
                    self.envelope = 0;
                    self.target = 0;
                    self.hold = 0;
                }
            },
        }
    }

    /// Rescan the delay line for the strongest pending peak and refresh
    /// the peak cache from it; returns its attack candidate, or zero when
    /// nothing in the window is over the ceiling.
    fn scan_candidate(&mut self, cfg: &Config, atk_env: &Envelope, la_len: u64) -> (cand: i64)
        requires
            cfg.wf(),
            atk_env.wf(),
            1 <= la_len <= LA_MAX,
            old(self).buffer@.len() == la_len + 1,
            forall|i: int|
                0 <= i < old(self).buffer@.len() ==> (#[trigger] old(self).buffer@[i]).wf(),
            0 <= old(self).peak_db <= DB_SEARCH_MAX,
            old(self).peak_position <= (LA_MAX + 2) * ONE,
            old(self).peak_lerp_len <= LA_MAX * ONE,
        ensures
            (final(self).scalars(), cand as int) == spec_scan(
                old(self).scalars(),
                old(self).buffer@,
                *atk_env,
                la_len as int,
                cfg.attack_amt as int,
            ),
            final(self).buffer == old(self).buffer,
            final(self).state == old(self).state,
            final(self).target == old(self).target,
            final(self).hold == old(self).hold,
            final(self).envelope == old(self).envelope,
            -(ENV_CAP as int) <= cand <= 0,
            0 <= final(self).peak_db <= DB_SEARCH_MAX,
            final(self).peak_position <= (LA_MAX + 2) * ONE,
            final(self).peak_lerp_len <= LA_MAX * ONE,
    {
        let ghost q = self.buffer@;
        let n = self.buffer.len();
        let s0 = self.buffer[0];
        let mut b: usize = 0;
        let mut bf: i64 = if s0.db > 0 {
            proof {
                vstd::arithmetic::mul::lemma_mul_upper_bound(
                    n as int - 1,
                    LA_MAX as int,
                    s0.db as int,
                    DB_SEARCH_MAX as int,
                );
                vstd::arithmetic::mul::lemma_mul_nonnegative(n as int - 1, s0.db as int);
            }
            ((n - 1) as i64) * s0.db
        } else {
            -1
        };
        let mut j: usize = 1;
        while j < n
            invariant
                1 <= j <= n,
                (b as int) < j,
                n == q.len(),
                n <= LA_MAX + 1,
                self.buffer@ == q,
                forall|i: int| 0 <= i < q.len() ==> (#[trigger] q[i]).wf(),
                b as int == best_peak_idx(q, j as int),
                bf == peak_factor(q, b as int),
            decreases n - j,
        {
            let sj = self.buffer[j];
            let fj: i64 = if sj.db > 0 {
                proof {
                    vstd::arithmetic::mul::lemma_mul_upper_bound(
                        n as int - 1 - j as int,
                        LA_MAX as int,
                        sj.db as int,
                        DB_SEARCH_MAX as int,
                    );
                    vstd::arithmetic::mul::lemma_mul_nonnegative(
                        n as int - 1 - j as int,
                        sj.db as int,
                    );
                }
                ((n - 1 - j) as i64) * sj.db
            } else {
                -1
            };
            if fj > bf {
                b = j;
                bf = fj;
            }
            j = j + 1;
        }
        let sb = self.buffer[b];
        if sb.db > 0 {
            let age = (n - 1 - b) as u64;
            proof {
                lemma_window_progress_bounds(age as int, la_len as int);
            }
            let t = ((age + 1) * ONE) / (la_len + 1);
            let cv = atk_env.process(t);
            let m1 = mul_fp(sb.db as u64, cv);
            proof {
                crate::fixed::lemma_fpmul_bound(
                    sb.db as int,
                    cv as int,
                    DB_SEARCH_MAX as int,
                    CURVE_MAX as int,
                );
                lemma_candidate_bound();
                crate::fixed::lemma_fpmul_bound(
                    m1 as int,
                    cfg.attack_amt as int,
                    3_000_000_000,
                    ATTACK_MAX as int,
                );
            }
            let m2 = mul_fp(m1, cfg.attack_amt);
            self.peak_db = sb.db;
            self.peak_position = age * ONE;
            self.peak_lerp_len = la_len * ONE;
            -(m2 as i64)
        } else {
            0
        }
    }

    /// Age the cached peak by one sample and return its attack candidate
    /// from its new window position, or zero once it has left the window.
    fn cached_candidate(&mut self, cfg: &Config, atk_env: &Envelope) -> (cand: i64)
        requires
            cfg.wf(),
            atk_env.wf(),
            0 <= old(self).peak_db <= DB_SEARCH_MAX,
            old(self).peak_position <= (LA_MAX + 2) * ONE,
            old(self).peak_lerp_len <= LA_MAX * ONE,
        ensures
            (final(self).scalars(), cand as int) == spec_cache_read(
                old(self).scalars(),
                *atk_env,
                cfg.attack_amt as int,
            ),
            final(self).buffer == old(self).buffer,
            final(self).state == old(self).state,
            final(self).target == old(self).target,
            final(self).hold == old(self).hold,
            final(self).envelope == old(self).envelope,
            final(self).peak_db == old(self).peak_db,
            final(self).peak_lerp_len == old(self).peak_lerp_len,
            -(ENV_CAP as int) <= cand <= 0,
            final(self).peak_position <= (LA_MAX + 2) * ONE,
    {
        let pos = self.peak_position + ONE;
        let progress = crate::fixed::div_fp(pos + ONE, self.peak_lerp_len + ONE);
        if progress <= ONE {
            proof {
                lemma_cache_position_bound(
                    pos as int,
                    self.peak_lerp_len as int,
                    progress as int,
                );
            }
            self.peak_position = pos;
            let cv = atk_env.process(progress);
            let m1 = mul_fp(self.peak_db as u64, cv);
            proof {
                crate::fixed::lemma_fpmul_bound(
                    self.peak_db as int,
                    cv as int,
                    DB_SEARCH_MAX as int,
                    CURVE_MAX as int,
                );
                lemma_candidate_bound();
                crate::fixed::lemma_fpmul_bound(
                    m1 as int,
                    cfg.attack_amt as int,
                    3_000_000_000,
                    ATTACK_MAX as int,
                );
            }
            let m2 = mul_fp(m1, cfg.attack_amt);
            -(m2 as i64)
        } else {
            0
        }
    }

    /// Adopt an attack candidate that bids deeper than the current
    /// envelope; otherwise leave the envelope alone.
    fn retrigger(&mut self, cand: i64, cfg: &Config, hold_scale: u64)
        requires
            cfg.wf(),
            hold_scale <= ONE,
            -(ENV_CAP as int) <= cand <= 0,
            -(ENV_CAP as int) <= old(self).envelope <= 0,
            -(ENV_CAP as int) <= old(self).target <= 0,
            -(ENV_CAP as int) <= old(self).hold <= 0,
        ensures
            final(self).scalars() == spec_retrigger(
                old(self).scalars(),
                cand as int,
                cfg.hold_len as int,
                cfg.release_len as int,
                hold_scale as int,
            ),
            final(self).buffer == old(self).buffer,
            final(self).peak_db == old(self).peak_db,
            final(self).peak_position == old(self).peak_position,
            final(self).peak_lerp_len == old(self).peak_lerp_len,
            -(ENV_CAP as int) <= final(self).envelope <= 0,
            -(ENV_CAP as int) <= final(self).target <= 0,
            -(ENV_CAP as int) <= final(self).hold <= 0,
            match final(self).state {
                EnvState::Hold(e) => e <= LEN_MAX + 2 * ONE,
                EnvState::Release(e) => e <= LEN_MAX + 2 * ONE,
                EnvState::Off => true,
            } || final(self).state == old(self).state,
    {
        if cand < self.envelope {
            self.target = cand;
            proof {
                crate::fixed::lemma_fpmul_shrinks(abs_int(cand as int), hold_scale as int);
            }
            self.hold = mul_fp_signed(cand, hold_scale as i64);
            self.envelope = cand;
            if cfg.hold_len >= HALF {
                self.state = EnvState::Hold(0);
            } else if cfg.release_len >= HALF {
                self.state = EnvState::Release(0);
            } else {
                self.state = EnvState::Off;
            }
        }
    }

    /// Process one driven sample on this channel: push it into the delay
    /// line, advance the envelope state machine, evaluate the strongest
    /// pending peak, retrigger the attack if it bids deeper, pop the
    /// delayed sample and clamp against it. Returns the delayed sample's
    /// amplitude; the envelope afterwards is a reduction that provably
    /// pins it to the ceiling.
    pub fn process_sample(
        &mut self,
        ns: SampleDB,
        cfg: &Config,
        atk_env: &Envelope,
        rel_env: &Envelope,
        la_len: u64,
        do_scan: bool,
        hold_scale: u64,
    ) -> (out: i64)
        requires
            old(self).wf(la_len as int),
            cfg.wf(),
            ns.wf(),
            la_len <= LA_MAX,
            atk_env.wf(),
            rel_env.wf(),
            hold_scale <= ONE,
        ensures
            final(self).wf(la_len as int),
            final(self).buffer@ == old(self).buffer@.push(ns).subrange(1, la_len as int + 1),
            out == old(self).buffer@.push(ns)[0].sample,
            final(self).scalars() == spec_step(
                old(self).scalars(),
                old(self).buffer@.push(ns),
                *cfg,
                *atk_env,
                *rel_env,
                la_len as int,
                do_scan,
                hold_scale as int,
            ),
            final(self).envelope <= 0,
            abs_int(out as int) <= AMP_CAP,
            reduces_to_ceiling(abs_int(out as int), -(final(self).envelope) as int),
    {
        self.buffer.push_back(ns);
        let ghost q = self.buffer@;
        self.env_tick(cfg, rel_env);
        let cand: i64 = if do_scan && la_len >= 1 {
            self.scan_candidate(cfg, atk_env, la_len)
        } else {
            self.cached_candidate(cfg, atk_env)
        };
        self.retrigger(cand, cfg, hold_scale);
        let delay = self.buffer.pop_front().unwrap();
        if delay.db + self.envelope > 0 {
            self.target = -delay.db;
            proof {
                crate::fixed::lemma_fpmul_shrinks(abs_int(self.target as int), hold_scale as int);
            }
            self.hold = mul_fp_signed(self.target, hold_scale as i64);
            self.envelope = self.target;
            if cfg.hold_len >= HALF {
                self.state = EnvState::Hold(0);
            } else if cfg.release_len >= HALF {
                self.state = EnvState::Release(0);
            } else {
                self.state = EnvState::Off;
            }
        }
        proof {
            reveal(spec_step);
            let d = q[0];
            let renv = -(self.envelope as int);
            if d.db + self.envelope > 0 {
            } else {
                if d.db > 0 {
                    crate::levels::lemma_deeper_reduction_keeps_ceiling(
                        abs_int(d.sample as int),
                        d.db as int,
                        renv,
                    );
                } else {
                    crate::levels::lemma_under_ceiling_stays(abs_int(d.sample as int), renv);
                }
            }
        }
        delay.sample
    }
}

/// Advancing the cached peak keeps its position inside the window bound.
proof fn lemma_cache_position_bound(pos: int, lerp_len: int, progress: int)
    requires
        0 <= pos,
        0 <= lerp_len <= LA_MAX * ONE,
        progress == crate::fixed::fpdiv(pos + 1 * (ONE as int), lerp_len + ONE),
        progress <= ONE,
    ensures
        pos <= (LA_MAX + 2) * ONE,
{
    if pos > (LA_MAX + 2) * (ONE as int) {
        // Then pos + ONE exceeds lerp_len + ONE, so the progress passes
        // ONE: contradiction.
        let num = (pos + (ONE as int)) * (ONE as int);
        let den = lerp_len + (ONE as int);
        vstd::arithmetic::mul::lemma_mul_strict_inequality(den, pos + (ONE as int), ONE as int);
        vstd::arithmetic::mul::lemma_mul_is_commutative(den, ONE as int);
        vstd::arithmetic::div_mod::lemma_div_by_multiple(ONE as int, den);
        vstd::arithmetic::div_mod::lemma_div_is_ordered(den * (ONE as int) + den, num, den);
        assert((den * (ONE as int) + den) / den == (ONE as int) + 1) by {
            vstd::arithmetic::div_mod::lemma_hoist_over_denominator(
                den * (ONE as int),
                1,
                den as nat,
            );
        }
    }
}

/// The window progress of a buffered peak never passes `ONE`.
proof fn lemma_window_progress_bounds(age: int, la_len: int)
    requires
        0 <= age <= la_len,
        1 <= la_len,
    ensures
        0 <= window_progress(age, la_len) <= ONE,
{
    vstd::arithmetic::mul::lemma_mul_inequality(age + 1, la_len + 1, ONE as int);
    vstd::arithmetic::div_mod::lemma_div_is_ordered(
        (age + 1) * (ONE as int),
        (la_len + 1) * (ONE as int),
        la_len + 1,
    );
    vstd::arithmetic::div_mod::lemma_div_by_multiple(ONE as int, la_len + 1);
    vstd::arithmetic::mul::lemma_mul_is_commutative(la_len + 1, ONE as int);
    vstd::arithmetic::mul::lemma_mul_nonnegative(age + 1, ONE as int);
    vstd::arithmetic::div_mod::lemma_div_pos_is_pos((age + 1) * (ONE as int), la_len + 1);
}

/// The first stage of an attack candidate stays under three billion
/// micro-decibels.
proof fn lemma_candidate_bound()
    ensures
        (DB_SEARCH_MAX as int) * (CURVE_MAX as int) / (ONE as int) <= 3_000_000_000,
        3_000_000_000int * (ATTACK_MAX as int) / (ONE as int) <= ENV_CAP,
{
    assert((DB_SEARCH_MAX as int) * (CURVE_MAX as int) <= 3_000_000_000int * (ONE as int))
        by (nonlinear_arith);
    vstd::arithmetic::div_mod::lemma_div_is_ordered(
        (DB_SEARCH_MAX as int) * (CURVE_MAX as int),
        3_000_000_000int * (ONE as int),
        ONE as int,
    );
    vstd::arithmetic::div_mod::lemma_div_by_multiple(3_000_000_000, ONE as int);
    assert(3_000_000_000int * (ATTACK_MAX as int) == 15_000_000_000int * (ONE as int))
        by (nonlinear_arith);
    vstd::arithmetic::div_mod::lemma_div_by_multiple(15_000_000_000, ONE as int);
}

/// All channels of the limiter.
#[derive(Debug)]
pub struct LimiterBuffer {
    pub channels: usize,
    pub limiters: Vec<Limiter>,
}

impl LimiterBuffer {
    /// Well-formedness: one well-formed channel per configured channel.
    pub open spec fn wf(&self, la_len: int) -> bool {
        &&& self.channels >= 1
        &&& self.limiters@.len() == self.channels
        &&& forall|i: int|
            0 <= i < self.limiters@.len() ==> (#[trigger] self.limiters@[i]).wf(la_len)
    }

    /// Borrow one channel's limiter. An index past the last channel is
    /// clamped to the last valid channel rather than failing.
    pub fn channel(&self, channel: usize) -> (l: &Limiter)
        requires
            self.channels >= 1,
            self.limiters@.len() == self.channels,
        ensures
            *l == self.limiters@[if channel < self.channels {
                channel as int
            } else {
                self.channels - 1
            }],
    {
        let ch = if channel >= self.channels {
            self.channels - 1
        } else {
            channel
        };
        &self.limiters[ch]
    }

    /// Build freshly primed channels: each delay line holds `sample_len`
    /// samples of silence and every envelope is at rest.
    pub fn new(channels: usize, sample_len: usize) -> (r: LimiterBuffer)
        requires
            1 <= channels <= 64,
            sample_len <= LA_MAX,
        ensures
            r.wf(sample_len as int),
            r.channels == channels,
            forall|i: int| 0 <= i < channels ==> (#[trigger] r.limiters@[i]).pristine(
                sample_len as int,
            ),
    {
        let mut limiters: Vec<Limiter> = Vec::new();
        let mut i: usize = 0;
        while i < channels
            invariant
                i <= channels,
                sample_len <= LA_MAX,
                limiters@.len() == i,
                forall|j: int| 0 <= j < i ==> (#[trigger] limiters@[j]).pristine(sample_len as int),
                forall|j: int| 0 <= j < i ==> (#[trigger] limiters@[j]).wf(sample_len as int),
            decreases channels - i,
        {
            limiters.push(Limiter::primed(sample_len));
            i = i + 1;
        }
        LimiterBuffer { channels, limiters }
    }
}


/// The deepest reduction any channel applies this sample, folded over the
/// first `n` channels from a starting value of zero.
pub open spec fn spec_most_reduction(ls: Seq<Limiter>, n: int) -> int
    decreases n,
{
    if n <= 0 {
        0
    } else {
        let m = spec_most_reduction(ls, n - 1);
        if ls[n - 1].envelope < m {
            ls[n - 1].envelope as int
        } else {
            m
        }
    }
}

/// The most reduction is never positive and never shallower than any
/// channel's own envelope.
pub proof fn lemma_most_reduction_le(ls: Seq<Limiter>, n: int, i: int)
    requires
        0 <= i < n,
    ensures
        spec_most_reduction(ls, n) <= ls[i].envelope,
        spec_most_reduction(ls, n) <= 0,
    decreases n,
{
    if i < n - 1 {
        lemma_most_reduction_le(ls, n - 1, i);
    } else {
        lemma_most_reduction_nonpos(ls, n - 1);
    }
}

/// The most reduction is never positive.
pub proof fn lemma_most_reduction_nonpos(ls: Seq<Limiter>, n: int)
    ensures
        spec_most_reduction(ls, n) <= 0,
    decreases n,
{
    if n > 0 {
        lemma_most_reduction_nonpos(ls, n - 1);
    }
}

/// The reduction a channel applies after stereo linking: its own envelope
/// blended toward the deepest channel's by the link amount.
pub open spec fn applied_reduction(own: int, most: int, link: int) -> int {
    fplerp(own, most, link)
}

/// With the stereo link fully open every channel applies the deepest
/// reduction; fully closed, each channel applies its own.
pub proof fn lemma_stereo_link_extremes(own: int, most: int)
    ensures
        applied_reduction(own, most, 0) == own,
        applied_reduction(own, most, ONE as int) == most,
{
    crate::fixed::lemma_fplerp_ends(own, most);
}

/// The final gain stage: the delayed amplitude scaled by the gain of the
/// total reduction (applied reduction, trim, and gain compensation).
pub open spec fn spec_output(amp: int, applied: int, trim: int, comp: int) -> int {
    let total = -applied + -trim + comp;
    let g = gain_of_reduction(total);
    if amp >= 0 {
        fpmul(amp, g)
    } else {
        -fpmul(-amp, g)
    }
}

impl LimiterBuffer {
    /// Process one frame (one driven sample per channel): step every
    /// channel's limiter, find the deepest reduction, and emit each
    /// channel's delayed sample through the stereo link and gain stage.
    /// Every emitted sample provably stays at or under the ceiling.
    pub fn process_frame(
        &mut self,
        driven: &Vec<SampleDB>,
        cfg: &Config,
        atk_env: &Envelope,
        rel_env: &Envelope,
        la_len: u64,
        do_scan: bool,
        hold_scale: u64,
        comp: u64,
    ) -> (outs: Vec<i64>)
        requires
            old(self).wf(la_len as int),
            driven@.len() == old(self).channels,
            forall|i: int| 0 <= i < driven@.len() ==> (#[trigger] driven@[i]).wf(),
            cfg.wf(),
            atk_env.wf(),
            rel_env.wf(),
            la_len <= LA_MAX,
            hold_scale <= ONE,
            comp <= DRIVE_MAX,
        ensures
            final(self).wf(la_len as int),
            final(self).channels == old(self).channels,
            final(self).limiters@.len() == old(self).limiters@.len(),
            outs@.len() == old(self).channels,
            forall|i: int|
                0 <= i < old(self).channels ==> (#[trigger] final(self).limiters@[i]).scalars()
                    == spec_step(
                    old(self).limiters@[i].scalars(),
                    old(self).limiters@[i].buffer@.push(driven@[i]),
                    *cfg,
                    *atk_env,
                    *rel_env,
                    la_len as int,
                    do_scan,
                    hold_scale as int,
                ),
            forall|i: int|
                0 <= i < old(self).channels ==> (#[trigger] final(self).limiters@[i]).buffer@
                    == old(self).limiters@[i].buffer@.push(driven@[i]).subrange(
                    1,
                    la_len as int + 1,
                ),
            forall|i: int|
                0 <= i < old(self).channels ==> #[trigger] outs@[i] == spec_output(
                    old(self).limiters@[i].buffer@.push(driven@[i])[0].sample as int,
                    applied_reduction(
                        final(self).limiters@[i].envelope as int,
                        spec_most_reduction(final(self).limiters@, old(self).channels as int),
                        cfg.stereo_link as int,
                    ),
                    cfg.trim as int,
                    comp as int,
                ),
            forall|i: int|
                0 <= i < outs@.len() ==> abs_int(#[trigger] outs@[i] as int) <= ONE,
    {
        let n = self.channels;
        let ghost ls0 = self.limiters@;
        let mut amps: Vec<i64> = Vec::new();
        let mut most: i64 = 0;
        let mut i: usize = 0;
        while i < n
            invariant
                i <= n,
                n == self.channels,
                n == ls0.len(),
                n == driven@.len(),
                self.limiters@.len() == n,
                cfg.wf(),
                atk_env.wf(),
                rel_env.wf(),
                la_len <= LA_MAX,
                hold_scale <= ONE,
                forall|j: int| 0 <= j < driven@.len() ==> (#[trigger] driven@[j]).wf(),
                forall|j: int| i <= j < n ==> (#[trigger] self.limiters@[j]) == ls0[j],
                forall|j: int| 0 <= j < n ==> (#[trigger] ls0[j]).wf(la_len as int),
                forall|j: int|
                    0 <= j < n ==> (#[trigger] self.limiters@[j]).wf(la_len as int),
                amps@.len() == i,
                forall|j: int|
                    0 <= j < i ==> (#[trigger] self.limiters@[j]).scalars() == spec_step(
                        ls0[j].scalars(),
                        ls0[j].buffer@.push(driven@[j]),
                        *cfg,
                        *atk_env,
                        *rel_env,
                        la_len as int,
                        do_scan,
                        hold_scale as int,
                    ),
                forall|j: int|
                    0 <= j < i ==> (#[trigger] self.limiters@[j]).buffer@ == ls0[j].buffer@.push(
                        driven@[j],
                    ).subrange(1, la_len as int + 1),
                forall|j: int|
                    0 <= j < i ==> #[trigger] amps@[j] == ls0[j].buffer@.push(driven@[j])[0].sample,
                forall|j: int|
                    0 <= j < i ==> abs_int(#[trigger] amps@[j] as int) <= AMP_CAP,
                forall|j: int|
                    0 <= j < i ==> reduces_to_ceiling(
                        abs_int(#[trigger] amps@[j] as int),
                        -(self.limiters@[j].envelope) as int,
                    ),
                most == spec_most_reduction(self.limiters@, i as int),
                -(ENV_CAP as int) <= most <= 0,
            decreases n - i,
        {
            let ghost pre = self.limiters@;
            let amp = self.limiters[i].process_sample(
                driven[i],
                cfg,
                atk_env,
                rel_env,
                la_len,
                do_scan,
                hold_scale,
            );
            let env = self.limiters[i].envelope;
            if env < most {
                most = env;
            }
            amps.push(amp);
            proof {
                assert(self.limiters@ =~= pre.update(i as int, self.limiters@[i as int]));
                assert(forall|j: int|
                    0 <= j < n && j != i ==> (#[trigger] self.limiters@[j]) == pre[j]);
                lemma_most_shift(pre, self.limiters@, i as int);
                assert(spec_most_reduction(self.limiters@, i as int) == spec_most_reduction(
                    pre,
                    i as int,
                ));
                assert(spec_most_reduction(self.limiters@, i as int + 1) == (
                if self.limiters@[i as int].envelope < spec_most_reduction(
                    self.limiters@,
                    i as int,
                ) {
                    self.limiters@[i as int].envelope as int
                } else {
                    spec_most_reduction(self.limiters@, i as int)
                }));
            }
            i = i + 1;
        }
        let mut outs: Vec<i64> = Vec::new();
        let ghost lsf = self.limiters@;
        let trim_mag: u64 = (-cfg.trim) as u64;
        let mut k: usize = 0;
        while k < n
            invariant
                k <= n,
                n == self.channels,
                self.limiters@ == lsf,
                lsf.len() == n,
                n == amps@.len(),
                cfg.wf(),
                trim_mag == -(cfg.trim as int),
                comp <= DRIVE_MAX,
                most == spec_most_reduction(lsf, n as int),
                -(ENV_CAP as int) <= most <= 0,
                forall|j: int| 0 <= j < n ==> (#[trigger] lsf[j]).wf(la_len as int),
                forall|j: int|
                    0 <= j < n ==> abs_int(#[trigger] amps@[j] as int) <= AMP_CAP,
                forall|j: int|
                    0 <= j < n ==> reduces_to_ceiling(
                        abs_int(#[trigger] amps@[j] as int),
                        -(lsf[j].envelope) as int,
                    ),
                outs@.len() == k,
                forall|j: int|
                    0 <= j < k ==> #[trigger] outs@[j] == spec_output(
                        amps@[j] as int,
                        applied_reduction(
                            lsf[j].envelope as int,
                            spec_most_reduction(lsf, n as int),
                            cfg.stereo_link as int,
                        ),
                        cfg.trim as int,
                        comp as int,
                    ),
                forall|j: int| 0 <= j < k ==> abs_int(#[trigger] outs@[j] as int) <= ONE,
            decreases n - k,
        {
            let own = self.limiters[k].envelope;
            proof {
                lemma_most_reduction_le(lsf, n as int, k as int);
            }
            let applied = lerp_fp(own, most, cfg.stereo_link);
            let total: u64 = ((-applied) as u64) + trim_mag + comp;
            let g = reduction_gain(total);
            let amp = amps[k];
            let mag: u64 = if amp >= 0 {
                amp as u64
            } else {
                (-amp) as u64
            };
            proof {
                crate::levels::lemma_deeper_reduction_keeps_ceiling(
                    mag as int,
                    -(lsf[k as int].envelope) as int,
                    total as int,
                );
            }
            let om = mul_fp(mag, g);
            let out: i64 = if amp >= 0 {
                om as i64
            } else {
                -(om as i64)
            };
            outs.push(out);
            k = k + 1;
        }
        outs
    }
}

/// Updating one channel that only deepens or keeps its own envelope keeps
/// the most-reduction fold consistent over the prefix processed so far.
proof fn lemma_most_shift(pre: Seq<Limiter>, post: Seq<Limiter>, i: int)
    requires
        0 <= i < pre.len(),
        post.len() == pre.len(),
        forall|j: int| 0 <= j < pre.len() && j != i ==> (#[trigger] post[j]) == pre[j],
    ensures
        forall|m: int|
            0 <= m <= i ==> #[trigger] spec_most_reduction(post, m) == spec_most_reduction(pre, m),
    decreases pre.len(),
{
    assert forall|m: int| 0 <= m <= i implies #[trigger] spec_most_reduction(post, m)
        == spec_most_reduction(pre, m) by {
        lemma_most_prefix_eq(pre, post, m);
    }
}

/// Two channel sequences that agree on a prefix fold to the same most
/// reduction over that prefix.
proof fn lemma_most_prefix_eq(pre: Seq<Limiter>, post: Seq<Limiter>, m: int)
    requires
        forall|j: int| 0 <= j < m ==> (#[trigger] post[j]) == pre[j],
    ensures
        spec_most_reduction(post, m) == spec_most_reduction(pre, m),
    decreases m,
{
    if m > 0 {
        lemma_most_prefix_eq(pre, post, m - 1);
    }
}



/// The state tick never leaves the envelope positive.
pub proof fn lemma_tick_envelope_nonpositive(
    sc: EnvScalars,
    hold_len: int,
    release_len: int,
    rel_env: Envelope,
)
    requires
        sc.envelope <= 0,
        sc.target <= 0,
        sc.hold <= 0,
    ensures
        spec_env_tick(sc, hold_len, release_len, rel_env).envelope <= 0,
        spec_env_tick(sc, hold_len, release_len, rel_env).target <= 0,
        spec_env_tick(sc, hold_len, release_len, rel_env).hold <= 0,
{
    match sc.state {
        EnvState::Hold(e0) => {},
        EnvState::Release(e0) => {
            let tg = if e0 == 0 {
                sc.hold
            } else {
                sc.target
            };
            let t = fpdiv(e0 + ONE, release_len + ONE);
            let tc = if t > ONE {
                ONE as int
            } else {
                t
            };
            let cv = rel_env.spec_process(tc);
            let cvc = clamp0(
                if cv > ONE {
                    ONE as int
                } else {
                    cv
                },
            );
            crate::fixed::lemma_fplerp_range(tg as int, 0, cvc);
        },
        EnvState::Off => {},
    }
}

/// The peak evaluation phases never touch the envelope.
pub proof fn lemma_peak_phase_keeps_envelope(
    sc: EnvScalars,
    q: Seq<SampleDB>,
    atk_env: Envelope,
    la_len: int,
    attack_amt: int,
)
    ensures
        spec_scan(sc, q, atk_env, la_len, attack_amt).0.envelope == sc.envelope,
        spec_cache_read(sc, atk_env, attack_amt).0.envelope == sc.envelope,
{
}

/// A retrigger only adopts a strictly deeper bid, so the envelope stays a
/// reduction.
pub proof fn lemma_retrigger_envelope_nonpositive(
    sc: EnvScalars,
    cand: int,
    hold_len: int,
    release_len: int,
    hold_scale: int,
)
    requires
        sc.envelope <= 0,
        -0x8000_0000_0000_0000 <= cand,
    ensures
        spec_retrigger(sc, cand, hold_len, release_len, hold_scale).envelope <= 0,
{
}

/// The safety clamp fires only against a sample over the ceiling, so the
/// reduction it forces is strictly negative.
pub proof fn lemma_clamp_envelope_nonpositive(
    sc: EnvScalars,
    delayed: SampleDB,
    hold_len: int,
    release_len: int,
    hold_scale: int,
)
    requires
        sc.envelope <= 0,
    ensures
        spec_safety_clamp(sc, delayed, hold_len, release_len, hold_scale).envelope <= 0,
{
}

/// The envelope invariant: a processed sample never leaves the envelope
/// positive, whatever the configuration, the curves, or the window
/// contents, provided the attack bid fits the machine word as every bid
/// the engine computes does.
#[verifier::rlimit(100)]
pub proof fn lemma_step_envelope_nonpositive(
    sc: EnvScalars,
    q: Seq<SampleDB>,
    cfg: Config,
    atk_env: Envelope,
    rel_env: Envelope,
    la_len: int,
    do_scan: bool,
    hold_scale: int,
)
    requires
        -(ENV_CAP as int) <= sc.envelope <= 0,
        -(ENV_CAP as int) <= sc.target <= 0,
        -(ENV_CAP as int) <= sc.hold <= 0,
        do_scan && la_len >= 1 ==> -0x8000_0000_0000_0000 <= spec_scan(
            spec_env_tick(sc, cfg.hold_len as int, cfg.release_len as int, rel_env),
            q,
            atk_env,
            la_len,
            cfg.attack_amt as int,
        ).1,
        !(do_scan && la_len >= 1) ==> -0x8000_0000_0000_0000 <= spec_cache_read(
            spec_env_tick(sc, cfg.hold_len as int, cfg.release_len as int, rel_env),
            atk_env,
            cfg.attack_amt as int,
        ).1,
    ensures
        spec_step(sc, q, cfg, atk_env, rel_env, la_len, do_scan, hold_scale).envelope <= 0,
{
    reveal(spec_step);
    let s1 = spec_env_tick(sc, cfg.hold_len as int, cfg.release_len as int, rel_env);
    lemma_tick_envelope_nonpositive(sc, cfg.hold_len as int, cfg.release_len as int, rel_env);
    let sr = if do_scan && la_len >= 1 {
        spec_scan(s1, q, atk_env, la_len, cfg.attack_amt as int)
    } else {
        spec_cache_read(s1, atk_env, cfg.attack_amt as int)
    };
    lemma_peak_phase_keeps_envelope(s1, q, atk_env, la_len, cfg.attack_amt as int);
    let s3 = spec_retrigger(
        sr.0,
        sr.1,
        cfg.hold_len as int,
        cfg.release_len as int,
        hold_scale,
    );
    lemma_retrigger_envelope_nonpositive(
        sr.0,
        sr.1,
        cfg.hold_len as int,
        cfg.release_len as int,
        hold_scale,
    );
    lemma_clamp_envelope_nonpositive(
        s3,
        q[0],
        cfg.hold_len as int,
        cfg.release_len as int,
        hold_scale,
    );
}

/// The FIFO invariant: one processed sample enters and one leaves, so the/// The FIFO invariant: one processed sample enters and one leaves, so the/// The FIFO invariant: one processed sample enters and one leaves, so the
/// window length of a channel model never changes.
pub proof fn lemma_channel_step_keeps_window(
    m: ChannelModel,
    ns: SampleDB,
    cfg: Config,
    atk_env: Envelope,
    rel_env: Envelope,
    la_len: int,
    do_scan: bool,
    hold_scale: int,
)
    ensures
        spec_channel_step(m, ns, cfg, atk_env, rel_env, la_len, do_scan, hold_scale).buf.len()
            == m.buf.len(),
{
}

/// The whole observable state of one channel: its buffered window and its
/// envelope scalars.
#[verifier::ext_equal]
pub struct ChannelModel {
    pub buf: Seq<SampleDB>,
    pub sc: EnvScalars,
}

impl Limiter {
    /// This channel's observable model.
    pub open spec fn model(&self) -> ChannelModel {
        ChannelModel { buf: self.buffer@, sc: self.scalars() }
    }
}

/// The models of a sequence of channels.
pub open spec fn models_of(ls: Seq<Limiter>) -> Seq<ChannelModel> {
    Seq::new(ls.len(), |i: int| ls[i].model())
}

/// One channel's processed sample at the model level: the driven sample
/// enters the window, the scalar machine steps against the whole window,
/// the oldest sample leaves.
pub open spec fn spec_channel_step(
    m: ChannelModel,
    ns: SampleDB,
    cfg: Config,
    atk_env: Envelope,
    rel_env: Envelope,
    la_len: int,
    do_scan: bool,
    hold_scale: int,
) -> ChannelModel {
    let q = m.buf.push(ns);
    ChannelModel {
        buf: q.subrange(1, q.len() as int),
        sc: spec_step(m.sc, q, cfg, atk_env, rel_env, la_len, do_scan, hold_scale),
    }
}

/// The delayed amplitude one channel emits when a sample enters.
pub open spec fn spec_channel_out(m: ChannelModel, ns: SampleDB) -> int {
    m.buf.push(ns)[0].sample as int
}

/// The deepest reduction across stepped channel models.
pub open spec fn spec_most_of_models(ms: Seq<ChannelModel>, n: int) -> int
    decreases n,
{
    if n <= 0 {
        0
    } else {
        let p = spec_most_of_models(ms, n - 1);
        if ms[n - 1].sc.envelope < p {
            ms[n - 1].sc.envelope as int
        } else {
            p
        }
    }
}

/// The two most-reduction folds agree on a channel sequence and its
/// models.
pub proof fn lemma_most_models_eq(ls: Seq<Limiter>, n: int)
    requires
        0 <= n <= ls.len(),
    ensures
        spec_most_of_models(models_of(ls), n) == spec_most_reduction(ls, n),
    decreases n,
{
    if n > 0 {
        lemma_most_models_eq(ls, n - 1);
    }
}

/// All channel models after one frame.
pub open spec fn spec_frame_models(
    ms: Seq<ChannelModel>,
    driven: Seq<SampleDB>,
    cfg: Config,
    atk_env: Envelope,
    rel_env: Envelope,
    la_len: int,
    do_scan: bool,
    hold_scale: int,
) -> Seq<ChannelModel> {
    Seq::new(
        ms.len(),
        |i: int|
            spec_channel_step(ms[i], driven[i], cfg, atk_env, rel_env, la_len, do_scan, hold_scale),
    )
}

/// The output frame: every channel's delayed sample through the stereo
/// link and the gain stage.
pub open spec fn spec_frame_outs(
    ms: Seq<ChannelModel>,
    driven: Seq<SampleDB>,
    cfg: Config,
    atk_env: Envelope,
    rel_env: Envelope,
    la_len: int,
    do_scan: bool,
    hold_scale: int,
    comp: int,
) -> Seq<int> {
    let stepped = spec_frame_models(ms, driven, cfg, atk_env, rel_env, la_len, do_scan, hold_scale);
    let most = spec_most_of_models(stepped, stepped.len() as int);
    Seq::new(
        ms.len(),
        |i: int|
            spec_output(
                spec_channel_out(ms[i], driven[i]),
                applied_reduction(stepped[i].sc.envelope as int, most, cfg.stereo_link as int),
                cfg.trim as int,
                comp,
            ),
    )
}

/// The driven samples of one input frame.
pub open spec fn spec_driven_frame(inputs: Seq<Seq<i64>>, s: int, drive: int) -> Seq<SampleDB> {
    Seq::new(inputs.len(), |ch: int| spec_driven(inputs[ch][s] as int, drive))
}

/// Whether the peak search rescans the window at this block sample.
pub open spec fn spec_do_scan(s: int, accuracy: int) -> bool {
    s % accuracy == 0
}

/// The gain compensation magnitude a configuration implies: half the
/// drive's loudness when enabled.
pub open spec fn spec_compensation(cfg: Config) -> int {
    if cfg.compensate && cfg.drive > ONE {
        spec_level(cfg.drive as int) / 2
    } else {
        0
    }
}

/// The hold scale a configuration implies: the fixed-point square root of
/// the hold amount.
pub open spec fn spec_hold_scale(cfg: Config) -> int {
    crate::fixed::spec_floor_sqrt(cfg.release_amt * ONE)
}

/// The channel models after the first `s` samples of a block.
pub open spec fn spec_block_models(
    ms0: Seq<ChannelModel>,
    inputs: Seq<Seq<i64>>,
    cfg: Config,
    atk_env: Envelope,
    rel_env: Envelope,
    la_len: int,
    s: int,
) -> Seq<ChannelModel>
    decreases s,
{
    if s <= 0 {
        ms0
    } else {
        spec_frame_models(
            spec_block_models(ms0, inputs, cfg, atk_env, rel_env, la_len, s - 1),
            spec_driven_frame(inputs, s - 1, cfg.drive as int),
            cfg,
            atk_env,
            rel_env,
            la_len,
            spec_do_scan(s - 1, cfg.lookahead_accuracy as int),
            spec_hold_scale(cfg),
        )
    }
}

/// The output frame at block sample `s`.
pub open spec fn spec_block_out(
    ms0: Seq<ChannelModel>,
    inputs: Seq<Seq<i64>>,
    cfg: Config,
    atk_env: Envelope,
    rel_env: Envelope,
    la_len: int,
    s: int,
) -> Seq<int> {
    spec_frame_outs(
        spec_block_models(ms0, inputs, cfg, atk_env, rel_env, la_len, s),
        spec_driven_frame(inputs, s, cfg.drive as int),
        cfg,
        atk_env,
        rel_env,
        la_len,
        spec_do_scan(s, cfg.lookahead_accuracy as int),
        spec_hold_scale(cfg),
        spec_compensation(cfg),
    )
}

/// The channel-major views of an input block.
pub open spec fn views_of(bs: Seq<Vec<i64>>) -> Seq<Seq<i64>> {
    Seq::new(bs.len(), |i: int| bs[i]@)
}

/// Largest sample rate the engine accepts, in hertz.
pub const SR_MAX: u64 = 1_000_000;

/// Ceiling division in micro-units: the number of whole units covering
/// `a / b`.
pub open spec fn ceil_div(a: int, b: int) -> int {
    (a + b - 1) / b
}

/// The whole engine: channel count, sample rate, the lookahead length in
/// whole samples, and the per-channel limiters.
#[derive(Debug)]
pub struct Limit2zero {
    pub lookahead_len: u64,
    pub sample_rate: u64,
    pub channels: usize,
    pub limiters: LimiterBuffer,
}

impl Limit2zero {
    /// Engine well-formedness: bounded geometry and well-formed channels.
    pub open spec fn wf(&self) -> bool {
        &&& self.lookahead_len <= LA_MAX
        &&& 1 <= self.channels <= 64
        &&& 1 <= self.sample_rate <= SR_MAX
        &&& self.limiters.channels == self.channels
        &&& self.limiters.wf(self.lookahead_len as int)
    }
}

impl Default for Limit2zero {
    /// A stereo engine at 44.1 kHz with a 256-sample window, ready to be
    /// re-initialized by the host.
    fn default() -> (r: Self)
        ensures
            r.wf(),
            r.channels == 2,
            r.sample_rate == 44100,
            r.lookahead_len == 256,
            forall|i: int|
                0 <= i < 2 ==> (#[trigger] r.limiters.limiters@[i]).pristine(256),
    {
        Limit2zero {
            lookahead_len: 256,
            sample_rate: 44100,
            channels: 2,
            limiters: LimiterBuffer::new(2, 256),
        }
    }
}

impl Limit2zero {
    /// Adopt the host's audio geometry and rebuild all channel state:
    /// the lookahead length in milliseconds becomes a whole number of
    /// samples at the new rate, and every channel is primed with silence.
    pub fn initialize(&mut self, channels: usize, sample_rate: u64, lookahead_ms: u64)
        requires
            1 <= channels <= 64,
            1 <= sample_rate <= SR_MAX,
            lookahead_ms <= 50 * ONE,
        ensures
            final(self).wf(),
            final(self).channels == channels,
            final(self).sample_rate == sample_rate,
            final(self).lookahead_len == ceil_div(
                (lookahead_ms * sample_rate / 1000) as int,
                ONE as int,
            ),
            forall|i: int|
                0 <= i < channels ==> (#[trigger] final(self).limiters.limiters@[i]).pristine(
                    final(self).lookahead_len as int,
                ),
    {
        proof {
            vstd::arithmetic::mul::lemma_mul_upper_bound(
                lookahead_ms as int,
                50 * (ONE as int),
                sample_rate as int,
                SR_MAX as int,
            );
        }
        let la_micro = lookahead_ms * sample_rate / 1000;
        proof {
            vstd::arithmetic::div_mod::lemma_div_is_ordered(
                (lookahead_ms as int) * (sample_rate as int),
                50 * (ONE as int) * (SR_MAX as int),
                1000,
            );
            assert(50 * (ONE as int) * (SR_MAX as int) / 1000 == 50_000_000_000int) by {
                vstd::arithmetic::div_mod::lemma_div_by_multiple(50_000_000_000, 1000);
                assert(50 * (ONE as int) * (SR_MAX as int) == 50_000_000_000int * 1000)
                    by (nonlinear_arith);
            }
            vstd::arithmetic::div_mod::lemma_div_pos_is_pos(
                (lookahead_ms as int) * (sample_rate as int),
                1000,
            );
        }
        let la = (la_micro + (ONE - 1)) / ONE;
        proof {
            vstd::arithmetic::div_mod::lemma_div_is_ordered(
                la_micro as int + (ONE as int) - 1,
                50_000_000_000int + (ONE as int) - 1,
                ONE as int,
            );
            assert((50_000_000_000int + (ONE as int) - 1) / (ONE as int) <= LA_MAX) by {
                vstd::arithmetic::div_mod::lemma_div_is_ordered(
                    50_000_000_000int + (ONE as int) - 1,
                    (LA_MAX as int) * (ONE as int),
                    ONE as int,
                );
                vstd::arithmetic::div_mod::lemma_div_by_multiple(LA_MAX as int, ONE as int);
            }
            vstd::arithmetic::div_mod::lemma_div_pos_is_pos(
                la_micro as int + (ONE as int) - 1,
                ONE as int,
            );
        }
        self.channels = channels;
        self.sample_rate = sample_rate;
        self.lookahead_len = la;
        self.limiters = LimiterBuffer::new(channels, la as usize);
    }

    /// Rebuild every channel wholesale at the current geometry: fresh
    /// silence in every delay line, every envelope at rest.
    pub fn reset(&mut self)
        requires
            1 <= old(self).channels <= 64,
            old(self).lookahead_len <= LA_MAX,
        ensures
            final(self).lookahead_len == old(self).lookahead_len,
            final(self).sample_rate == old(self).sample_rate,
            final(self).channels == old(self).channels,
            final(self).limiters.wf(final(self).lookahead_len as int),
            final(self).limiters.channels == final(self).channels,
            forall|i: int|
                0 <= i < final(self).channels ==> (
                #[trigger] final(self).limiters.limiters@[i]).pristine(
                    final(self).lookahead_len as int,
                ),
    {
        self.limiters = LimiterBuffer::new(self.channels, self.lookahead_len as usize);
    }

    /// Track a lookahead change: when the length in samples rounds to a
    /// new whole number, reprime every channel and report the new latency,
    /// `ceil(lookahead / 2)` samples: half the window, a documented host
    /// quirk kept as is.
    pub fn update_lookahead(&mut self, lookahead_micro: u64) -> (lat: Option<u32>)
        requires
            old(self).wf(),
            lookahead_micro <= LA_MAX * ONE,
        ensures
            final(self).wf(),
            final(self).channels == old(self).channels,
            final(self).sample_rate == old(self).sample_rate,
            ceil_div(lookahead_micro as int, ONE as int) == old(self).lookahead_len ==> {
                &&& lat is None
                &&& *final(self) == *old(self)
            },
            ceil_div(lookahead_micro as int, ONE as int) != old(self).lookahead_len ==> {
                &&& lat == Some(ceil_div(lookahead_micro as int, 2 * (ONE as int)) as u32)
                &&& final(self).lookahead_len == ceil_div(lookahead_micro as int, ONE as int)
                &&& forall|i: int|
                    0 <= i < final(self).channels ==> (
                    #[trigger] final(self).limiters.limiters@[i]).pristine(
                        final(self).lookahead_len as int,
                    )
            },
    {
        proof {
            vstd::arithmetic::div_mod::lemma_div_is_ordered(
                lookahead_micro as int + (ONE as int) - 1,
                (LA_MAX as int) * (ONE as int) + (ONE as int) - 1,
                ONE as int,
            );
            assert(((LA_MAX as int) * (ONE as int) + (ONE as int) - 1) / (ONE as int) == LA_MAX)
                by {
                vstd::arithmetic::div_mod::lemma_hoist_over_denominator(
                    (ONE as int) - 1,
                    LA_MAX as int,
                    ONE as nat,
                );
                vstd::arithmetic::div_mod::lemma_basic_div((ONE as int) - 1, ONE as int);
            }
            vstd::arithmetic::div_mod::lemma_div_pos_is_pos(
                lookahead_micro as int + (ONE as int) - 1,
                ONE as int,
            );
            vstd::arithmetic::div_mod::lemma_div_pos_is_pos(
                lookahead_micro as int + 2 * (ONE as int) - 1,
                2 * (ONE as int),
            );
            vstd::arithmetic::div_mod::lemma_div_is_ordered(
                lookahead_micro as int + 2 * (ONE as int) - 1,
                (LA_MAX as int) * (ONE as int) + 2 * (ONE as int) - 1,
                2 * (ONE as int),
            );
            assert(((LA_MAX as int) * (ONE as int) + 2 * (ONE as int) - 1) / (2 * (ONE as int))
                <= LA_MAX) by {
                assert((LA_MAX as int) * (ONE as int) + 2 * (ONE as int) - 1 <= (LA_MAX as int) * (
                2 * (ONE as int))) by (nonlinear_arith);
                vstd::arithmetic::div_mod::lemma_div_is_ordered(
                    (LA_MAX as int) * (ONE as int) + 2 * (ONE as int) - 1,
                    (LA_MAX as int) * (2 * (ONE as int)),
                    2 * (ONE as int),
                );
                vstd::arithmetic::div_mod::lemma_div_by_multiple(LA_MAX as int, 2 * (ONE as int));
            }
        }
        let ceiled = (lookahead_micro + (ONE - 1)) / ONE;
        if ceiled != self.lookahead_len {
            let lat = (lookahead_micro + (2 * ONE - 1)) / (2 * ONE);
            self.lookahead_len = ceiled;
            self.limiters = LimiterBuffer::new(self.channels, ceiled as usize);
            Some(lat as u32)
        } else {
            None
        }
    }

    /// Process one block in place: drive and measure each input sample,
    /// step every channel's limiter, link the channels and apply the
    /// final gain. The contract pins the whole block down: the channel
    /// states and every written sample equal the model-level fold of the
    /// per-sample step, and every sample written back has magnitude at
    /// most `ONE`: the ceiling guarantee.
    #[verifier::rlimit(100)]
    pub fn process(&mut self, buffer: &mut Vec<Vec<i64>>, cfg: &Config)
        requires
            old(self).wf(),
            cfg.wf(),
            old(buffer)@.len() == old(self).channels,
            forall|ch: int|
                0 <= ch < old(buffer)@.len() ==> (#[trigger] old(buffer)@[ch])@.len() == old(
                    buffer,
                )@[0]@.len(),
            forall|ch: int, j: int|
                0 <= ch < old(buffer)@.len() && 0 <= j < old(buffer)@[ch]@.len() ==> abs_int(
                    #[trigger] old(buffer)@[ch]@[j] as int,
                ) <= INPUT_CAP,
        ensures
            final(self).wf(),
            final(self).channels == old(self).channels,
            final(self).lookahead_len == old(self).lookahead_len,
            final(self).sample_rate == old(self).sample_rate,
            final(buffer)@.len() == old(buffer)@.len(),
            forall|ch: int|
                0 <= ch < final(buffer)@.len() ==> (#[trigger] final(buffer)@[ch])@.len() == old(
                    buffer,
                )@[ch]@.len(),
            forall|ch: int, j: int|
                0 <= ch < final(buffer)@.len() && 0 <= j < final(buffer)@[ch]@.len() ==> abs_int(
                    #[trigger] final(buffer)@[ch]@[j] as int,
                ) <= ONE,
            models_of(final(self).limiters.limiters@) == spec_block_models(
                models_of(old(self).limiters.limiters@),
                views_of(old(buffer)@),
                *cfg,
                spec_build_envelope(cfg.attack_shape),
                spec_build_envelope(cfg.release_shape),
                old(self).lookahead_len as int,
                old(buffer)@[0]@.len() as int,
            ),
            forall|ch: int, j: int|
                0 <= ch < final(buffer)@.len() && 0 <= j < final(buffer)@[ch]@.len()
                    ==> #[trigger] final(buffer)@[ch]@[j] == spec_block_out(
                    models_of(old(self).limiters.limiters@),
                    views_of(old(buffer)@),
                    *cfg,
                    spec_build_envelope(cfg.attack_shape),
                    spec_build_envelope(cfg.release_shape),
                    old(self).lookahead_len as int,
                    j,
                )[ch],
    {
        let atk_env = build_envelope(&cfg.attack_shape);
        let rel_env = build_envelope(&cfg.release_shape);
        let hold_scale = sqrt_fp(cfg.release_amt);
        let comp: u64 = if cfg.compensate && cfg.drive > ONE {
            let r = overshoot_db(cfg.drive);
            proof {
                assert(is_overshoot_of(cfg.drive as int, r as int));
                let c = choose|x: int| is_overshoot_of(cfg.drive as int, x);
                lemma_overshoot_unique(cfg.drive as int, c, r as int);
            }
            r / 2
        } else {
            0
        };
        let la = self.lookahead_len;
        let n_ch = self.channels;
        let n_samples = buffer[0].len();
        let ghost inputs = buffer@;
        let ghost iv = views_of(inputs);
        let ghost m0 = models_of(self.limiters.limiters@);
        let mut s: usize = 0;
        while s < n_samples
            invariant
                s <= n_samples,
                self.wf(),
                self.channels == n_ch,
                n_ch == old(self).channels,
                self.lookahead_len == la,
                la == old(self).lookahead_len,
                self.sample_rate == old(self).sample_rate,
                buffer@.len() == n_ch,
                cfg.wf(),
                atk_env.wf(),
                rel_env.wf(),
                atk_env == spec_build_envelope(cfg.attack_shape),
                rel_env == spec_build_envelope(cfg.release_shape),
                hold_scale <= ONE,
                hold_scale == spec_hold_scale(*cfg),
                comp <= DRIVE_MAX,
                comp == spec_compensation(*cfg),
                inputs.len() == n_ch,
                inputs == old(buffer)@,
                iv == views_of(inputs),
                m0 == models_of(old(self).limiters.limiters@),
                self.limiters.limiters@.len() == n_ch,
                forall|ch: int|
                    0 <= ch < n_ch ==> (#[trigger] buffer@[ch])@.len() == n_samples,
                forall|ch: int| 0 <= ch < n_ch ==> (#[trigger] inputs[ch])@.len() == n_samples,
                forall|ch: int, j: int|
                    0 <= ch < n_ch && 0 <= j < n_samples ==> abs_int(
                        #[trigger] inputs[ch]@[j] as int,
                    ) <= INPUT_CAP,
                forall|ch: int, j: int|
                    0 <= ch < n_ch && s <= j < n_samples ==> #[trigger] buffer@[ch]@[j]
                        == inputs[ch]@[j],
                forall|ch: int, j: int|
                    0 <= ch < n_ch && 0 <= j < s ==> abs_int(#[trigger] buffer@[ch]@[j] as int)
                        <= ONE,
                models_of(self.limiters.limiters@) == spec_block_models(
                    m0,
                    iv,
                    *cfg,
                    atk_env,
                    rel_env,
                    la as int,
                    s as int,
                ),
                forall|ch: int, j: int|
                    0 <= ch < n_ch && 0 <= j < s ==> #[trigger] buffer@[ch]@[j] == spec_block_out(
                        m0,
                        iv,
                        *cfg,
                        atk_env,
                        rel_env,
                        la as int,
                        j,
                    )[ch],
            decreases n_samples - s,
        {
            let ghost pre_ls = self.limiters.limiters@;
            let mut driven: Vec<SampleDB> = Vec::new();
            let mut ch: usize = 0;
            while ch < n_ch
                invariant
                    ch <= n_ch,
                    s < n_samples,
                    buffer@.len() == n_ch,
                    cfg.wf(),
                    driven@.len() == ch,
                    forall|k: int| 0 <= k < ch ==> (#[trigger] driven@[k]).wf(),
                    forall|k: int|
                        0 <= k < ch ==> #[trigger] driven@[k] == spec_driven(
                            inputs[k]@[s as int] as int,
                            cfg.drive as int,
                        ),
                    forall|c: int|
                        0 <= c < n_ch ==> (#[trigger] buffer@[c])@.len() == n_samples,
                    forall|c: int, j: int|
                        0 <= c < n_ch && s <= j < n_samples ==> #[trigger] buffer@[c]@[j]
                            == inputs[c]@[j],
                    inputs.len() == n_ch,
                    forall|c: int, j: int|
                        0 <= c < n_ch && 0 <= j < n_samples ==> abs_int(
                            #[trigger] inputs[c]@[j] as int,
                        ) <= INPUT_CAP,
                decreases n_ch - ch,
            {
                let x = buffer[ch][s];
                driven.push(drive_sample(x, cfg.drive));
                ch = ch + 1;
            }
            proof {
                assert(driven@ =~= spec_driven_frame(iv, s as int, cfg.drive as int));
            }
            let do_scan = (s as u64) % cfg.lookahead_accuracy == 0;
            let outs = self.limiters.process_frame(
                &driven,
                cfg,
                &atk_env,
                &rel_env,
                la,
                do_scan,
                hold_scale,
                comp,
            );
            proof {
                let pre = spec_block_models(m0, iv, *cfg, atk_env, rel_env, la as int, s as int);
                let stepped = spec_frame_models(
                    pre,
                    driven@,
                    *cfg,
                    atk_env,
                    rel_env,
                    la as int,
                    do_scan,
                    hold_scale as int,
                );
                assert(do_scan == spec_do_scan(s as int, cfg.lookahead_accuracy as int));
                assert forall|c: int| 0 <= c < n_ch implies (#[trigger] models_of(
                    self.limiters.limiters@,
                )[c]) =~~= stepped[c] by {
                    assert(pre[c] == pre_ls[c].model());
                    assert(self.limiters.limiters@[c].scalars() == spec_step(
                        pre_ls[c].scalars(),
                        pre_ls[c].buffer@.push(driven@[c]),
                        *cfg,
                        atk_env,
                        rel_env,
                        la as int,
                        do_scan,
                        hold_scale as int,
                    ));
                    assert(pre_ls[c].buffer@.len() == la);
                }
                assert(models_of(self.limiters.limiters@) =~~= stepped);
                assert(spec_block_models(
                    m0,
                    iv,
                    *cfg,
                    atk_env,
                    rel_env,
                    la as int,
                    s as int + 1,
                ) == stepped);
                lemma_most_models_eq(self.limiters.limiters@, n_ch as int);
                assert(spec_most_of_models(stepped, n_ch as int) == spec_most_reduction(
                    self.limiters.limiters@,
                    n_ch as int,
                ));
                assert forall|c: int| 0 <= c < n_ch implies #[trigger] outs@[c] == spec_block_out(
                    m0,
                    iv,
                    *cfg,
                    atk_env,
                    rel_env,
                    la as int,
                    s as int,
                )[c] by {
                    assert(pre[c] == pre_ls[c].model());
                    assert(spec_channel_out(pre[c], driven@[c]) == pre_ls[c].buffer@.push(
                        driven@[c],
                    )[0].sample);
                }
            }
            let mut ch2: usize = 0;
            while ch2 < n_ch
                invariant
                    ch2 <= n_ch,
                    s < n_samples,
                    buffer@.len() == n_ch,
                    outs@.len() == n_ch,
                    inputs.len() == n_ch,
                    forall|k: int| 0 <= k < n_ch ==> abs_int(#[trigger] outs@[k] as int) <= ONE,
                    forall|c: int|
                        0 <= c < n_ch ==> (#[trigger] buffer@[c])@.len() == n_samples,
                    forall|c: int, j: int|
                        0 <= c < n_ch && s < j < n_samples ==> #[trigger] buffer@[c]@[j]
                            == inputs[c]@[j],
                    forall|c: int, j: int|
                        ch2 <= c < n_ch && s <= j < n_samples ==> #[trigger] buffer@[c]@[j]
                            == inputs[c]@[j],
                    forall|c: int, j: int|
                        0 <= c < n_ch && 0 <= j < s ==> abs_int(#[trigger] buffer@[c]@[j] as int)
                            <= ONE,
                    forall|c: int, j: int|
                        0 <= c < n_ch && 0 <= j < s ==> #[trigger] buffer@[c]@[j]
                            == spec_block_out(m0, iv, *cfg, atk_env, rel_env, la as int, j)[c],
                    forall|c: int| 0 <= c < ch2 ==> #[trigger] buffer@[c]@[s as int] == outs@[c],
                    forall|c: int|
                        0 <= c < n_ch ==> #[trigger] outs@[c] == spec_block_out(
                            m0,
                            iv,
                            *cfg,
                            atk_env,
                            rel_env,
                            la as int,
                            s as int,
                        )[c],
                decreases n_ch - ch2,
            {
                let o = outs[ch2];
                buffer[ch2][s] = o;
                ch2 = ch2 + 1;
            }
            s = s + 1;
        }
    }
}

} // verus!