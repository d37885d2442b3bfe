//! A sample-accurate lookahead limiter engine, verified with Verus.
//!
//! All signal values are carried in fixed-point micro-units (`fixed::ONE`
//! micro-units equal 1.0): sample amplitudes and linear gains on a linear
//! scale, loudness and gain reduction in micro-decibels. The engine keeps a
//! per-channel lookahead delay line with a peak model, an attack/hold/release
//! envelope state machine shaped by composable easing curves, a stereo link
//! stage and a final gain stage whose output provably never exceeds the
//! ceiling.

pub mod easing;
pub mod fixed;
pub mod graph;
pub mod levels;
pub mod limiter;
pub mod scan;
