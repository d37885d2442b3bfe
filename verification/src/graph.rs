//! The editor data feed: sampled points of the composed attack and
//! release curves over `[0, ONE]`, a pure read of the easing library with
//! no engine state involved.

use vstd::prelude::*;

use crate::easing::{clamp0, Ease};
use crate::fixed::ONE;
use crate::limiter::{build_envelope, spec_build_envelope, CurveParams};

verus! {

/// The x coordinate of the `i`-th of `resolution + 1` evenly spaced
/// sample points on the unit interval.
pub open spec fn graph_x(i: int, resolution: int) -> int {
    i * (ONE as int) / resolution
}

/// Sample the composed release envelope at `resolution + 1` evenly spaced
/// points: each point is `(x, curve(x))`.
pub fn generate_release_graph(p: &CurveParams, resolution: usize) -> (points: Vec<(u64, u64)>)
    requires
        p.wf(),
        1 <= resolution <= 100_000,
    ensures
        points@.len() == resolution + 1,
        forall|i: int|
            0 <= i < points@.len() ==> (#[trigger] points@[i]).0 == graph_x(i, resolution as int),
        forall|i: int|
            0 <= i < points@.len() ==> (#[trigger] points@[i]).1 == spec_build_envelope(
                *p,
            ).spec_process(graph_x(i, resolution as int)),
{
    let envelope = build_envelope(p);
    let mut points: Vec<(u64, u64)> = Vec::new();
    let mut i: usize = 0;
    while i <= resolution
        invariant
            i <= resolution + 1,
            1 <= resolution <= 100_000,
            envelope == spec_build_envelope(*p),
            envelope.wf(),
            points@.len() == i,
            forall|k: int|
                0 <= k < i ==> (#[trigger] points@[k]).0 == graph_x(k, resolution as int),
            forall|k: int|
                0 <= k < i ==> (#[trigger] points@[k]).1 == spec_build_envelope(*p).spec_process(
                    graph_x(k, resolution as int),
                ),
        decreases resolution + 1 - i,
    {
        proof {
            lemma_graph_x_bounds(i as int, resolution as int);
        }
        let x = ((i as u64) * ONE) / (resolution as u64);
        let y = envelope.process(x);
        points.push((x, y));
        i = i + 1;
    }
    points
}

/// Sample the composed attack envelope at `resolution + 1` evenly spaced
/// points: each point is `(x, ONE - curve(x))`, floored at zero, so the
/// graph shows the gain that remains during an attack.
pub fn generate_attack_graph(p: &CurveParams, resolution: usize) -> (points: Vec<(u64, u64)>)
    requires
        p.wf(),
        1 <= resolution <= 100_000,
    ensures
        points@.len() == resolution + 1,
        forall|i: int|
            0 <= i < points@.len() ==> (#[trigger] points@[i]).0 == graph_x(i, resolution as int),
        forall|i: int|
            0 <= i < points@.len() ==> (#[trigger] points@[i]).1 == clamp0(
                (ONE as int) - spec_build_envelope(*p).spec_process(graph_x(i, resolution as int)),
            ),
{
    let envelope = build_envelope(p);
    let mut points: Vec<(u64, u64)> = Vec::new();
    let mut i: usize = 0;
    while i <= resolution
        invariant
            i <= resolution + 1,
            1 <= resolution <= 100_000,
            envelope == spec_build_envelope(*p),
            envelope.wf(),
            points@.len() == i,
            forall|k: int|
                0 <= k < i ==> (#[trigger] points@[k]).0 == graph_x(k, resolution as int),
            forall|k: int|
                0 <= k < i ==> (#[trigger] points@[k]).1 == clamp0(
                    (ONE as int) - spec_build_envelope(*p).spec_process(
                        graph_x(k, resolution as int),
                    ),
                ),
        decreases resolution + 1 - i,
    {
        proof {
            lemma_graph_x_bounds(i as int, resolution as int);
        }
        let x = ((i as u64) * ONE) / (resolution as u64);
        let y = envelope.process(x);
        let v: u64 = if y >= ONE {
            0
        } else {
            ONE - y
        };
        points.push((x, v));
        i = i + 1;
    }
    points
}

/// Every sample point lies on the unit interval.
proof fn lemma_graph_x_bounds(i: int, resolution: int)
    requires
        0 <= i <= resolution,
        1 <= resolution,
    ensures
        0 <= graph_x(i, resolution) <= ONE,
{
    vstd::arithmetic::mul::lemma_mul_inequality(i, resolution, ONE as int);
    vstd::arithmetic::div_mod::lemma_div_is_ordered(
        i * (ONE as int),
        resolution * (ONE as int),
        resolution,
    );
    vstd::arithmetic::div_mod::lemma_div_by_multiple(ONE as int, resolution);
    vstd::arithmetic::mul::lemma_mul_is_commutative(resolution, ONE as int);
    vstd::arithmetic::mul::lemma_mul_nonnegative(i, ONE as int);
    vstd::arithmetic::div_mod::lemma_div_pos_is_pos(i * (ONE as int), resolution);
}

} // verus!
