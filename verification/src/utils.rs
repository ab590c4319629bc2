//! Angle helpers and the explicit random-draw stream.

use vstd::prelude::*;
use crate::fixed::{Fx, SCALE, fmul, fdiv, in_raw, sabs, lemma_tdiv_bounds, lemma_tdiv_mono};

verus! {

/// Fixed-point value of the circle constant pi, in 1/65536 units.
pub const PI_RAW: i64 = 205887;

#[verifier::external_type_specification]
#[verifier::external_body]
pub struct ExStdRng(rand::rngs::StdRng);

/// Relies on rand::SeedableRng::seed_from_u64: builds a generator whose
/// draws are a fixed function of the seed.
#[verifier::external_body]
fn std_rng_from_seed(seed: u64) -> rand::rngs::StdRng {
    <rand::rngs::StdRng as rand::SeedableRng>::seed_from_u64(seed)
}

/// Relies on rand::RngExt::random_range over `0..n`: the draw lies in that
/// range, hence strictly below `n`. The call panics only on an empty range,
/// which the precondition rules out.
#[verifier::external_body]
fn std_rng_below(rng: &mut rand::rngs::StdRng, n: u64) -> (r: u64)
    requires
        n >= 1,
    ensures
        r < n,
{
    rand::RngExt::random_range(rng, 0..n)
}

/// An explicit stream of pseudo-random draws. Every operation that needs
/// entropy takes one, so callers control seeding and stream isolation.
pub struct RandomStream {
    rng: rand::rngs::StdRng,
}

impl RandomStream {
    /// A stream whose draws are determined by the seed.
    pub fn from_seed(seed: u64) -> RandomStream {
        RandomStream { rng: std_rng_from_seed(seed) }
    }

    /// A draw uniform in `[0, n)`.
    pub fn next_below(&mut self, n: u64) -> (r: u64)
        requires
            n >= 1,
        ensures
            r < n,
    {
        std_rng_below(&mut self.rng, n)
    }
}

/// A scalar uniform on the raw grid of `[0, 1)`.
pub fn rand_scalar(rs: &mut RandomStream) -> (r: Fx)
    ensures
        0 <= r@ < SCALE as int,
{
    let u = rs.next_below(SCALE as u64);
    Fx { raw: u as i64 }
}

/// A scalar uniform on the raw grid of `[min, max)`.
pub fn rand_scalar_in(rs: &mut RandomStream, min: Fx, max: Fx) -> (r: Fx)
    requires
        min@ < max@,
        in_raw(max@ - min@),
    ensures
        min@ <= r@ < max@,
{
    let d = max.raw - min.raw;
    let u = rs.next_below(d as u64);
    Fx { raw: min.raw + (u as i64) }
}

/// Degrees to radians: `d * pi / 180`, in fixed point.
pub fn degrees_to_radians(d: Fx) -> (r: Fx)
    requires
        in_raw(fmul(d@, PI_RAW as int)),
    ensures
        r@ == fdiv(fmul(d@, PI_RAW as int), 180 * SCALE as int),
{
    proof {
        let p = fmul(d@, PI_RAW as int);
        assert(sabs(p * SCALE as int) <= sabs(p) * (180 * SCALE as int)) by (nonlinear_arith);
        lemma_tdiv_bounds(p * SCALE as int, 180 * SCALE as int, sabs(p));
    }
    let p = d.mul(Fx { raw: PI_RAW });
    p.div(Fx { raw: 180 * SCALE })
}

/// Radians to degrees: `r * 180 / pi`, in fixed point.
pub fn radians_to_degrees(r: Fx) -> (d: Fx)
    requires
        in_raw(fmul(r@, 180 * SCALE as int)),
    ensures
        d@ == fdiv(fmul(r@, 180 * SCALE as int), PI_RAW as int),
{
    proof {
        let p = fmul(r@, 180 * SCALE as int);
        assert(sabs(p * SCALE as int) <= sabs(p) * (PI_RAW as int)) by (nonlinear_arith);
        lemma_tdiv_bounds(p * SCALE as int, PI_RAW as int, sabs(p));
    }
    let p = r.mul(Fx { raw: 180 * SCALE });
    p.div(Fx { raw: PI_RAW })
}

} // verus!
