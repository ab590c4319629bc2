//! Tests of the fixed-point scalar and vector algebra.

use raytrace::fixed::{Fx, SCALE};
use raytrace::vec3::Vec3;
use raytrace::interval::Interval;
use raytrace::ray::Ray;
use raytrace::utils::{degrees_to_radians, radians_to_degrees, RandomStream, rand_scalar, rand_scalar_in};
use raytrace::camera::tan_half_degrees;

fn fx(units: i64) -> Fx {
    Fx::from_int(units)
}

#[test]
fn fixed_mul_truncates_toward_zero() {
    // 1.5 * 1.5 = 2.25
    let a = Fx::from_raw(98304);
    assert_eq!(a.mul(a).raw, 147456);
    // (-1.5) * 1.5 = -2.25
    assert_eq!(a.neg().mul(a).raw, -147456);
    // tiny values truncate to zero from both sides
    assert_eq!(Fx::from_raw(255).mul(Fx::from_raw(255)).raw, 0);
    assert_eq!(Fx::from_raw(-255).mul(Fx::from_raw(255)).raw, 0);
}

#[test]
fn fixed_div_and_sqrt_exact_cases() {
    assert_eq!(fx(3).div(fx(2)).raw, 98304);
    assert_eq!(fx(-3).div(fx(2)).raw, -98304);
    assert_eq!(fx(9).sqrt().raw, 3 * SCALE);
    assert_eq!(fx(0).sqrt().raw, 0);
    // sqrt floors: sqrt(2) = 1.41421... -> 92681 raw
    assert_eq!(fx(2).sqrt().raw, 92681);
}

#[test]
fn vector_dot_cross_length() {
    let a = Vec3::from(fx(1), fx(2), fx(3));
    let b = Vec3::from(fx(4), fx(-5), fx(6));
    assert_eq!(Vec3::dot(a, b).raw, (4 - 10 + 18) * SCALE);
    let c = Vec3::cross(Vec3::unit_x(), Vec3::unit_y());
    assert_eq!((c.x.raw, c.y.raw, c.z.raw), (0, 0, SCALE));
    let v = Vec3::from(fx(3), fx(4), fx(0));
    assert_eq!(v.length_squared().raw, 25 * SCALE);
    assert_eq!(v.length().raw, 5 * SCALE);
    let u = Vec3::unit_vector(v);
    assert_eq!((u.x.raw, u.y.raw, u.z.raw), (39321, 52428, 0));
}

#[test]
fn stable_length_matches_plain_length_on_moderate_vectors() {
    let v = Vec3::from(fx(3), fx(4), fx(0));
    assert_eq!(v.stable_length().raw, 5 * SCALE);
    // at one raw quantum above the squaring threshold both forms agree and
    // stay positive, so the rejection sampler can normalize the draw
    let small = Vec3::from(Fx::from_raw(300), Fx::from_raw(0), Fx::from_raw(0));
    assert_eq!(small.stable_length_squared().raw, 1);
    // below the threshold the stable squared length collapses to zero, the
    // signal the sampler uses to redraw instead of dividing by zero
    let tiny = Vec3::from(Fx::from_raw(200), Fx::from_raw(150), Fx::from_raw(100));
    assert_eq!(tiny.length_squared().raw, 0);
    assert_eq!(tiny.stable_length_squared().raw, 0);
}

#[test]
fn near_zero_is_one_quantum() {
    assert!(Vec3::zeros().near_zero());
    assert!(!Vec3::from(Fx::from_raw(1), Fx::from_raw(0), Fx::from_raw(0)).near_zero());
}

#[test]
fn reflect_involution_on_exact_grid() {
    let v = Vec3::from(fx(1), fx(2), fx(3));
    let n = Vec3::unit_z();
    let r = Vec3::reflect(v, n);
    assert_eq!((r.x.raw, r.y.raw, r.z.raw), (SCALE, 2 * SCALE, -3 * SCALE));
    let rr = Vec3::reflect(r, n);
    assert_eq!((rr.x.raw, rr.y.raw, rr.z.raw), (SCALE, 2 * SCALE, 3 * SCALE));
}

#[test]
fn refract_straight_through_at_unit_ratio() {
    // at ratio one and normal incidence the direction is preserved
    let uv = Vec3::from(fx(0), fx(0), fx(-1));
    let n = Vec3::unit_z();
    let r = Vec3::refract(uv, n, fx(1));
    assert_eq!((r.x.raw, r.y.raw), (0, 0));
    assert!(r.z.raw < 0);
}

#[test]
fn interval_membership() {
    let i = Interval::from(fx(1), fx(3));
    assert!(i.contains(fx(1)) && i.contains(fx(3)) && i.contains(fx(2)));
    assert!(!i.surrounds(fx(1)) && !i.surrounds(fx(3)) && i.surrounds(fx(2)));
    assert_eq!(i.size().raw, 2 * SCALE);
    let e = Interval::empty();
    assert!(!e.contains(fx(0)));
    let u = Interval::universe();
    assert!(u.contains(fx(0)));
}

#[test]
fn ray_at_evaluates_linearly() {
    let r = Ray::from(Vec3::from(fx(1), fx(0), fx(0)), Vec3::from(fx(0), fx(2), fx(0)));
    let p = r.at(Fx::from_raw(98304));
    assert_eq!((p.x.raw, p.y.raw, p.z.raw), (SCALE, 3 * SCALE, 0));
    assert_eq!(r.time.raw, 0);
}

#[test]
fn angle_conversions_roundtrip_closely() {
    let d = fx(180);
    let r = degrees_to_radians(d);
    assert_eq!(r.raw, 205887);
    let back = radians_to_degrees(r);
    assert!((back.raw - 180 * SCALE).abs() <= 2);
}

#[test]
fn tan_half_of_right_angle_is_one() {
    assert_eq!(tan_half_degrees(fx(90)).raw, SCALE);
}

#[test]
fn random_draws_respect_ranges() {
    let mut rs = RandomStream::from_seed(7);
    for _ in 0..200 {
        let u = rand_scalar(&mut rs);
        assert!(0 <= u.raw && u.raw < SCALE);
        let v = rand_scalar_in(&mut rs, fx(-1), fx(1));
        assert!(-SCALE <= v.raw && v.raw < SCALE);
    }
}

#[test]
fn random_unit_vectors_are_unit_stable_length() {
    let mut rs = RandomStream::from_seed(11);
    for _ in 0..50 {
        let u = Vec3::random_unit_vector(&mut rs);
        // the stable squared length of the normalized vector is one, up to
        // one part in a few hundred of quantization
        let ls = u.stable_length_squared().raw;
        assert!((ls - SCALE).abs() < 1200, "stable squared length {ls}");
    }
}
