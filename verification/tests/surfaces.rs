//! Tests of spheres, hit records, the composite list, and materials.

use raytrace::fixed::{Fx, SCALE};
use raytrace::vec3::Vec3;
use raytrace::interval::Interval;
use raytrace::ray::Ray;
use raytrace::hittable::Sphere;
use raytrace::hittable_list::HittableList;
use raytrace::material::{Material, Lambertian, Metal, Dielectric};
use raytrace::utils::RandomStream;

fn fx(units: i64) -> Fx {
    Fx::from_int(units)
}

fn gray() -> Material {
    Material::Lambertian(Lambertian::from(Vec3::from(
        Fx::from_raw(32768),
        Fx::from_raw(32768),
        Fx::from_raw(32768),
    )))
}

#[test]
fn axis_ray_from_outside_hits_at_distance_minus_radius() {
    let s = Sphere::from(Vec3::zeros(), fx(1), gray());
    let ray = Ray::from(Vec3::from(fx(0), fx(0), fx(3)), Vec3::from(fx(0), fx(0), fx(-1)));
    let rec = s.hit(ray, Interval::from(Fx::from_raw(65), Fx::from_raw(1 << 36))).unwrap();
    assert_eq!(rec.t.raw, 2 * SCALE);
    assert!(rec.front_face);
    assert_eq!((rec.normal.x.raw, rec.normal.y.raw, rec.normal.z.raw), (0, 0, SCALE));
    // the normal is exactly unit length
    assert_eq!(rec.normal.length_squared().raw, SCALE);
    assert_eq!((rec.p.x.raw, rec.p.y.raw, rec.p.z.raw), (0, 0, SCALE));
}

#[test]
fn axis_ray_from_inside_reports_back_face() {
    let s = Sphere::from(Vec3::zeros(), fx(1), gray());
    let ray = Ray::from(
        Vec3::from(fx(0), fx(0), Fx::from_raw(32768)),
        Vec3::from(fx(0), fx(0), fx(-1)),
    );
    let rec = s.hit(ray, Interval::from(Fx::from_raw(65), Fx::from_raw(1 << 36))).unwrap();
    assert!(!rec.front_face);
    assert_eq!(rec.t.raw, 98304);
    // the geometric outward normal at (0,0,-1) points down; the stored
    // normal is flipped inward, against the ray
    assert_eq!((rec.normal.x.raw, rec.normal.y.raw, rec.normal.z.raw), (0, 0, SCALE));
}

#[test]
fn ray_misses_and_tangents() {
    let s = Sphere::from(Vec3::zeros(), fx(1), gray());
    let miss = Ray::from(Vec3::from(fx(0), fx(3), fx(3)), Vec3::from(fx(0), fx(0), fx(-1)));
    assert!(s.hit(miss, Interval::from(Fx::from_raw(65), Fx::from_raw(1 << 36))).is_none());
    // a hit behind the interval is rejected
    let behind = Ray::from(Vec3::from(fx(0), fx(0), fx(3)), Vec3::from(fx(0), fx(0), fx(1)));
    assert!(s.hit(behind, Interval::from(Fx::from_raw(65), Fx::from_raw(1 << 36))).is_none());
}

#[test]
fn negative_radius_clamps_to_zero_and_never_hits() {
    let s = Sphere::from(Vec3::zeros(), fx(-2), gray());
    assert_eq!(s.radius.raw, 0);
    let ray = Ray::from(Vec3::from(fx(0), fx(0), fx(3)), Vec3::from(fx(0), fx(0), fx(-1)));
    assert!(s.hit(ray, Interval::from(Fx::from_raw(65), Fx::from_raw(1 << 36))).is_none());
}

#[test]
fn moving_sphere_center_follows_time() {
    let s = Sphere::with_time(
        Vec3::zeros(),
        Vec3::from(fx(0), fx(1), fx(0)),
        fx(1),
        gray(),
    );
    assert_eq!(s.center.direction.y.raw, SCALE);
    // at time one half the center has moved half a unit up: a ray aimed
    // there hits
    let ray = Ray::with_time(
        Vec3::from(fx(0), Fx::from_raw(32768), fx(3)),
        Vec3::from(fx(0), fx(0), fx(-1)),
        Fx::from_raw(32768),
    );
    let rec = s.hit(ray, Interval::from(Fx::from_raw(65), Fx::from_raw(1 << 36))).unwrap();
    assert_eq!(rec.t.raw, 2 * SCALE);
}

#[test]
fn list_returns_closest_hit_in_either_order() {
    let a = Sphere::from(Vec3::zeros(), fx(1), gray());
    let b = Sphere::from(Vec3::from(fx(0), fx(0), fx(1)), fx(1), gray());
    let ray = Ray::from(Vec3::from(fx(0), fx(0), fx(5)), Vec3::from(fx(0), fx(0), fx(-1)));
    let lo = Fx::from_raw(65);
    let hi = Fx::from_raw(1 << 36);

    let mut ab = HittableList::new();
    ab.add(a);
    ab.add(b);
    let mut ba = HittableList::new();
    ba.add(b);
    ba.add(a);

    let rab = ab.hit(ray, Interval::from(lo, hi)).unwrap();
    let rba = ba.hit(ray, Interval::from(lo, hi)).unwrap();
    assert_eq!(rab.t.raw, 3 * SCALE);
    assert_eq!(rba.t.raw, 3 * SCALE);
    assert_eq!(rab.p.z.raw, rba.p.z.raw);
}

#[test]
fn list_clear_empties() {
    let mut l = HittableList::new();
    l.add(Sphere::from(Vec3::zeros(), fx(1), gray()));
    l.clear();
    let ray = Ray::from(Vec3::from(fx(0), fx(0), fx(3)), Vec3::from(fx(0), fx(0), fx(-1)));
    assert!(l.hit(ray, Interval::from(Fx::from_raw(65), Fx::from_raw(1 << 36))).is_none());
}

#[test]
fn metal_fuzz_clamps_to_unit_interval() {
    let c = Vec3::from(Fx::from_raw(32768), Fx::from_raw(32768), Fx::from_raw(32768));
    assert_eq!(Metal::from(c, fx(2)).fuzz.raw, SCALE);
    assert_eq!(Metal::from(c, fx(-1)).fuzz.raw, 0);
    assert_eq!(Metal::from(c, Fx::from_raw(100)).fuzz.raw, 100);
}

#[test]
fn schlick_reflectance_at_normal_incidence_equals_r0() {
    // at cos = 1 the fifth-power term vanishes and the result is exactly r0
    let r = Dielectric::reflectance(fx(1), Fx::from_raw(98304));
    assert_eq!(r.raw, 2621);
    // at grazing incidence (cos = 0) the approximation reaches one exactly
    let g = Dielectric::reflectance(fx(0), Fx::from_raw(98304));
    assert_eq!(g.raw, SCALE);
}

#[test]
fn lambertian_scatter_starts_at_hit_point_with_albedo() {
    let mat = Lambertian::from(Vec3::from(
        Fx::from_raw(26214),
        Fx::from_raw(13107),
        Fx::from_raw(6553),
    ));
    let s = Sphere::from(Vec3::zeros(), fx(1), Material::Lambertian(mat));
    let ray = Ray::from(Vec3::from(fx(0), fx(0), fx(3)), Vec3::from(fx(0), fx(0), fx(-1)));
    let rec = s.hit(ray, Interval::from(Fx::from_raw(65), Fx::from_raw(1 << 36))).unwrap();
    let mut rs = RandomStream::from_seed(3);
    let (scattered, att) = mat.scatter(ray, &rec, &mut rs).unwrap();
    assert_eq!((att.x.raw, att.y.raw, att.z.raw), (26214, 13107, 6553));
    assert_eq!(scattered.origin.z.raw, rec.p.z.raw);
    assert_eq!(scattered.time.raw, 0);
    // the scatter direction leans along the outward normal
    assert!(scattered.direction.z.raw > 0);
}

#[test]
fn smooth_metal_reflects_exactly() {
    let mat = Metal::from(
        Vec3::from(Fx::from_raw(45875), Fx::from_raw(39321), Fx::from_raw(32768)),
        fx(0),
    );
    let s = Sphere::from(Vec3::zeros(), fx(1), Material::Metal(mat));
    // a 45-degree ray onto the top of the sphere
    let ray = Ray::from(Vec3::from(fx(-2), fx(3), fx(0)), Vec3::from(fx(1), fx(-1), fx(0)));
    let rec = s.hit(ray, Interval::from(Fx::from_raw(65), Fx::from_raw(1 << 36))).unwrap();
    let mut rs = RandomStream::from_seed(5);
    let (scattered, _) = mat.scatter(ray, &rec, &mut rs).unwrap();
    // with zero fuzz the reflected direction still points away from the
    // surface
    assert!(Vec3::dot(scattered.direction, rec.normal).raw > 0);
}

#[test]
fn dielectric_always_scatters_white() {
    let mat = Dielectric::from(Fx::from_raw(98304));
    let s = Sphere::from(Vec3::zeros(), fx(1), Material::Dielectric(mat));
    let ray = Ray::from(Vec3::from(fx(0), fx(0), fx(3)), Vec3::from(fx(0), fx(0), fx(-1)));
    let rec = s.hit(ray, Interval::from(Fx::from_raw(65), Fx::from_raw(1 << 36))).unwrap();
    let mut rs = RandomStream::from_seed(9);
    for _ in 0..20 {
        let (scattered, att) = mat.scatter(ray, &rec, &mut rs).unwrap();
        assert_eq!((att.x.raw, att.y.raw, att.z.raw), (SCALE, SCALE, SCALE));
        assert_eq!(scattered.origin.z.raw, rec.p.z.raw);
    }
}
