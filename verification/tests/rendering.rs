//! End-to-end tests of the camera, the integrator, and the pixel pipeline.

use raytrace::fixed::{Fx, SCALE};
use raytrace::vec3::Vec3;
use raytrace::ray::Ray;
use raytrace::hittable::Sphere;
use raytrace::hittable_list::HittableList;
use raytrace::material::{Material, Lambertian};
use raytrace::camera::Camera;
use raytrace::color::{linear_to_gamma, component_to_byte, write_color};
use raytrace::image::Image;
use raytrace::utils::RandomStream;

fn fx(units: i64) -> Fx {
    Fx::from_int(units)
}

fn gray() -> Material {
    Material::Lambertian(Lambertian::from(Vec3::from(
        Fx::from_raw(32768),
        Fx::from_raw(32768),
        Fx::from_raw(32768),
    )))
}

fn two_sphere_scene() -> HittableList {
    let mut world = HittableList::new();
    // a small sphere ahead of the camera and a large ground sphere below
    world.add(Sphere::from(Vec3::from(fx(0), fx(0), fx(-1)), Fx::from_raw(32768), gray()));
    world.add(Sphere::from(
        Vec3::from(fx(0), Fx::from_raw(-6586368), fx(-1)),
        fx(100),
        gray(),
    ));
    world
}

fn test_camera(image: &Image, samples: u32, depth: u32) -> Camera {
    Camera::from(
        image,
        samples,
        depth,
        fx(90),
        Vec3::from(fx(0), fx(0), fx(0)),
        Vec3::from(fx(0), fx(0), fx(-1)),
        Vec3::unit_y(),
        fx(0),
        fx(1),
    )
}

fn pixel(image: &Image, x: u32, y: u32) -> (u8, u8, u8) {
    let base = 3 * ((y as usize) * (image.width as usize) + (x as usize));
    (image.pixels[base], image.pixels[base + 1], image.pixels[base + 2])
}

#[test]
fn image_from_derives_height() {
    let ar = fx(16).div(fx(9));
    let img = Image::from(ar, 400);
    assert_eq!(img.width, 400);
    assert_eq!(img.height, 225);
    assert_eq!(img.pixels.len(), 400 * 225 * 3);
    assert!(img.pixels.iter().all(|&b| b == 0));
}

#[test]
fn gamma_and_quantization() {
    // linear 1/4 has gamma 1/2, which quantizes to byte 128
    let g = linear_to_gamma(Fx::from_raw(16384));
    assert_eq!(g.raw, 32768);
    assert_eq!(component_to_byte(g), 128);
    // negative light clamps to zero, full intensity to 255 and not beyond
    assert_eq!(component_to_byte(fx(-1)), 0);
    assert_eq!(component_to_byte(fx(1)), 255);
    assert_eq!(component_to_byte(fx(3)), 255);
}

#[test]
fn write_color_places_bytes_row_major() {
    let mut img = Image::from(fx(1), 4);
    assert_eq!(img.height, 4);
    write_color(&mut img, 2, 1, Vec3::from(Fx::from_raw(16384), fx(0), fx(1)));
    assert_eq!(pixel(&img, 2, 1), (128, 0, 255));
    assert_eq!(pixel(&img, 1, 1), (0, 0, 0));
}

#[test]
fn depth_one_render_is_flat_hit_black_miss_sky() {
    let mut img = Image::from(fx(2), 16);
    assert_eq!(img.height, 8);
    let cam = test_camera(&img, 1, 1);
    let world = two_sphere_scene();
    assert!(world.wf_check());
    let mut rs = RandomStream::from_seed(1);
    cam.render(&mut img, &world, &mut rs);
    // a pixel looking down strikes a sphere: at one bounce of budget the
    // scattered ray has no depth left, so the pixel is black
    let (hr, hg, hb) = pixel(&img, 8, 6);
    assert_eq!((hr, hg, hb), (0, 0, 0));
    // a pixel looking up misses everything: the sky gradient, bluer than red
    let (sr, sg, sb) = pixel(&img, 8, 0);
    assert!(sr > 100, "sky red {sr}");
    assert!(sr < sg && sg < sb, "sky gradient {sr} {sg} {sb}");
}

#[test]
fn render_with_same_seed_is_reproducible() {
    let mut a = Image::from(fx(2), 8);
    let mut b = Image::from(fx(2), 8);
    let cam = test_camera(&a, 4, 4);
    let world = two_sphere_scene();
    let mut rs1 = RandomStream::from_seed(33);
    let mut rs2 = RandomStream::from_seed(33);
    cam.render(&mut a, &world, &mut rs1);
    cam.render(&mut b, &world, &mut rs2);
    assert_eq!(a.pixels, b.pixels);
}

#[test]
fn row_by_row_rendering_matches_whole_render() {
    let mut a = Image::from(fx(2), 8);
    let mut b = Image::from(fx(2), 8);
    let cam = test_camera(&a, 2, 3);
    let world = two_sphere_scene();
    let mut rs1 = RandomStream::from_seed(77);
    let mut rs2 = RandomStream::from_seed(77);
    cam.render(&mut a, &world, &mut rs1);
    for y in 0..b.height {
        cam.render_row(&mut b, y, &world, &mut rs2);
    }
    assert_eq!(a.pixels, b.pixels);
}

#[test]
fn dielectric_below_unit_index_scatters() {
    // a refraction index below one (a medium thinner than the surround) is
    // accepted and still always scatters white
    let mat = raytrace::material::Dielectric::from(Fx::from_raw(43690));
    let s = Sphere::from(Vec3::zeros(), fx(1), raytrace::material::Material::Dielectric(mat));
    let ray = Ray::from(Vec3::from(fx(0), fx(0), fx(3)), Vec3::from(fx(0), fx(0), fx(-1)));
    let rec = s.hit(
        ray,
        raytrace::interval::Interval::from(Fx::from_raw(65), Fx::from_raw(1 << 36)),
    ).unwrap();
    let mut rs = RandomStream::from_seed(4);
    let (scattered, att) = mat.scatter(ray, &rec, &mut rs).unwrap();
    assert_eq!((att.x.raw, att.y.raw, att.z.raw), (SCALE, SCALE, SCALE));
    assert_eq!(scattered.origin.z.raw, rec.p.z.raw);
}

#[test]
fn smooth_metal_never_absorbs_clean_reflection() {
    // with zero fuzz a reflection off the front face always scatters
    let mat = raytrace::material::Metal::from(
        Vec3::from(Fx::from_raw(45875), Fx::from_raw(39321), Fx::from_raw(32768)),
        fx(0),
    );
    let s = Sphere::from(Vec3::zeros(), fx(1), raytrace::material::Material::Metal(mat));
    let ray = Ray::from(Vec3::from(fx(0), fx(0), fx(3)), Vec3::from(fx(0), fx(0), fx(-1)));
    let rec = s.hit(
        ray,
        raytrace::interval::Interval::from(Fx::from_raw(65), Fx::from_raw(1 << 36)),
    ).unwrap();
    let mut rs = RandomStream::from_seed(6);
    for _ in 0..20 {
        assert!(mat.scatter(ray, &rec, &mut rs).is_some());
    }
}

#[test]
fn zero_samples_and_zero_depth_render_black() {
    let world = two_sphere_scene();
    let mut img = Image::from(fx(2), 8);
    let cam = test_camera(&img, 0, 5);
    let mut rs = RandomStream::from_seed(2);
    cam.render(&mut img, &world, &mut rs);
    assert!(img.pixels.iter().all(|&b| b == 0));

    let mut img2 = Image::from(fx(2), 8);
    let cam2 = test_camera(&img2, 3, 0);
    let mut rs2 = RandomStream::from_seed(2);
    cam2.render(&mut img2, &world, &mut rs2);
    assert!(img2.pixels.iter().all(|&b| b == 0));
}

fn mean_diffuse_sample(seed: u64, n: usize) -> i64 {
    // a fully diffuse, non-recursive scene: one bounce off a gray sphere,
    // then the sky
    let mut world = HittableList::new();
    world.add(Sphere::from(Vec3::zeros(), fx(1), gray()));
    let ray = Ray::from(Vec3::from(fx(0), fx(0), fx(3)), Vec3::from(fx(0), fx(0), fx(-1)));
    let mut rs = RandomStream::from_seed(seed);
    let mut sum: i64 = 0;
    for _ in 0..n {
        let c = Camera::ray_color(ray, 2, &world, &mut rs);
        sum += c.z.raw;
    }
    sum / (n as i64)
}

#[test]
fn sample_averages_converge_with_more_samples() {
    // variance reduction: with a fixed seed the gap between successive
    // sample means shrinks as the sample count grows
    let m8 = mean_diffuse_sample(42, 8);
    let m32 = mean_diffuse_sample(42, 32);
    let m128 = mean_diffuse_sample(42, 128);
    let m512 = mean_diffuse_sample(42, 512);
    assert!((m512 - m128).abs() <= (m8 - m32).abs() + 700, "{m8} {m32} {m128} {m512}");
    // sanity: the mean is a plausible half-albedo sky bounce
    assert!(0 < m512 && m512 < SCALE);
    // unbiasedness: two independent streams agree on the large-sample mean
    let other = mean_diffuse_sample(1337, 512);
    assert!((m512 - other).abs() <= 3000, "{m512} {other}");
}
