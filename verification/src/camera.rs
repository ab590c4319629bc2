//! The camera and the integrator: ray generation with anti-aliasing,
//! depth-of-field and motion blur, the depth-bounded recursive color
//! estimator, and the per-pixel sample accumulation loop.

use vstd::prelude::*;
use crate::fixed::{
    Fx, SCALE, fmul, fdiv, tdiv, sabs, in_raw, sqrt_floor, lemma_fmul_bounds, lemma_fdiv_coarse,
    lemma_tdiv_mul_exact, lemma_tdiv_bounds,
};
use crate::vec3::{
    Vec3, Point3, V3, vadd, vsub, vneg, vscale, vcmul, vcross, vdivs, vdot, vlen2, vunit, vbounded,
    lemma_vlen2_nonneg, lemma_vdot_range, lemma_fmul_sq_nonneg, UNIT_MAX,
};
use crate::ray::Ray;
use crate::interval::Interval;
use crate::hittable::{Sphere, HitRecord, GEOM_MAX, T_MAX, ray_in_range};
use crate::hittable_list::{HittableList, list_hit_spec};
use crate::material::{Material, color_wf, mat_wf};
use crate::color::{Color, write_color};
use crate::image::Image;
use crate::utils::{RandomStream, rand_scalar, PI_RAW};

verus! {

/// The shadow-acne epsilon: scattered rays ignore intersections closer than
/// about a thousandth of a unit.
pub const SHADOW_EPS: i64 = 65;

/// The far bound standing in for infinity in intersection queries.
pub const T_FAR: i64 = 68719476736;

/// Bound on the magnitude of every color component the integrator returns:
/// three units.
pub const COLOR_MAX: i64 = 196608;

/// The truncated sine series, exact over the fixed-point grid.
pub open spec fn sin_poly(x: int) -> int {
    let x2 = fmul(x, x);
    let x3 = fmul(x2, x);
    let x5 = fmul(x3, x2);
    let x7 = fmul(x5, x2);
    x - tdiv(x3, 6) + tdiv(x5, 120) - tdiv(x7, 5040)
}

/// The truncated cosine series, exact over the fixed-point grid.
pub open spec fn cos_poly(x: int) -> int {
    let x2 = fmul(x, x);
    let x4 = fmul(x2, x2);
    let x6 = fmul(x4, x2);
    let x8 = fmul(x4, x4);
    (SCALE as int) - tdiv(x2, 2) + tdiv(x4, 24) - tdiv(x6, 720) + tdiv(x8, 40320)
}

/// Tangent of half the given angle in degrees, by the series quotient; the
/// cosine is floored at one quantum and the result clamped to sixteen units,
/// guards that never fire for ordinary fields of view.
pub open spec fn tan_half_spec(deg: int) -> int {
    let x = tdiv(fmul(deg, PI_RAW as int), 360);
    let s = sin_poly(x);
    let c0 = cos_poly(x);
    let c = if c0 < 1 {
        1
    } else {
        c0
    };
    let t = fdiv(s, c);
    if t > 1048576 {
        1048576
    } else if t < -1048576 {
        -1048576
    } else {
        t
    }
}

/// The viewport point a sub-pixel sample maps to.
pub open spec fn pixel_sample_spec(c: Camera, x: int, y: int, ox: int, oy: int) -> V3 {
    vadd(
        vadd(c.pixel00@, vscale(x * (SCALE as int) + ox, c.delta_x@)),
        vscale(y * (SCALE as int) + oy, c.delta_y@),
    )
}

/// The background: a vertical blend from white to sky blue by the normalized
/// direction's vertical component.
pub open spec fn sky_spec(dir: V3) -> V3 {
    let ud = vunit(dir);
    let a = fmul(32768, ud.y + (SCALE as int));
    vadd(
        vscale(
            (SCALE as int) - a,
            V3 { x: SCALE as int, y: SCALE as int, z: SCALE as int },
        ),
        vscale(a, V3 { x: 32768, y: 45875, z: SCALE as int }),
    )
}

/// A ray the camera may fire for pixel `(x, y)`: shutter time in `[0, 1)`,
/// origin on the defocus disk (exactly the center when the defocus angle is
/// not positive), and direction toward a sub-pixel sample point.
pub open spec fn camera_ray_spec(c: Camera, x: int, y: int, r: Ray) -> bool {
    &&& 0 <= r.time@ < SCALE as int
    &&& exists|ox: int, oy: int, p: V3|
        {
            &&& -32768 <= ox <= 32767
            &&& -32768 <= oy <= 32767
            &&& vbounded(p, SCALE as int)
            &&& p.z == 0
            &&& (c.defocus_angle@ <= 0 ==> p == (V3 { x: 0, y: 0, z: 0 }))
            &&& r.origin@ == vadd(
                c.center@,
                vadd(vscale(p.x, c.defocus_u@), vscale(p.y, c.defocus_v@)),
            )
            &&& r.direction@ == vsub(pixel_sample_spec(c, x, y, ox, oy), r.origin@)
        }
}

/// One link of a trace: the previous ray was in range, struck the scene,
/// had a usable normal, and its material scattered it into the next ray
/// with a well-formed attenuation.
pub open spec fn trace_linked(world: Seq<Sphere>, prev: Ray, next: Ray, att: V3) -> bool {
    &&& ray_in_range(prev)
    &&& list_hit_spec(world, prev, SHADOW_EPS as int, T_FAR as int) is Some
    &&& {
        let h = list_hit_spec(world, prev, SHADOW_EPS as int, T_FAR as int).unwrap();
        &&& vbounded(h.normal, UNIT_MAX as int)
        &&& crate::material::scatter_some_spec(
            h.material,
            prev,
            h.normal,
            h.p,
            h.front_face,
            next,
            att,
        )
        &&& color_wf(att)
    }
}

/// How a trace ends at its last ray with `depth_left` bounces unspent:
/// black at exhausted depth, out of numeric range, on a degenerate miss, on
/// an unusable normal, or on absorption; the sky blend on a proper miss.
pub open spec fn trace_end(world: Seq<Sphere>, r: Ray, depth_left: nat, t: V3) -> bool {
    if depth_left == 0 {
        t == (V3 { x: 0, y: 0, z: 0 })
    } else if !ray_in_range(r) {
        t == (V3 { x: 0, y: 0, z: 0 })
    } else if list_hit_spec(world, r, SHADOW_EPS as int, T_FAR as int) is None {
        if vlen2(r.direction@) >= 1 {
            t == sky_spec(r.direction@)
        } else {
            t == (V3 { x: 0, y: 0, z: 0 })
        }
    } else {
        let h = list_hit_spec(world, r, SHADOW_EPS as int, T_FAR as int).unwrap();
        if !vbounded(h.normal, UNIT_MAX as int) {
            t == (V3 { x: 0, y: 0, z: 0 })
        } else {
            crate::material::scatter_none_spec(h.material, r, h.normal) && t == (V3 {
                x: 0,
                y: 0,
                z: 0,
            })
        }
    }
}

/// The attenuation product folded over the terminal color, from step `i` on.
pub open spec fn att_fold(atts: Seq<V3>, i: int, t: V3) -> V3
    decreases atts.len() - i,
{
    if i < 0 || i >= atts.len() {
        t
    } else {
        vcmul(atts[i], att_fold(atts, i + 1, t))
    }
}

/// A finite trace realizes the color `c` for `ray` under a depth budget:
/// `rays` starts at `ray`, consecutive rays are linked by scatter events
/// with the recorded attenuations, the last ray terminates with the unspent
/// budget, and `c` is the folded attenuation product of the terminal color.
pub open spec fn trace_realizes(
    world: Seq<Sphere>,
    ray: Ray,
    depth: nat,
    rays: Seq<Ray>,
    atts: Seq<V3>,
    t: V3,
    c: V3,
) -> bool {
    &&& rays.len() == atts.len() + 1
    &&& atts.len() <= depth
    &&& rays[0] == ray
    &&& forall|i: int|
        0 <= i < atts.len() ==> trace_linked(world, rays[i], rays[i + 1], #[trigger] atts[i])
    &&& trace_end(world, rays[rays.len() - 1], (depth - atts.len()) as nat, t)
    &&& c == att_fold(atts, 0, t)
}

/// What the depth-bounded integrator may return for a ray, whatever the
/// random draws: some finite trace of scatter events realizes the color.
pub open spec fn color_of_trace(world: Seq<Sphere>, ray: Ray, depth: nat, c: V3) -> bool {
    exists|rays: Seq<Ray>, atts: Seq<V3>, t: V3|
        #[trigger] trace_realizes(world, ray, depth, rays, atts, t, c)
}

/// A ray that terminates at once realizes its terminal color directly.
proof fn lemma_trace_single(world: Seq<Sphere>, ray: Ray, depth: nat, t: V3)
    requires
        trace_end(world, ray, depth, t),
    ensures
        color_of_trace(world, ray, depth, t),
{
    let rays = seq![ray];
    let atts = Seq::<V3>::empty();
    assert(rays[0] == ray);
    assert(att_fold(atts, 0, t) == t);
    assert(trace_realizes(world, ray, depth, rays, atts, t, t));
}

/// Prepending one step shifts the fold by one index.
proof fn lemma_att_fold_shift(a: V3, s: Seq<V3>, i: int, t: V3)
    requires
        0 <= i <= s.len(),
    ensures
        att_fold(seq![a] + s, i + 1, t) == att_fold(s, i, t),
    decreases s.len() - i,
{
    let cons = seq![a] + s;
    assert(cons.len() == s.len() + 1);
    if i == s.len() {
        assert(att_fold(cons, i + 1, t) == t);
        assert(att_fold(s, i, t) == t);
    } else {
        assert(cons[i + 1] == s[i]);
        lemma_att_fold_shift(a, s, i + 1, t);
    }
}

/// Packaging of the scatter-and-recurse facts into one more trace step.
proof fn lemma_trace_cons(
    world: Seq<Sphere>,
    ray: Ray,
    depth: nat,
    h: crate::hittable::HitSpec,
    s: Ray,
    att: V3,
    sub: V3,
    c: V3,
)
    requires
        depth > 0,
        ray_in_range(ray),
        list_hit_spec(world, ray, SHADOW_EPS as int, T_FAR as int) == Option::Some(h),
        vbounded(h.normal, UNIT_MAX as int),
        crate::material::scatter_some_spec(h.material, ray, h.normal, h.p, h.front_face, s, att),
        color_wf(att),
        color_of_trace(world, s, (depth - 1) as nat, sub),
        c == vcmul(att, sub),
    ensures
        color_of_trace(world, ray, depth, c),
{
    let (rays2, atts2, t2) = choose|rays2: Seq<Ray>, atts2: Seq<V3>, t2: V3|
        #[trigger] trace_realizes(world, s, (depth - 1) as nat, rays2, atts2, t2, sub);
    let rays = seq![ray] + rays2;
    let atts = seq![att] + atts2;
    assert(rays.len() == rays2.len() + 1 && atts.len() == atts2.len() + 1);
    assert(rays[0] == ray);
    assert(rays2[0] == s);
    assert(trace_linked(world, ray, s, att)) by {
        assert(list_hit_spec(world, ray, SHADOW_EPS as int, T_FAR as int).unwrap() == h);
    }
    assert forall|i: int| 0 <= i < atts.len() implies trace_linked(
        world,
        rays[i],
        rays[i + 1],
        #[trigger] atts[i],
    ) by {
        if i == 0 {
            assert(rays[1] == rays2[0]);
            assert(atts[0] == att);
        } else {
            assert(rays[i] == rays2[i - 1] && rays[i + 1] == rays2[i] && atts[i] == atts2[i - 1]);
            assert(trace_linked(world, rays2[i - 1], rays2[i], atts2[i - 1]));
        }
    }
    assert(rays[rays.len() - 1] == rays2[rays2.len() - 1]);
    assert((depth - atts.len()) as nat == ((depth - 1) - atts2.len()) as nat);
    assert(trace_end(world, rays[rays.len() - 1], (depth - atts.len()) as nat, t2));
    assert(att_fold(atts, 0, t2) == vcmul(atts[0], att_fold(atts, 1, t2)));
    lemma_att_fold_shift(att, atts2, 0, t2);
    assert(att_fold(atts, 0, t2) == vcmul(att, att_fold(atts2, 0, t2)));
    assert(c == att_fold(atts, 0, t2));
    assert(trace_realizes(world, ray, depth, rays, atts, t2, c));
}

/// A camera: derived viewport geometry and sampling parameters, immutable
/// after construction.
pub struct Camera {
    pub image_width: u32,
    pub image_height: u32,
    pub samples_per_pixel: u32,
    pub max_depth: u32,
    pub center: Point3,
    pub pixel00: Vec3,
    pub delta_x: Vec3,
    pub delta_y: Vec3,
    pub defocus_angle: Fx,
    pub defocus_u: Vec3,
    pub defocus_v: Vec3,
}

impl Camera {
    /// Field bounds under which every ray-generation product stays in range.
    pub open spec fn wf(&self) -> bool {
        &&& self.image_width <= 16384
        &&& self.image_height <= 16384
        &&& self.samples_per_pixel <= 1048576
        &&& self.max_depth <= 1048576
        &&& vbounded(self.center@, 1073741824)
        &&& vbounded(self.pixel00@, 35184372088832)
        &&& vbounded(self.delta_x@, 17592186044416)
        &&& vbounded(self.delta_y@, 17592186044416)
        &&& 0 <= self.defocus_angle@
        &&& vbounded(self.defocus_u@, 1073741824)
        &&& vbounded(self.defocus_v@, 2147483648)
    }

    /// The zero camera: renders nothing.
    pub fn new() -> (r: Camera)
        ensures
            r.wf(),
            r.image_width == 0,
            r.image_height == 0,
    {
        Camera {
            image_width: 0,
            image_height: 0,
            samples_per_pixel: 0,
            max_depth: 0,
            center: Vec3::zeros(),
            pixel00: Vec3::zeros(),
            delta_x: Vec3::zeros(),
            delta_y: Vec3::zeros(),
            defocus_angle: Fx { raw: 0 },
            defocus_u: Vec3::zeros(),
            defocus_v: Vec3::zeros(),
        }
    }
}

/// Tangent of half the angle given in degrees.
pub fn tan_half_degrees(deg: Fx) -> (r: Fx)
    requires
        sabs(deg@) <= 11796480,
    ensures
        r@ == tan_half_spec(deg@),
        sabs(r@) <= 1048576,
{
    proof {
        lemma_fmul_bounds(deg@, PI_RAW as int, 11796480, PI_RAW as int);
        assert(11796480 * (PI_RAW as int) <= 37059660 * (SCALE as int)) by (nonlinear_arith);
        lemma_tdiv_bounds(11796480 * (PI_RAW as int), SCALE as int, 37059660);
        crate::fixed::lemma_tdiv_mono(
            -(11796480 * (PI_RAW as int)),
            deg@ * (PI_RAW as int),
            SCALE as int,
        );
        crate::fixed::lemma_tdiv_mono(
            deg@ * (PI_RAW as int),
            11796480 * (PI_RAW as int),
            SCALE as int,
        );
    }
    let prod = deg.mul(Fx { raw: PI_RAW });
    let x = prod.div_int(360);
    proof {
        lemma_tdiv_bounds(prod@, 360, 105000);
        lemma_poly_fits(x@);
    }
    let x2 = x.mul(x);
    let x3 = x2.mul(x);
    let x5 = x3.mul(x2);
    let x7 = x5.mul(x2);
    let s = x.sub(x3.div_int(6)).add(x5.div_int(120)).sub(x7.div_int(5040));
    let x4 = x2.mul(x2);
    let x6 = x4.mul(x2);
    let x8 = x4.mul(x4);
    let c0 = Fx { raw: SCALE }.sub(x2.div_int(2)).add(x4.div_int(24)).sub(x6.div_int(720)).add(
        x8.div_int(40320),
    );
    let c = if c0.raw < 1 {
        Fx { raw: 1 }
    } else {
        c0
    };
    proof {
        lemma_fdiv_coarse(s@, c@);
    }
    let t = s.div(c);
    if t.raw > 1048576 {
        Fx { raw: 1048576 }
    } else if t.raw < -1048576 {
        Fx { raw: -1048576 }
    } else {
        t
    }
}

/// All intermediates of the two series fit comfortably for arguments up to
/// about one and three-fifths radians.
proof fn lemma_poly_fits(x: int)
    requires
        sabs(x) <= 105000,
    ensures
        0 <= fmul(x, x) <= 168228,
        sabs(fmul(fmul(x, x), x)) <= 269530,
        sabs(fmul(fmul(fmul(x, x), x), fmul(x, x))) <= 691871,
        sabs(fmul(fmul(fmul(fmul(x, x), x), fmul(x, x)), fmul(x, x))) <= 1776002,
        0 <= fmul(fmul(x, x), fmul(x, x)) <= 431833,
        0 <= fmul(fmul(fmul(x, x), fmul(x, x)), fmul(x, x)) <= 1108496,
        0 <= fmul(fmul(fmul(x, x), fmul(x, x)), fmul(fmul(x, x), fmul(x, x))) <= 2845455,
{
    lemma_fmul_sq_nonneg(x);
    lemma_fmul_bounds(x, x, 105000, 105000);
    assert(tdiv((105000 * 105000) as int, SCALE as int) == 168228);
    let x2 = fmul(x, x);
    lemma_fmul_bounds(x2, x, 168228, 105000);
    assert(tdiv((168228 * 105000) as int, SCALE as int) == 269530);
    let x3 = fmul(x2, x);
    lemma_fmul_bounds(x3, x2, 269530, 168228);
    assert(tdiv((269530 * 168228) as int, SCALE as int) == 691871);
    let x5 = fmul(x3, x2);
    lemma_fmul_bounds(x5, x2, 691871, 168228);
    assert(tdiv((691871 * 168228) as int, SCALE as int) == 1776002);
    lemma_fmul_sq_nonneg(x2);
    lemma_fmul_bounds(x2, x2, 168228, 168228);
    assert(tdiv((168228 * 168228) as int, SCALE as int) == 431833);
    let x4 = fmul(x2, x2);
    lemma_fmul_bounds(x4, x2, 431833, 168228);
    assert(tdiv((431833 * 168228) as int, SCALE as int) == 1108496);
    assert(fmul(x4, x2) >= 0) by {
        lemma_x4_x2_nonneg(x);
    }
    lemma_fmul_sq_nonneg(x4);
    lemma_fmul_bounds(x4, x4, 431833, 431833);
    assert(tdiv((431833 * 431833) as int, SCALE as int) == 2845455);
}

/// The sixth power never goes negative.
proof fn lemma_x4_x2_nonneg(x: int)
    ensures
        fmul(fmul(fmul(x, x), fmul(x, x)), fmul(x, x)) >= 0,
{
    lemma_fmul_sq_nonneg(x);
    lemma_fmul_sq_nonneg(fmul(x, x));
    let x2 = fmul(x, x);
    let x4 = fmul(x2, x2);
    assert(x4 * x2 >= 0) by (nonlinear_arith)
        requires
            x4 >= 0,
            x2 >= 0,
    ;
    if x4 * x2 > 0 {
        vstd::arithmetic::div_mod::lemma_div_pos_is_pos(x4 * x2, SCALE as int);
    }
}

/// A sub-pixel offset with both coordinates uniform in `[-1/2, 1/2)`.
pub fn sample_square(rs: &mut RandomStream) -> (r: Vec3)
    ensures
        -32768 <= r@.x <= 32767,
        -32768 <= r@.y <= 32767,
        r@.z == 0,
{
    let a = rand_scalar(rs);
    let b = rand_scalar(rs);
    Vec3 { x: Fx { raw: a.raw - 32768 }, y: Fx { raw: b.raw - 32768 }, z: Fx { raw: 0 } }
}

/// A pseudo-random point on the unit disk of the lens plane, by bounded
/// rejection sampling; after too many rejected draws it falls back to the
/// disk's center.
pub fn random_in_unit_disk(rs: &mut RandomStream) -> (r: Vec3)
    ensures
        vbounded(r@, SCALE as int),
        r@.z == 0,
        fmul(r@.x, r@.x) + fmul(r@.y, r@.y) <= SCALE as int,
{
    let mut i: u64 = 0;
    while i < 64
        invariant
            true,
        decreases 64 - i,
    {
        let a = crate::utils::rand_scalar_in(rs, Fx { raw: -SCALE }, Fx { raw: SCALE });
        let b = crate::utils::rand_scalar_in(rs, Fx { raw: -SCALE }, Fx { raw: SCALE });
        proof {
            lemma_fmul_bounds(a@, a@, SCALE as int, SCALE as int);
            lemma_fmul_bounds(b@, b@, SCALE as int, SCALE as int);
            lemma_tdiv_mul_exact(SCALE as int);
            lemma_fmul_sq_nonneg(a@);
            lemma_fmul_sq_nonneg(b@);
        }
        let q = a.mul(a).add(b.mul(b));
        if q.raw < SCALE {
            return Vec3 { x: a, y: b, z: Fx { raw: 0 } };
        }
        i = i + 1;
    }
    proof {
        assert(fmul(0, 0) == 0);
    }
    Vec3::zeros()
}

impl Camera {
    /// Derives the viewport geometry from the look-from/look-at frame, the
    /// vertical field of view, and the defocus parameters, per the usual
    /// orthonormal-basis construction.
    #[verifier::rlimit(100)]
    pub fn from(
        image: &Image,
        samples_per_pixel: u32,
        max_depth: u32,
        vertical_fov: Fx,
        look_from: Point3,
        look_at: Point3,
        up: Vec3,
        defocus_angle: Fx,
        focus_dist: Fx,
    ) -> (r: Camera)
        requires
            1 <= image.width <= 16384,
            1 <= image.height <= 16384,
            samples_per_pixel <= 1048576,
            max_depth <= 1048576,
            0 < vertical_fov@ <= 10485760,
            vbounded(look_from@, 16777216),
            vbounded(look_at@, 16777216),
            vbounded(up@, 16777216),
            vlen2(vsub(look_from@, look_at@)) >= 1,
            vlen2(vcross(up@, vunit(vsub(look_from@, look_at@)))) >= 1,
            0 <= defocus_angle@ <= 10485760,
            0 <= focus_dist@ <= 16777216,
        ensures
            r.wf(),
            r.image_width == image.width,
            r.image_height == image.height,
            r.samples_per_pixel == samples_per_pixel,
            r.max_depth == max_depth,
            r.center == look_from,
            r.defocus_angle == defocus_angle,
            ({
                let d = vsub(look_from@, look_at@);
                let w = vunit(d);
                let u = vunit(vcross(up@, w));
                let v = vcross(w, u);
                let h = tan_half_spec(vertical_fov@);
                let vh = 2 * fmul(h, focus_dist@);
                let vw = fmul(
                    vh,
                    fdiv((image.width as int) * (SCALE as int), (image.height as int) * (
                    SCALE as int)),
                );
                let xv = vscale(vw, u);
                let yv = vscale(vh, vneg(v));
                let dr = fmul(focus_dist@, tan_half_spec(defocus_angle@));
                &&& r.delta_x@ == vdivs(xv, (image.width as int) * (SCALE as int))
                &&& r.delta_y@ == vdivs(yv, (image.height as int) * (SCALE as int))
                &&& r.pixel00@ == vadd(
                    vsub(
                        vsub(
                            vsub(look_from@, vscale(focus_dist@, w)),
                            vdivs(xv, 2 * (SCALE as int)),
                        ),
                        vdivs(yv, 2 * (SCALE as int)),
                    ),
                    vscale(32768, vadd(r.delta_x@, r.delta_y@)),
                )
                &&& r.defocus_u@ == vscale(dr, u)
                &&& r.defocus_v@ == vscale(dr, v)
            }),
    {
        let d = look_from.sub(look_at);
        let w = Vec3::unit_vector(d);
        proof {
            lemma_cross_bound(up@, w@, 16777216, 131072);
        }
        let cr = Vec3::cross(up, w);
        let u = Vec3::unit_vector(cr);
        proof {
            lemma_cross_bound(w@, u@, 131072, 131072);
        }
        let v = Vec3::cross(w, u);
        let h = tan_half_degrees(vertical_fov);
        proof {
            lemma_fmul_bounds(h@, focus_dist@, 1048576, 16777216);
            assert(1048576 * 16777216 == 268435456 * (SCALE as int));
            lemma_tdiv_mul_exact(268435456);
        }
        let hf = h.mul(focus_dist);
        let vh = hf.add(hf);
        let wfx = Fx { raw: (image.width as i64) * SCALE };
        let hfx = Fx { raw: (image.height as i64) * SCALE };
        proof {
            assert(sabs(wfx@ * (SCALE as int)) <= 1073741824 * hfx@) by (nonlinear_arith)
                requires
                    0 <= wfx@ <= 1073741824,
                    hfx@ >= 65536,
                    (SCALE as int) == 65536,
            ;
            lemma_tdiv_bounds(wfx@ * (SCALE as int), hfx@, 1073741824);
        }
        let aspect = wfx.div(hfx);
        proof {
            lemma_fmul_bounds(vh@, aspect@, 536870912, 1073741824);
            assert(536870912 * 1073741824 == 8796093022208 * (SCALE as int));
            lemma_tdiv_mul_exact(8796093022208);
        }
        let vw = vh.mul(aspect);
        proof {
            lemma_fmul_bounds(vw@, u@.x, 8796093022208, 131072);
            lemma_fmul_bounds(vw@, u@.y, 8796093022208, 131072);
            lemma_fmul_bounds(vw@, u@.z, 8796093022208, 131072);
            assert(8796093022208 * 131072 == 17592186044416 * (SCALE as int));
            lemma_tdiv_mul_exact(17592186044416);
        }
        let xv = u.scale(vw);
        proof {
            lemma_fmul_bounds(vh@, -v@.x, 536870912, 524288);
            lemma_fmul_bounds(vh@, -v@.y, 536870912, 524288);
            lemma_fmul_bounds(vh@, -v@.z, 536870912, 524288);
            assert(536870912 * 524288 == 4294967296 * (SCALE as int));
            lemma_tdiv_mul_exact(4294967296);
        }
        let yv = v.neg().scale(vh);
        proof {
            lemma_divs_by_big(xv@, wfx@, 17592186044416);
            lemma_divs_by_big(yv@, hfx@, 4294967296);
            lemma_divs_by_big(xv@, 2 * (SCALE as int), 17592186044416);
            lemma_divs_by_big(yv@, 2 * (SCALE as int), 4294967296);
        }
        let delta_x = xv.divs(wfx);
        let delta_y = yv.divs(hfx);
        proof {
            lemma_fmul_bounds(focus_dist@, w@.x, 16777216, 131072);
            lemma_fmul_bounds(focus_dist@, w@.y, 16777216, 131072);
            lemma_fmul_bounds(focus_dist@, w@.z, 16777216, 131072);
            assert(16777216 * 131072 == 33554432 * (SCALE as int));
            lemma_tdiv_mul_exact(33554432);
        }
        let fw = look_from.sub(w.scale(focus_dist));
        let two = Fx { raw: 2 * SCALE };
        let xh = xv.divs(two);
        let yh = yv.divs(two);
        let ul = fw.sub(xh).sub(yh);
        let dsum = delta_x.add(delta_y);
        proof {
            lemma_fmul_bounds(32768, dsum@.x, 32768, 21887098765312);
            lemma_fmul_bounds(32768, dsum@.y, 32768, 21887098765312);
            lemma_fmul_bounds(32768, dsum@.z, 32768, 21887098765312);
            assert(32768 * 21887098765312 == 10943549382656 * (SCALE as int));
            lemma_tdiv_mul_exact(10943549382656);
        }
        let pixel00 = ul.add(dsum.scale(Fx { raw: 32768 }));
        let dtan = tan_half_degrees(defocus_angle);
        proof {
            lemma_fmul_bounds(focus_dist@, dtan@, 16777216, 1048576);
            assert(16777216 * 1048576 == 268435456 * (SCALE as int));
            lemma_tdiv_mul_exact(268435456);
        }
        let defr = focus_dist.mul(dtan);
        proof {
            lemma_fmul_bounds(defr@, u@.x, 268435456, 131072);
            lemma_fmul_bounds(defr@, u@.y, 268435456, 131072);
            lemma_fmul_bounds(defr@, u@.z, 268435456, 131072);
            assert(268435456 * 131072 == 536870912 * (SCALE as int));
            lemma_tdiv_mul_exact(536870912);
            lemma_fmul_bounds(defr@, v@.x, 268435456, 524288);
            lemma_fmul_bounds(defr@, v@.y, 268435456, 524288);
            lemma_fmul_bounds(defr@, v@.z, 268435456, 524288);
            assert(268435456 * 524288 == 2147483648 * (SCALE as int));
            lemma_tdiv_mul_exact(2147483648);
        }
        let defocus_u = u.scale(defr);
        let defocus_v = v.scale(defr);
        Camera {
            image_width: image.width,
            image_height: image.height,
            samples_per_pixel,
            max_depth,
            center: look_from,
            pixel00,
            delta_x,
            delta_y,
            defocus_angle,
            defocus_u,
            defocus_v,
        }
    }
}

/// Cross products of bounded vectors are componentwise bounded by twice the
/// scaled-down product of the bounds.
proof fn lemma_cross_bound(a: V3, b: V3, ca: int, cb: int)
    requires
        0 <= ca,
        0 <= cb,
        vbounded(a, ca),
        vbounded(b, cb),
    ensures
        vbounded(vcross(a, b), 2 * tdiv(ca * cb, SCALE as int)),
{
    lemma_fmul_bounds(a.x, b.x, ca, cb);
    lemma_fmul_bounds(a.x, b.y, ca, cb);
    lemma_fmul_bounds(a.x, b.z, ca, cb);
    lemma_fmul_bounds(a.y, b.x, ca, cb);
    lemma_fmul_bounds(a.y, b.y, ca, cb);
    lemma_fmul_bounds(a.y, b.z, ca, cb);
    lemma_fmul_bounds(a.z, b.x, ca, cb);
    lemma_fmul_bounds(a.z, b.y, ca, cb);
    lemma_fmul_bounds(a.z, b.z, ca, cb);
}

/// Componentwise division by a divisor at least one unit keeps magnitudes.
proof fn lemma_divs_by_big(a: V3, k: int, c: int)
    requires
        k >= SCALE as int,
        0 <= c <= 0x7fffffffffffffff,
        vbounded(a, c),
    ensures
        vbounded(vdivs(a, k), c),
        in_raw(fdiv(a.x, k)),
        in_raw(fdiv(a.y, k)),
        in_raw(fdiv(a.z, k)),
{
    assert forall|t: int| sabs(t) <= c implies sabs(#[trigger] fdiv(t, k)) <= c by {
        assert(sabs(t * (SCALE as int)) <= c * k) by (nonlinear_arith)
            requires
                -c <= t <= c,
                k >= 65536,
                c >= 0,
                (SCALE as int) == 65536,
        ;
        lemma_tdiv_bounds(t * (SCALE as int), k, c);
    }
}

/// One integrator sample for pixel `(x, y)`: some camera ray for that
/// pixel whose trace realizes the color.
pub open spec fn pixel_sample_ok(c: Camera, world: Seq<Sphere>, x: int, y: int, col: V3) -> bool {
    exists|r: Ray|
        #[trigger] camera_ray_spec(c, x, y, r) && color_of_trace(world, r, c.max_depth as nat, col)
}

/// The componentwise sum of the sample colors from index `i` on.
pub open spec fn sum_colors(cols: Seq<V3>, i: int) -> V3
    decreases cols.len() - i,
{
    if i < 0 || i >= cols.len() {
        V3 { x: 0, y: 0, z: 0 }
    } else {
        vadd(cols[i], sum_colors(cols, i + 1))
    }
}

/// The three bytes of pixel `(x, y)` hold the gamma-corrected quantized
/// mean of exactly these integrator sample colors.
pub open spec fn pixel_rendered_by(
    c: Camera,
    world: Seq<Sphere>,
    pixels: Seq<u8>,
    x: int,
    y: int,
    cols: Seq<V3>,
) -> bool {
    &&& cols.len() == c.samples_per_pixel as int
    &&& forall|i: int|
        0 <= i < cols.len() ==> pixel_sample_ok(c, world, x, y, #[trigger] cols[i])
    &&& ({
        let avg = if c.samples_per_pixel == 0 {
            V3 { x: 0, y: 0, z: 0 }
        } else {
            vdivs(sum_colors(cols, 0), (c.samples_per_pixel as int) * (SCALE as int))
        };
        let base = 3 * (y * (c.image_width as int) + x);
        &&& pixels[base] == crate::color::byte_spec(crate::color::gamma_spec(avg.x)) as u8
        &&& pixels[base + 1] == crate::color::byte_spec(crate::color::gamma_spec(avg.y)) as u8
        &&& pixels[base + 2] == crate::color::byte_spec(crate::color::gamma_spec(avg.z)) as u8
    })
}

/// Pixel `(x, y)` of the buffer holds the quantized mean of some admissible
/// integrator samples for that pixel.
pub open spec fn pixel_rendered(c: Camera, world: Seq<Sphere>, pixels: Seq<u8>, x: int, y: int) -> bool {
    exists|cols: Seq<V3>| #[trigger] pixel_rendered_by(c, world, pixels, x, y, cols)
}

/// A rendered pixel stays rendered when its three bytes are unchanged.
proof fn lemma_pixel_rendered_frame(
    c: Camera,
    world: Seq<Sphere>,
    p1: Seq<u8>,
    p2: Seq<u8>,
    x: int,
    y: int,
)
    requires
        pixel_rendered(c, world, p1, x, y),
        ({
            let base = 3 * (y * (c.image_width as int) + x);
            &&& p2[base] == p1[base]
            &&& p2[base + 1] == p1[base + 1]
            &&& p2[base + 2] == p1[base + 2]
        }),
    ensures
        pixel_rendered(c, world, p2, x, y),
{
    let cols = choose|cols: Seq<V3>| pixel_rendered_by(c, world, p1, x, y, cols);
    assert(pixel_rendered_by(c, world, p2, x, y, cols));
}

/// Appending a sample adds its color to the sum.
proof fn lemma_sum_push(cols: Seq<V3>, v: V3, i: int)
    requires
        0 <= i <= cols.len(),
    ensures
        sum_colors(cols.push(v), i) == vadd(sum_colors(cols, i), v),
    decreases cols.len() - i,
{
    let pushed = cols.push(v);
    assert(pushed.len() == cols.len() + 1);
    if i == cols.len() {
        assert(pushed[i] == v);
        assert(sum_colors(pushed, i + 1) == (V3 { x: 0, y: 0, z: 0 }));
        assert(sum_colors(cols, i) == (V3 { x: 0, y: 0, z: 0 }));
    } else {
        assert(pushed[i] == cols[i]);
        lemma_sum_push(cols, v, i + 1);
    }
}

impl Camera {
    /// Builds one sample ray for pixel `(x, y)`: a random sub-pixel offset
    /// for anti-aliasing, a defocus-disk origin for depth of field when the
    /// defocus angle is positive, and a random shutter time for motion blur.
    pub fn get_ray(&self, x: u32, y: u32, rs: &mut RandomStream) -> (r: Ray)
        requires
            self.wf(),
            x <= 16384,
            y <= 16384,
        ensures
            camera_ray_spec(*self, x as int, y as int, r),
    {
        let offset = sample_square(rs);
        let xoff = Fx { raw: (x as i64) * SCALE + offset.x.raw };
        let yoff = Fx { raw: (y as i64) * SCALE + offset.y.raw };
        proof {
            lemma_fmul_bounds(xoff@, self.delta_x@.x, 1073774592, 17592186044416);
            lemma_fmul_bounds(xoff@, self.delta_x@.y, 1073774592, 17592186044416);
            lemma_fmul_bounds(xoff@, self.delta_x@.z, 1073774592, 17592186044416);
            lemma_fmul_bounds(yoff@, self.delta_y@.x, 1073774592, 17592186044416);
            lemma_fmul_bounds(yoff@, self.delta_y@.y, 1073774592, 17592186044416);
            lemma_fmul_bounds(yoff@, self.delta_y@.z, 1073774592, 17592186044416);
            assert(1073774592 * 17592186044416 == 288239172244733952 * (SCALE as int));
            lemma_tdiv_mul_exact(288239172244733952);
        }
        let sample = self.pixel00.add(self.delta_x.scale(xoff)).add(self.delta_y.scale(yoff));
        let disk = if self.defocus_angle.raw <= 0 {
            Vec3::zeros()
        } else {
            random_in_unit_disk(rs)
        };
        proof {
            lemma_fmul_bounds(disk@.x, self.defocus_u@.x, SCALE as int, 1073741824);
            lemma_fmul_bounds(disk@.x, self.defocus_u@.y, SCALE as int, 1073741824);
            lemma_fmul_bounds(disk@.x, self.defocus_u@.z, SCALE as int, 1073741824);
            lemma_fmul_bounds(disk@.y, self.defocus_v@.x, SCALE as int, 2147483648);
            lemma_fmul_bounds(disk@.y, self.defocus_v@.y, SCALE as int, 2147483648);
            lemma_fmul_bounds(disk@.y, self.defocus_v@.z, SCALE as int, 2147483648);
            assert((SCALE as int) * 1073741824 == 1073741824 * (SCALE as int));
            lemma_tdiv_mul_exact(1073741824);
            assert((SCALE as int) * 2147483648 == 2147483648 * (SCALE as int));
            lemma_tdiv_mul_exact(2147483648);
        }
        let origin = self.center.add(self.defocus_u.scale(disk.x).add(self.defocus_v.scale(disk.y)));
        let direction = sample.sub(origin);
        let time = rand_scalar(rs);
        let r = Ray::with_time(origin, direction, time);
        proof {
            let ox = offset@.x;
            let oy = offset@.y;
            let pw = disk@;
            assert(xoff@ == (x as int) * (SCALE as int) + ox);
            assert(yoff@ == (y as int) * (SCALE as int) + oy);
            assert(r.origin@ == vadd(
                self.center@,
                vadd(vscale(pw.x, self.defocus_u@), vscale(pw.y, self.defocus_v@)),
            ));
            assert(r.direction@ == vsub(
                pixel_sample_spec(*self, x as int, y as int, ox, oy),
                r.origin@,
            ));
            assert(-32768 <= ox <= 32767 && -32768 <= oy <= 32767 && vbounded(pw, SCALE as int)
                && pw.z == 0 && (self.defocus_angle@ <= 0 ==> pw == (V3 { x: 0, y: 0, z: 0 })));
        }
        r
    }

    /// The recursive color estimator. At depth zero, or for a ray outside
    /// the numeric range, it is black; a miss returns the sky blend; a hit
    /// scatters and recurses, or is absorbed to black.
    pub fn ray_color(ray: Ray, depth: u32, world: &HittableList, rs: &mut RandomStream) -> (c:
        Color)
        requires
            world.wf(),
        ensures
            vbounded(c@, COLOR_MAX as int),
            color_of_trace(world.objects@, ray, depth as nat, c@),
            depth == 0 ==> c@ == (V3 { x: 0, y: 0, z: 0 }),
            (depth > 0 && ray_in_range(ray) && vlen2(ray.direction@) >= 1 && list_hit_spec(
                world.objects@,
                ray,
                SHADOW_EPS as int,
                T_FAR as int,
            ) is None) ==> c@ == sky_spec(ray.direction@),
        decreases depth,
    {
        if depth == 0 {
            proof {
                lemma_trace_single(
                    world.objects@,
                    ray,
                    depth as nat,
                    V3 { x: 0, y: 0, z: 0 },
                );
            }
            return Vec3::zeros();
        }
        if !(ray.origin.in_bounds(GEOM_MAX) && ray.direction.in_bounds(GEOM_MAX) && 0
            <= ray.time.raw && ray.time.raw <= SCALE) {
            proof {
                lemma_trace_single(
                    world.objects@,
                    ray,
                    depth as nat,
                    V3 { x: 0, y: 0, z: 0 },
                );
            }
            return Vec3::zeros();
        }
        match world.hit(ray, Interval::from(Fx { raw: SHADOW_EPS }, Fx { raw: T_FAR })) {
            Some(rec) => {
                proof {
                    crate::hittable_list::lemma_list_hit_dir(
                        world.objects@,
                        0,
                        ray,
                        SHADOW_EPS as int,
                        T_FAR as int,
                        None,
                    );
                    crate::hittable_list::lemma_list_hit_mat(
                        world.objects@,
                        0,
                        ray,
                        SHADOW_EPS as int,
                        T_FAR as int,
                        None,
                    );
                }
                if !rec.normal.in_bounds(UNIT_MAX) {
                    proof {
                        assert(rec.normal@ == list_hit_spec(
                            world.objects@,
                            ray,
                            SHADOW_EPS as int,
                            T_FAR as int,
                        ).unwrap().normal);
                        lemma_trace_single(
                            world.objects@,
                            ray,
                            depth as nat,
                            V3 { x: 0, y: 0, z: 0 },
                        );
                    }
                    return Vec3::zeros();
                }
                let ghost hs = list_hit_spec(
                    world.objects@,
                    ray,
                    SHADOW_EPS as int,
                    T_FAR as int,
                ).unwrap();
                proof {
                    assert(rec.normal@ == hs.normal && rec.p@ == hs.p && rec.front_face
                        == hs.front_face && rec.material == hs.material);
                }
                match rec.material.scatter(ray, &rec, rs) {
                    Some((scattered, attenuation)) => {
                        let col = Camera::ray_color(scattered, depth - 1, world, rs);
                        proof {
                            lemma_fmul_bounds(attenuation@.x, col@.x, SCALE as int, 196608);
                            lemma_fmul_bounds(attenuation@.y, col@.y, SCALE as int, 196608);
                            lemma_fmul_bounds(attenuation@.z, col@.z, SCALE as int, 196608);
                            assert((SCALE as int) * 196608 == 196608 * (SCALE as int));
                            lemma_tdiv_mul_exact(196608);
                        }
                        let out = attenuation.cmul(col);
                        proof {
                            lemma_trace_cons(
                                world.objects@,
                                ray,
                                depth as nat,
                                hs,
                                scattered,
                                attenuation@,
                                col@,
                                out@,
                            );
                        }
                        out
                    },
                    None => {
                        proof {
                            assert(crate::material::scatter_none_spec(
                                hs.material,
                                ray,
                                hs.normal,
                            ));
                            lemma_trace_single(
                                world.objects@,
                                ray,
                                depth as nat,
                                V3 { x: 0, y: 0, z: 0 },
                            );
                        }
                        Vec3::zeros()
                    },
                }
            },
            None => {
                let ls = ray.direction.length_squared();
                if ls.raw < 1 {
                    proof {
                        lemma_trace_single(
                            world.objects@,
                            ray,
                            depth as nat,
                            V3 { x: 0, y: 0, z: 0 },
                        );
                    }
                    return Vec3::zeros();
                }
                let ud = Vec3::unit_vector(ray.direction);
                proof {
                    lemma_fmul_bounds(32768, ud@.y + (SCALE as int), 32768, 196608);
                    assert(32768 * 196608 == 98304 * (SCALE as int));
                    lemma_tdiv_mul_exact(98304);
                }
                let a = Fx { raw: 32768 }.mul(ud.y.add(Fx { raw: SCALE }));
                let oma = Fx { raw: SCALE }.sub(a);
                proof {
                    lemma_tdiv_mul_exact(oma@);
                    lemma_fmul_bounds(a@, 32768, 98304, SCALE as int);
                    lemma_fmul_bounds(a@, 45875, 98304, SCALE as int);
                    lemma_fmul_bounds(a@, SCALE as int, 98304, SCALE as int);
                    lemma_tdiv_mul_exact(98304);
                    lemma_fmul_bounds(oma@, SCALE as int, 131072, SCALE as int);
                    lemma_tdiv_mul_exact(131072);
                }
                let white = Vec3::ones();
                let blue = Vec3 { x: Fx { raw: 32768 }, y: Fx { raw: 45875 }, z: Fx { raw: SCALE } };
                let c = white.scale(oma).add(blue.scale(a));
                proof {
                    lemma_trace_single(world.objects@, ray, depth as nat, c@);
                }
                c
            },
        }
    }

    /// Renders one row of the image and leaves every other byte unchanged:
    /// for each pixel of the row, the mean of `samples_per_pixel` integrator
    /// samples, gamma-corrected and quantized; with zero samples or zero
    /// depth the row comes out black.
    pub fn render_row(&self, image: &mut Image, y: u32, world: &HittableList, rs: &mut RandomStream)
        requires
            self.wf(),
            world.wf(),
            old(image).wf(),
            old(image).width == self.image_width,
            old(image).height == self.image_height,
            y < old(image).height,
        ensures
            final(image).wf(),
            final(image).width == old(image).width,
            final(image).height == old(image).height,
            final(image).aspect_ratio == old(image).aspect_ratio,
            forall|k: int|
                0 <= k < final(image).pixels@.len() && !(3 * ((y as int) * (
                old(image).width as int)) <= k && k < 3 * ((y as int) * (old(image).width as int)
                    + (old(image).width as int))) ==> final(image).pixels@[k]
                    == old(image).pixels@[k],
            forall|px: int|
                0 <= px < old(image).width as int ==> pixel_rendered(
                    *self,
                    world.objects@,
                    final(image).pixels@,
                    px,
                    y as int,
                ),
            (self.samples_per_pixel == 0 || self.max_depth == 0) ==> forall|k: int|
                3 * ((y as int) * (old(image).width as int)) <= k && k < 3 * ((y as int) * (
                old(image).width as int) + (old(image).width as int)) ==> final(image).pixels@[k]
                    == 0,
    {
        let black = self.samples_per_pixel == 0 || self.max_depth == 0;
        let w = image.width;
        let ghost rowstart = 3 * ((y as int) * (w as int));
        let mut x: u32 = 0;
        while x < w
            invariant
                self.wf(),
                world.wf(),
                image.wf(),
                image.width == w,
                image.height == old(image).height,
                w == self.image_width,
                old(image).height == self.image_height,
                image.aspect_ratio == old(image).aspect_ratio,
                image.pixels@.len() == old(image).pixels@.len(),
                black == (self.samples_per_pixel == 0 || self.max_depth == 0),
                y < old(image).height,
                x <= w,
                rowstart == 3 * ((y as int) * (w as int)),
                forall|k: int|
                    0 <= k < image.pixels@.len() && !(rowstart <= k && k < rowstart + 3 * (
                    x as int)) ==> image.pixels@[k] == old(image).pixels@[k],
                forall|px: int|
                    0 <= px < x as int ==> pixel_rendered(
                        *self,
                        world.objects@,
                        image.pixels@,
                        px,
                        y as int,
                    ),
                black ==> forall|k: int|
                    rowstart <= k && k < rowstart + 3 * (x as int) ==> image.pixels@[k] == 0,
            decreases w as int - x as int,
        {
            let mut sum = Vec3::zeros();
            let ghost mut cols = Seq::<V3>::empty();
            let mut sm: u32 = 0;
            while sm < self.samples_per_pixel
                invariant
                    self.wf(),
                    world.wf(),
                    x <= 16384,
                    y <= 16384,
                    black == (self.samples_per_pixel == 0 || self.max_depth == 0),
                    sm <= self.samples_per_pixel,
                    cols.len() == sm as int,
                    forall|i: int|
                        0 <= i < cols.len() ==> pixel_sample_ok(
                            *self,
                            world.objects@,
                            x as int,
                            y as int,
                            #[trigger] cols[i],
                        ),
                    sum@ == sum_colors(cols, 0),
                    vbounded(sum@, 196608 * (sm as int)),
                    black ==> sum@ == (V3 { x: 0, y: 0, z: 0 }),
                decreases self.samples_per_pixel as int - sm as int,
            {
                let r = self.get_ray(x, y, rs);
                let col = Camera::ray_color(r, self.max_depth, world, rs);
                proof {
                    assert(196608 * (sm as int) + 196608 == 196608 * ((sm as int) + 1))
                        by (nonlinear_arith);
                    assert(196608 * ((sm as int) + 1) <= 196608 * 1048577) by (nonlinear_arith)
                        requires
                            (sm as int) + 1 <= 1048577,
                    ;
                }
                sum = sum.add(col);
                proof {
                    assert(pixel_sample_ok(*self, world.objects@, x as int, y as int, col@));
                    lemma_sum_push(cols, col@, 0);
                    cols = cols.push(col@);
                }
                sm = sm + 1;
            }
            let avg = if self.samples_per_pixel == 0 {
                Vec3::zeros()
            } else {
                proof {
                    assert((self.samples_per_pixel as int) * (SCALE as int) >= (SCALE as int))
                        by (nonlinear_arith)
                        requires
                            self.samples_per_pixel as int >= 1,
                            (SCALE as int) == 65536,
                    ;
                    assert(196608 * (self.samples_per_pixel as int) <= 206158430208)
                        by (nonlinear_arith)
                        requires
                            self.samples_per_pixel as int <= 1048576,
                    ;
                    lemma_divs_by_big(
                        sum@,
                        (self.samples_per_pixel as int) * (SCALE as int),
                        206158430208,
                    );
                    if black {
                        assert(fdiv(0, (self.samples_per_pixel as int) * (SCALE as int)) == 0);
                    }
                }
                sum.divs(Fx { raw: (self.samples_per_pixel as i64) * SCALE })
            };
            let ghost before = image.pixels@;
            let ghost hh = old(image).height as int;
            write_color(image, x, y, avg);
            proof {
                let base = 3 * ((y as int) * (w as int) + (x as int));
                assert(base == rowstart + 3 * (x as int));
                assert((y as int) * (w as int) + (x as int) < hh * (w as int))
                    by (nonlinear_arith)
                    requires
                        0 <= (x as int) < (w as int),
                        0 <= (y as int) < hh,
                ;
                assert(3 * (hh * (w as int)) == 3 * (w as int) * hh) by (nonlinear_arith);
                assert(base + 3 <= image.pixels@.len());
                assert(pixel_rendered_by(
                    *self,
                    world.objects@,
                    image.pixels@,
                    x as int,
                    y as int,
                    cols,
                ));
                assert(pixel_rendered(*self, world.objects@, image.pixels@, x as int, y as int));
                assert forall|px: int| 0 <= px < (x as int) + 1 implies pixel_rendered(
                    *self,
                    world.objects@,
                    image.pixels@,
                    px,
                    y as int,
                ) by {
                    if px < x as int {
                        assert(image.pixels@[3 * ((y as int) * (w as int) + px)] == before[3 * ((
                        y as int) * (w as int) + px)]);
                        assert(image.pixels@[3 * ((y as int) * (w as int) + px) + 1] == before[3
                            * ((y as int) * (w as int) + px) + 1]);
                        assert(image.pixels@[3 * ((y as int) * (w as int) + px) + 2] == before[3
                            * ((y as int) * (w as int) + px) + 2]);
                        lemma_pixel_rendered_frame(
                            *self,
                            world.objects@,
                            before,
                            image.pixels@,
                            px,
                            y as int,
                        );
                    }
                }
                if black {
                    assert(crate::color::gamma_spec(0) == 0);
                    assert(crate::color::byte_spec(0) == 0);
                }
            }
            x = x + 1;
        }
    }

    /// Renders the scene into the image, row by row: each pixel holds the
    /// gamma-corrected, quantized mean of `samples_per_pixel` integrator
    /// samples of its own camera rays. With zero samples or zero depth the
    /// render degenerates to black.
    pub fn render(&self, image: &mut Image, world: &HittableList, rs: &mut RandomStream)
        requires
            self.wf(),
            world.wf(),
            old(image).wf(),
            old(image).width == self.image_width,
            old(image).height == self.image_height,
        ensures
            final(image).wf(),
            final(image).width == old(image).width,
            final(image).height == old(image).height,
            final(image).aspect_ratio == old(image).aspect_ratio,
            forall|px: int, py: int|
                0 <= px < old(image).width as int && 0 <= py < old(image).height as int
                    ==> pixel_rendered(*self, world.objects@, final(image).pixels@, px, py),
            (self.samples_per_pixel == 0 || self.max_depth == 0) ==> forall|k: int|
                0 <= k < final(image).pixels@.len() ==> final(image).pixels@[k] == 0,
    {
        let black = self.samples_per_pixel == 0 || self.max_depth == 0;
        let w = image.width;
        let h = image.height;
        let mut y: u32 = 0;
        while y < h
            invariant
                self.wf(),
                world.wf(),
                image.wf(),
                image.width == w,
                image.height == h,
                w == self.image_width,
                h == self.image_height,
                w == old(image).width,
                h == old(image).height,
                image.aspect_ratio == old(image).aspect_ratio,
                black == (self.samples_per_pixel == 0 || self.max_depth == 0),
                y <= h,
                forall|px: int, py: int|
                    0 <= px < w as int && 0 <= py < y as int ==> pixel_rendered(
                        *self,
                        world.objects@,
                        image.pixels@,
                        px,
                        py,
                    ),
                black ==> forall|k: int|
                    0 <= k < 3 * ((y as int) * (w as int)) ==> image.pixels@[k] == 0,
            decreases h as int - y as int,
        {
            let ghost before = image.pixels@;
            self.render_row(image, y, world, rs);
            proof {
                assert forall|px: int, py: int|
                    0 <= px < w as int && 0 <= py < (y as int) + 1 implies pixel_rendered(
                    *self,
                    world.objects@,
                    image.pixels@,
                    px,
                    py,
                ) by {
                    if py < y as int {
                        let base = 3 * (py * (w as int) + px);
                        assert(py * (w as int) + px + 1 <= (y as int) * (w as int))
                            by (nonlinear_arith)
                            requires
                                0 <= px < (w as int),
                                0 <= py,
                                py + 1 <= (y as int),
                        ;
                        assert((y as int) * (w as int) + (w as int) <= (h as int) * (w as int))
                            by (nonlinear_arith)
                            requires
                                (y as int) + 1 <= (h as int),
                                0 <= (w as int),
                        ;
                        assert(3 * ((h as int) * (w as int)) == 3 * (w as int) * (h as int))
                            by (nonlinear_arith);
                        assert(image.pixels@[base] == before[base]);
                        assert(image.pixels@[base + 1] == before[base + 1]);
                        assert(image.pixels@[base + 2] == before[base + 2]);
                        lemma_pixel_rendered_frame(
                            *self,
                            world.objects@,
                            before,
                            image.pixels@,
                            px,
                            py,
                        );
                    }
                }
                if black {
                    assert(3 * (((y as int) + 1) * (w as int)) == 3 * ((y as int) * (w as int)
                        + (w as int))) by (nonlinear_arith);
                    assert((y as int) * (w as int) + (w as int) <= (h as int) * (w as int))
                        by (nonlinear_arith)
                        requires
                            (y as int) + 1 <= (h as int),
                            0 <= (w as int),
                    ;
                    assert(3 * ((h as int) * (w as int)) == 3 * (w as int) * (h as int))
                        by (nonlinear_arith);
                    assert forall|k: int|
                        0 <= k < 3 * (((y as int) + 1) * (w as int)) implies image.pixels@[k]
                        == 0 by {
                        if k < 3 * ((y as int) * (w as int)) {
                            assert(image.pixels@[k] == before[k]);
                        }
                    }
                }
            }
            y = y + 1;
        }
        proof {
            if black {
                assert(3 * ((h as int) * (w as int)) == 3 * (w as int) * (h as int))
                    by (nonlinear_arith);
            }
        }
    }
}


} // verus!