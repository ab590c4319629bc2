//! Rays: origin, direction, and a shutter time in `[0, 1)` for motion blur.

use vstd::prelude::*;
use crate::fixed::{Fx, fmul, in_raw};
use crate::vec3::{Vec3, Point3, V3, vadd, vscale};

verus! {

/// The point a ray reaches at parameter `t`: `origin + t * direction`.
pub open spec fn ray_at_spec(origin: V3, direction: V3, t: int) -> V3 {
    vadd(origin, vscale(t, direction))
}

/// A ray with an origin, an unnormalized direction, and a shutter time.
#[derive(Clone, Copy, PartialEq, Eq, Structural, Debug)]
pub struct Ray {
    pub origin: Point3,
    pub direction: Vec3,
    pub time: Fx,
}

impl Ray {
    /// The degenerate ray at the origin.
    pub fn new() -> (r: Ray)
        ensures
            r.origin@ == (V3 { x: 0, y: 0, z: 0 }),
            r.direction@ == (V3 { x: 0, y: 0, z: 0 }),
            r.time@ == 0,
    {
        Ray { origin: Vec3::zeros(), direction: Vec3::zeros(), time: Fx { raw: 0 } }
    }

    /// A ray fired at shutter time zero.
    pub fn from(origin: Point3, direction: Vec3) -> (r: Ray)
        ensures
            r.origin == origin,
            r.direction == direction,
            r.time@ == 0,
    {
        Ray { origin, direction, time: Fx { raw: 0 } }
    }

    /// A ray fired at the given shutter time.
    pub fn with_time(origin: Point3, direction: Vec3, time: Fx) -> (r: Ray)
        ensures
            r.origin == origin,
            r.direction == direction,
            r.time == time,
    {
        Ray { origin, direction, time }
    }

    /// The point `origin + t * direction`.
    pub fn at(&self, t: Fx) -> (r: Point3)
        requires
            in_raw(fmul(t@, self.direction@.x)),
            in_raw(fmul(t@, self.direction@.y)),
            in_raw(fmul(t@, self.direction@.z)),
            in_raw(self.origin@.x + fmul(t@, self.direction@.x)),
            in_raw(self.origin@.y + fmul(t@, self.direction@.y)),
            in_raw(self.origin@.z + fmul(t@, self.direction@.z)),
        ensures
            r@ == ray_at_spec(self.origin@, self.direction@, t@),
    {
        self.origin.add(self.direction.scale(t))
    }
}

} // verus!
