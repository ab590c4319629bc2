//! Scalar ranges used to bound valid intersection parameters.

use vstd::prelude::*;
use crate::fixed::{Fx, in_raw};

verus! {

/// A closed scalar range. The empty interval is represented by the extreme
/// raw values, which play the role of the infinities.
#[derive(Clone, Copy, PartialEq, Eq, Structural, Debug)]
pub struct Interval {
    pub min: Fx,
    pub max: Fx,
}

impl Interval {
    /// The empty interval, as the default constructor.
    pub fn new() -> (r: Interval)
        ensures
            r.min@ == i64::MAX,
            r.max@ == i64::MIN,
    {
        Interval { min: Fx { raw: i64::MAX }, max: Fx { raw: i64::MIN } }
    }

    pub fn from(min: Fx, max: Fx) -> (r: Interval)
        ensures
            r.min == min,
            r.max == max,
    {
        Interval { min, max }
    }

    pub fn size(&self) -> (r: Fx)
        requires
            in_raw(self.max@ - self.min@),
        ensures
            r@ == self.max@ - self.min@,
    {
        self.max.sub(self.min)
    }

    /// Inclusive membership on both ends.
    pub fn contains(&self, x: Fx) -> (r: bool)
        ensures
            r == (self.min@ <= x@ <= self.max@),
    {
        self.min.raw <= x.raw && x.raw <= self.max.raw
    }

    /// Strictly exclusive membership on both ends, used to reject
    /// intersections exactly at a boundary.
    pub fn surrounds(&self, x: Fx) -> (r: bool)
        ensures
            r == (self.min@ < x@ < self.max@),
    {
        self.min.raw < x.raw && x.raw < self.max.raw
    }

    pub fn empty() -> (r: Interval)
        ensures
            r.min@ == i64::MAX,
            r.max@ == i64::MIN,
    {
        Interval { min: Fx { raw: i64::MAX }, max: Fx { raw: i64::MIN } }
    }

    pub fn universe() -> (r: Interval)
        ensures
            r.min@ == i64::MIN,
            r.max@ == i64::MAX,
    {
        Interval { min: Fx { raw: i64::MIN }, max: Fx { raw: i64::MAX } }
    }
}

impl Default for Interval {
    /// The empty interval.
    fn default() -> (r: Interval)
        ensures
            r.min@ == i64::MAX,
            r.max@ == i64::MIN,
    {
        Interval { min: Fx { raw: i64::MAX }, max: Fx { raw: i64::MIN } }
    }
}

} // verus!
