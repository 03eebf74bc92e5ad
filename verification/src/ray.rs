//! Rays: half-lines given by an origin and a direction.

use vstd::prelude::*;
use crate::fixed::Fixed;
use crate::vec3::{Point3, Vec3};

verus! {

/// The half-line of the points `orig + t * dir`; `dir` need not have length one.
#[derive(Clone, Copy, Debug, PartialEq, Eq, Structural)]
pub struct Ray {
    pub orig: Point3,
    pub dir: Vec3,
}

impl Ray {
    /// The point of the ray at parameter `t`.
    pub open spec fn spec_at(self, t: Fixed) -> Point3 {
        self.orig.plus(self.dir.scale(t))
    }

    /// The ray from `origin` along `direction`.
    pub fn new(origin: Point3, direction: Vec3) -> (r: Ray)
        ensures
            r.orig == origin,
            r.dir == direction,
    {
        Ray {
            orig: Point3 { x: origin.x, y: origin.y, z: origin.z },
            dir: Vec3 { x: direction.x, y: direction.y, z: direction.z },
        }
    }

    /// The point of the ray at parameter `t`.
    #[verifier::when_used_as_spec(spec_at)]
    pub fn at(self, t: Fixed) -> (p: Point3)
        ensures
            p == self.spec_at(t),
    {
        self.orig.plus(self.dir.scale(t))
    }
}

} // verus!
