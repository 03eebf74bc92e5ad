//! Rectangles that lie in a plane of constant `z`.

use vstd::prelude::*;
use std::sync::Arc;
use crate::aabb::AABB;
use crate::fixed::{Fixed, ONE, diff, fx_diff, fx_prod, fx_quot, fx_sum, prod, quot, sum};
use crate::material::{HitRecord, Material};
use crate::ray::Ray;
use crate::sharing::share;
use crate::vec3::{Color, Point3, Vec3};

verus! {

/// Half of the thickness that a rectangle's bounding box is given: one
/// ten-thousandth.
pub const THICKNESS: Fixed = 0x6_8db9;

/// The rectangle from `(x0, y0)` to `(x1, y1)` in the plane `z = k`.
pub struct XYrect {
    pub mp: Arc<Material>,
    pub x0: Fixed,
    pub x1: Fixed,
    pub y0: Fixed,
    pub y1: Fixed,
    pub k: Fixed,
}

impl XYrect {
    /// The parameter at which the ray crosses the rectangle's plane:
    /// `(k - orig.z) / dir.z`.
    pub open spec fn plane_crossing(&self, ray: &Ray) -> Fixed {
        fx_quot(fx_diff(self.k, ray.orig.z), ray.dir.z)
    }

    /// Where the ray meets the rectangle between `t_min` and `t_max`, both
    /// included: where it crosses the plane, if it does so within the
    /// rectangle's sides. The normal is the `z` axis turned against the ray,
    /// and the texture coordinates run from zero to one across each side.
    #[verifier::opaque]
    pub open spec fn spec_hit(&self, ray: &Ray, t_min: Fixed, t_max: Fixed) -> Option<HitRecord> {
        let tin = self.plane_crossing(ray);
        let x = fx_sum(ray.orig.x, fx_prod(tin, ray.dir.x));
        let y = fx_sum(ray.orig.y, fx_prod(tin, ray.dir.y));
        if tin < t_min || tin > t_max {
            None
        } else if x < self.x0 || x > self.x1 || y < self.y0 || y > self.y1 {
            None
        } else {
            let outward_normal = Vec3 { x: 0, y: 0, z: ONE };
            Some(
                HitRecord {
                    u: fx_quot(fx_diff(x, self.x0), fx_diff(self.x1, self.x0)),
                    v: fx_quot(fx_diff(y, self.y0), fx_diff(self.y1, self.y0)),
                    ..(HitRecord {
                        p: ray.at(tin),
                        normal: outward_normal,
                        mat_ptr: self.mp,
                        t: tin,
                        u: 0,
                        v: 0,
                        front_face: true,
                    }).facing(ray, &outward_normal)
                },
            )
        }
    }

    /// The rectangle's extent, made `THICKNESS` thick to either side of the
    /// plane.
    pub open spec fn spec_bounding_box(&self) -> AABB {
        AABB {
            min_p: Point3 { x: self.x0, y: self.y0, z: fx_diff(self.k, THICKNESS) },
            max_p: Point3 { x: self.x1, y: self.y1, z: fx_sum(self.k, THICKNESS) },
        }
    }

    /// The rectangle from `(x0, y0)` to `(x1, y1)` in the plane `z = k`, of
    /// the material `mp`.
    pub fn new(x0: Fixed, x1: Fixed, y0: Fixed, y1: Fixed, k: Fixed, mp: Arc<Material>) -> (r:
        XYrect)
        ensures
            r == (XYrect { mp, x0, x1, y0, y1, k }),
    {
        XYrect { mp, x0, x1, y0, y1, k }
    }

    /// Where the ray meets the rectangle between `t_min` and `t_max`.
    #[verifier::when_used_as_spec(spec_hit)]
    pub fn hit(&self, ray: &Ray, t_min: Fixed, t_max: Fixed) -> (r: Option<HitRecord>)
        ensures
            r == self.spec_hit(ray, t_min, t_max),
    {
        reveal(XYrect::spec_hit);
        let tin = quot(diff(self.k, ray.orig.z), ray.dir.z);
        if tin < t_min || tin > t_max {
            return None;
        }
        let x = sum(ray.orig.x, prod(tin, ray.dir.x));
        let y = sum(ray.orig.y, prod(tin, ray.dir.y));
        if x < self.x0 || x > self.x1 || y < self.y0 || y > self.y1 {
            return None;
        }
        let outward_normal = Vec3::new(0, 0, ONE);
        let u = quot(diff(x, self.x0), diff(self.x1, self.x0));
        let v = quot(diff(y, self.y0), diff(self.y1, self.y0));
        let mut cur_rec = HitRecord::new(ray.at(tin), Vec3::new(0, 0, ONE), tin, share(&self.mp));
        cur_rec.set_face_normal(ray, &outward_normal);
        cur_rec.set_uv((u, v));
        Some(cur_rec)
    }

    /// The rectangle's bounding box, at all times.
    pub fn bounding_box(&self, _t0: Fixed, _t1: Fixed) -> (b: Option<AABB>)
        ensures
            b == Some(self.spec_bounding_box()),
            self.x0 <= self.x1 && self.y0 <= self.y1 ==> self.spec_bounding_box().wf(),
    {
        let output_box = AABB::new(
            Point3::new(self.x0, self.y0, diff(self.k, THICKNESS)),
            Point3::new(self.x1, self.y1, sum(self.k, THICKNESS)),
        );
        Some(output_box)
    }

    /// A rectangle has no background of its own: black.
    pub fn get_background(&self, _t: Fixed) -> (c: Color)
        ensures
            c == Color::zero(),
    {
        Color::zero()
    }
}

/// A rectangle answers alike when the interval is cut short: asked for a
/// hit between `t_min` and `cut <= t_max`, it reports its hit between
/// `t_min` and `t_max` if that lies at `cut` or before, and none if it lies
/// beyond.
pub proof fn lemma_rect_hit_is_steady(
    r: &XYrect,
    ray: &Ray,
    t_min: Fixed,
    t_max: Fixed,
    cut: Fixed,
)
    requires
        cut <= t_max,
    ensures
        match r.spec_hit(ray, t_min, cut) {
            Some(rec) => r.spec_hit(ray, t_min, t_max) == Some(rec) && rec.t <= cut,
            None => r.spec_hit(ray, t_min, t_max) matches Some(rec) ==> rec.t > cut,
        },
{
    reveal(XYrect::spec_hit);
}

} // verus!
