//! Spheres.

use vstd::prelude::*;
use std::sync::Arc;
use crate::aabb::{AABB, lemma_quot_monotone};
use crate::fixed::{Fixed, MINUS_ONE, ONE, abs, diff, fx_abs, fx_diff, fx_neg, fx_prod, fx_quot, fx_root, fx_sum, lemma_prod_by_unit, lemma_quot_by_self, lemma_quot_is, lemma_quot_by_unit, lemma_quot_of_zero, lemma_root_bounds, lemma_root_of_square, neg, prod, quot, root, sum};
use crate::material::{HitRecord, Material};
use crate::ray::Ray;
use crate::sharing::share;
use crate::trig::{HALF_PI, PI, asin, atan2, lemma_asin_range, lemma_atan2_on_the_axes, lemma_atan2_range};
use crate::vec3::{Color, Point3, Vec3};

verus! {

/// Twice `PI`.
pub const TWO_PI: Fixed = 0x6_487e_d510;

/// The sphere about `center` with the radius `radius`. A negative radius
/// turns the surface inside out: the normals point to the centre.
#[derive(Clone)]
pub struct Sphere {
    pub center: Point3,
    pub radius: Fixed,
    pub mat_ptr: Arc<Material>,
}

/// The texture coordinates of the point `p` of the unit sphere about the
/// origin: `u = 1 - (atan2(z, x) + pi) / (2 pi)` runs around the `y` axis and
/// `v = (asin(y) + pi / 2) / pi` from the bottom to the top.
#[verifier::opaque]
pub open spec fn spec_sphere_uv(p: &Vec3) -> (Fixed, Fixed) {
    let phi = atan2(p.z, p.x);
    let theta = asin(p.y);
    (fx_diff(ONE, fx_quot(fx_sum(phi, PI), TWO_PI)), fx_quot(fx_sum(theta, HALF_PI), PI))
}

/// The texture coordinates lie between zero and one.
pub proof fn lemma_sphere_uv_in_unit_square(p: &Vec3)
    ensures
        0 <= spec_sphere_uv(p).0 <= ONE,
        0 <= spec_sphere_uv(p).1 <= ONE,
{
    reveal(spec_sphere_uv);
    lemma_atan2_range(p.z, p.x);
    lemma_asin_range(p.y);
    let turn = fx_sum(atan2(p.z, p.x), PI);
    let rise = fx_sum(asin(p.y), HALF_PI);
    assert(0 <= turn * ONE && 0 <= (2 * (turn * ONE) + TWO_PI) / (2 * TWO_PI) <= ONE)
        by (nonlinear_arith)
        requires
            0 <= turn <= TWO_PI,
            TWO_PI == 0x6_487e_d510,
            ONE == 0x1_0000_0000,
    ;
    assert(0 <= rise * ONE && 0 <= (2 * (rise * ONE) + PI) / (2 * PI) <= ONE) by (nonlinear_arith)
        requires
            0 <= rise <= PI,
            PI == 0x3_243f_6a88,
            ONE == 0x1_0000_0000,
    ;
}

/// Around the equator of the unit sphere the first texture coordinate is
/// exact at the four points on the axes, and the second is one half: the
/// point `(0, 0, 1)` has the coordinates `(1/4, 1/2)`.
pub proof fn lemma_uv_on_the_equator()
    ensures
        spec_sphere_uv(&Vec3 { x: 0, y: 0, z: ONE }) == (0x4000_0000i64, 0x8000_0000i64),
        spec_sphere_uv(&Vec3 { x: ONE, y: 0, z: 0 }) == (0x8000_0000i64, 0x8000_0000i64),
        spec_sphere_uv(&Vec3 { x: 0, y: 0, z: MINUS_ONE }) == (0xc000_0000i64, 0x8000_0000i64),
        spec_sphere_uv(&Vec3 { x: MINUS_ONE, y: 0, z: 0 }) == (0i64, 0x8000_0000i64),
{
    reveal(spec_sphere_uv);
    lemma_atan2_on_the_axes(ONE);
    lemma_prod_by_unit(0);
    lemma_root_of_square(ONE);
    lemma_prod_by_unit(ONE);
    assert(fx_root(fx_diff(ONE, fx_prod(0, 0))) == ONE);
    assert(asin(0) == 0);
    lemma_ratio_of_turns();
}

/// A quarter, a half and three quarters of a turn, divided by a turn, and a
/// quarter of a turn divided by half a turn.
proof fn lemma_ratio_of_turns()
    ensures
        fx_quot(HALF_PI, PI) == 0x8000_0000,
        fx_quot(fx_sum(HALF_PI, PI), TWO_PI) == 0xc000_0000,
        fx_quot(PI, TWO_PI) == 0x8000_0000,
        fx_quot(fx_sum(-HALF_PI as i64, PI), TWO_PI) == 0x4000_0000,
        fx_quot(fx_sum(PI, PI), TWO_PI) == ONE,
{
    lemma_quot_is(0x1_921f_b544, 0x3_243f_6a88, 0x8000_0000);
    lemma_quot_is(0x4_b65f_1fcc, 0x6_487e_d510, 0xc000_0000);
    lemma_quot_is(0x3_243f_6a88, 0x6_487e_d510, 0x8000_0000);
    lemma_quot_is(0x1_921f_b544, 0x6_487e_d510, 0x4000_0000);
    lemma_quot_is(0x6_487e_d510, 0x6_487e_d510, 0x1_0000_0000);
}

/// The texture coordinates of a point of the unit sphere about the origin.
#[verifier::when_used_as_spec(spec_sphere_uv)]
pub fn get_sphere_uv(p: &Vec3) -> (uv: (Fixed, Fixed))
    ensures
        uv == spec_sphere_uv(p),
        0 <= uv.0 <= ONE,
        0 <= uv.1 <= ONE,
{
    proof {
        reveal(spec_sphere_uv);
        lemma_sphere_uv_in_unit_square(p);
    }
    let phi = atan2(p.z, p.x);
    let theta = asin(p.y);
    let u = diff(ONE, quot(sum(phi, PI), TWO_PI));
    let v = quot(sum(theta, HALF_PI), PI);
    (u, v)
}

impl Sphere {
    /// The discriminant of the quadratic equation for the ray's parameter at
    /// the sphere, divided by four: `half_b^2 - a c`, where `a = |dir|^2`,
    /// `half_b = oc . dir`, `c = |oc|^2 - radius^2` and `oc = orig - center`.
    pub open spec fn discriminant(&self, ray: &Ray) -> Fixed {
        let oc = ray.orig.minus(self.center);
        let a = ray.dir.squared_length();
        let half_b = oc.dot(ray.dir);
        let c = fx_diff(oc.squared_length(), fx_prod(self.radius, self.radius));
        fx_diff(fx_prod(half_b, half_b), fx_prod(a, c))
    }

    /// The smaller solution of the equation: `(-half_b - sqrt(disc)) / a`.
    pub open spec fn near_root(&self, ray: &Ray) -> Fixed {
        let half_b = ray.orig.minus(self.center).dot(ray.dir);
        fx_quot(
            fx_diff(fx_neg(half_b), fx_root(self.discriminant(ray))),
            ray.dir.squared_length(),
        )
    }

    /// The larger solution of the equation: `(-half_b + sqrt(disc)) / a`.
    pub open spec fn far_root(&self, ray: &Ray) -> Fixed {
        let half_b = ray.orig.minus(self.center).dot(ray.dir);
        fx_quot(
            fx_sum(fx_neg(half_b), fx_root(self.discriminant(ray))),
            ray.dir.squared_length(),
        )
    }

    /// The record of the ray meeting the sphere at the parameter `t`.
    pub open spec fn record_at(&self, ray: &Ray, t: Fixed) -> HitRecord {
        let p = ray.at(t);
        let outward_normal = p.minus(self.center).divide(self.radius);
        let uv = get_sphere_uv(&outward_normal);
        HitRecord {
            u: uv.0,
            v: uv.1,
            ..(HitRecord {
                p,
                normal: p.minus(self.center).unit(),
                mat_ptr: self.mat_ptr,
                t,
                u: 0,
                v: 0,
                front_face: true,
            }).facing(ray, &outward_normal)
        }
    }

    /// Where the ray meets the sphere between `t_min` and `t_max`, both
    /// excluded: at the smaller solution if it lies there, else at the larger
    /// one if that does; nowhere if the discriminant is not positive.
    #[verifier::opaque]
    pub open spec fn spec_hit(&self, ray: &Ray, t_min: Fixed, t_max: Fixed) -> Option<HitRecord> {
        if self.discriminant(ray) > 0 {
            let near = self.near_root(ray);
            let far = self.far_root(ray);
            if t_min < near < t_max {
                Some(self.record_at(ray, near))
            } else if t_min < far < t_max {
                Some(self.record_at(ray, far))
            } else {
                None
            }
        } else {
            None
        }
    }

    /// The cube around the sphere.
    pub open spec fn spec_bounding_box(&self) -> AABB {
        let r = Vec3::ones().scale(fx_abs(self.radius));
        AABB { min_p: self.center.minus(r), max_p: self.center.plus(r) }
    }

    /// The parameter at which the ray first meets the sphere's surface, be
    /// it behind the origin; minus one if the ray's line misses the sphere.
    pub open spec fn spec_hit_sphere(&self, r: &Ray) -> Fixed {
        if self.discriminant(r) < 0 {
            MINUS_ONE
        } else {
            self.near_root(r)
        }
    }

    /// The sphere about `c` with the radius `r` and the material `m`.
    pub fn new(c: Point3, r: Fixed, m: Arc<Material>) -> (s: Sphere)
        ensures
            s.center == c,
            s.radius == r,
            s.mat_ptr == m,
    {
        Sphere { center: Point3 { x: c.x, y: c.y, z: c.z }, radius: r, mat_ptr: m }
    }

    /// The record of the ray meeting the sphere at the parameter `temp`.
    fn make_record(&self, ray: &Ray, temp: Fixed) -> (rec: HitRecord)
        ensures
            rec == self.record_at(ray, temp),
    {
        let n = ray.at(temp).minus(self.center).unit();
        let outward_normal = ray.at(temp).minus(self.center).divide(self.radius);
        let mut rec = HitRecord::new(ray.at(temp), n, temp, share(&self.mat_ptr));
        rec.set_face_normal(ray, &outward_normal);
        let res = get_sphere_uv(&outward_normal);
        rec.set_uv(res);
        rec
    }

    /// Where the ray meets the sphere between `t_min` and `t_max`.
    #[verifier::when_used_as_spec(spec_hit)]
    pub fn hit(&self, ray: &Ray, t_min: Fixed, t_max: Fixed) -> (r: Option<HitRecord>)
        ensures
            r == self.spec_hit(ray, t_min, t_max),
    {
        reveal(Sphere::spec_hit);
        let oc = ray.orig.minus(self.center);
        let a = ray.dir.squared_length();
        let half_b = oc.dot(ray.dir);
        let c = diff(oc.squared_length(), prod(self.radius, self.radius));
        let discriminant = diff(prod(half_b, half_b), prod(a, c));

        if discriminant > 0 {
            let root = root(discriminant);
            let temp = quot(diff(neg(half_b), root), a);
            if temp < t_max && temp > t_min {
                return Some(self.make_record(ray, temp));
            }
            let temp = quot(sum(neg(half_b), root), a);
            if temp < t_max && temp > t_min {
                return Some(self.make_record(ray, temp));
            }
        }
        None
    }

    /// The sphere's bounding box, at all times.
    pub fn bounding_box(&self, _t0: Fixed, _t1: Fixed) -> (b: Option<AABB>)
        ensures
            b == Some(self.spec_bounding_box()),
            self.spec_bounding_box().wf(),
    {
        let r = Vec3::ones().scale(abs(self.radius));
        let output_box = AABB::new(self.center.minus(r), self.center.plus(r));
        Some(output_box)
    }

    /// A sphere has no background of its own: black.
    pub fn get_background(&self, _t: Fixed) -> (c: Color)
        ensures
            c == Color::zero(),
    {
        Color::zero()
    }

    /// The parameter at which the ray first meets the sphere's surface;
    /// minus one if the ray's line misses the sphere.
    #[verifier::when_used_as_spec(spec_hit_sphere)]
    pub fn hit_sphere(&self, r: &Ray) -> (t: Fixed)
        ensures
            t == self.spec_hit_sphere(r),
    {
        let oc = r.orig.minus(self.center);
        let a = r.dir.squared_length();
        let half_b = oc.dot(r.dir);
        let c = diff(oc.squared_length(), prod(self.radius, self.radius));
        let discriminant = diff(prod(half_b, half_b), prod(a, c));

        if discriminant < 0 {
            MINUS_ONE
        } else {
            quot(diff(neg(half_b), root(discriminant)), a)
        }
    }
}

/// The square of a vector's length is not negative.
pub proof fn lemma_squared_length_is_not_negative(v: Vec3)
    ensures
        v.squared_length() >= 0,
{
    assert(v.x * v.x >= 0 && v.y * v.y >= 0 && v.z * v.z >= 0) by (nonlinear_arith);
}

/// The smaller solution is not greater than the larger one.
pub proof fn lemma_roots_in_order(s: &Sphere, ray: &Ray)
    ensures
        s.near_root(ray) <= s.far_root(ray),
{
    let half_b = ray.orig.minus(s.center).dot(ray.dir);
    let root = fx_root(s.discriminant(ray));
    let a = ray.dir.squared_length();
    lemma_root_bounds(s.discriminant(ray));
    lemma_squared_length_is_not_negative(ray.dir);
    if a > 0 {
        lemma_quot_monotone(fx_diff(fx_neg(half_b), root), fx_sum(fx_neg(half_b), root), a);
    }
}

/// A sphere answers alike when the interval is cut short: asked for a hit
/// between `t_min` and `cut <= t_max`, it reports its hit between `t_min`
/// and `t_max` if that lies before `cut`, and none if it lies at `cut` or
/// beyond.
pub proof fn lemma_sphere_hit_is_steady(
    s: &Sphere,
    ray: &Ray,
    t_min: Fixed,
    t_max: Fixed,
    cut: Fixed,
)
    requires
        cut <= t_max,
    ensures
        match s.spec_hit(ray, t_min, cut) {
            Some(rec) => s.spec_hit(ray, t_min, t_max) == Some(rec) && rec.t < cut,
            None => s.spec_hit(ray, t_min, t_max) matches Some(rec) ==> rec.t >= cut,
        },
{
    reveal(Sphere::spec_hit);
    lemma_roots_in_order(s, ray);
}

/// A ray that runs along an axis straight at a sphere about the origin,
/// from the distance `dist` outside it, meets the sphere at the parameter
/// `dist - radius`, from outside, at the point of the sphere that faces the
/// ray's origin; the normal there is the reverse of the ray's direction.
///
/// The ray's direction has the length one, and the radius has at most
/// sixteen fractional bits, so that its square is exact.
pub proof fn lemma_head_on_hit(
    s: &Sphere,
    ray: &Ray,
    axis: usize,
    dist: Fixed,
    t_min: Fixed,
    t_max: Fixed,
)
    requires
        s.center == Vec3::zero(),
        0 < s.radius < dist < 0x8000_0000_0000,
        s.radius % 0x1_0000 == 0,
        ray.dir == Vec3::along(axis, ONE) || ray.dir == Vec3::along(axis, MINUS_ONE),
        ray.orig == ray.dir.negate().scale(dist),
        t_min < dist - s.radius < t_max,
    ensures
        s.spec_hit(ray, t_min, t_max) matches Some(rec) && {
            &&& rec.t == dist - s.radius
            &&& rec.p == ray.dir.negate().scale(s.radius)
            &&& rec.normal == ray.dir.negate()
            &&& rec.front_face
            &&& rec.mat_ptr == s.mat_ptr
        },
{
    reveal(Sphere::spec_hit);
    let r = s.radius;
    let d = if ray.dir == Vec3::along(axis, ONE) {
        ONE
    } else {
        MINUS_ONE
    };
    let t = (dist - r) as i64;
    lemma_prod_by_unit(0);
    lemma_prod_by_unit(ONE);
    lemma_prod_by_unit(MINUS_ONE);
    lemma_prod_by_unit(dist);
    lemma_prod_by_unit(fx_neg(dist));
    lemma_prod_by_unit(r);
    lemma_prod_by_unit(fx_neg(r));
    lemma_prod_by_unit(t);
    lemma_root_of_square(r);
    lemma_quot_by_unit(t);
    lemma_quot_by_self(r);
    lemma_quot_of_zero(r);
    let d2 = fx_prod(dist, dist);
    let r2 = fx_prod(r, r);
    assert(0 <= dist * dist <= 0x3fff_ffff_ffff_0000_0000_0001 && (-dist) * (-dist) == dist * dist)
        by (nonlinear_arith)
        requires
            0 < dist < 0x8000_0000_0000,
    ;
    assert(0 <= (2 * (dist * dist) + 0x1_0000_0000) / 0x2_0000_0000 < 0x4000_0000_0000_0000);
    assert(0 <= d2 < 0x4000_0000_0000_0000);
    assert(fx_prod(fx_neg(dist), fx_neg(dist)) == d2);
    assert(0 < r2 < 0x4000_0000_0000_0000) by {
        assert(0 < r * r <= 0x3fff_ffff_ffff_0000_0000_0001) by (nonlinear_arith)
            requires
                0 < r < 0x8000_0000_0000,
        ;
    }
    let orig_k = if d == ONE {
        fx_neg(dist)
    } else {
        dist
    };
    assert(ray.orig == Vec3::along(axis, orig_k));
    let oc = ray.orig.minus(s.center);
    assert(oc == ray.orig);
    assert(ray.dir.squared_length() == ONE);
    assert(oc.dot(ray.dir) == fx_neg(dist));
    assert(oc.squared_length() == d2);
    lemma_prod_by_unit(fx_diff(d2, r2));
    assert(s.discriminant(ray) == r2);
    assert(s.near_root(ray) == t);
    let p = ray.at(t);
    let back_k = if d == ONE {
        fx_neg(r)
    } else {
        r
    };
    assert(p == Vec3::along(axis, back_k));
    assert(p == ray.dir.negate().scale(r));
    let outward = p.minus(s.center).divide(r);
    assert(fx_quot(0, r) == 0);
    assert(outward == ray.dir.negate());
    assert(ray.dir.dot(outward) == MINUS_ONE);
}

} // verus!
