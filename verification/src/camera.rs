//! The camera: from a place on the image to a ray into the scene.

use vstd::prelude::*;
use crate::fixed::{Fixed, MINUS_ONE, ONE, fx_int, fx_prod, fx_quot, lemma_prod_by_unit, lemma_prod_by_whole, lemma_quot_by_unit, lemma_quot_is, lemma_quot_of_zero, lemma_root_of_square, prod, quot};
use crate::random::{in_unit_ball, random_in_unit_disk};
use crate::ray::Ray;
use crate::trig::{HALF_PI, PI, QUARTER_PI, lemma_tan_of_quarter_turn, tan};
use crate::vec3::{Point3, TWO, Vec3};

verus! {

/// The number 180.
pub const HALF_TURN_DEGREES: Fixed = 0xb4_0000_0000;

/// A camera with a thin lens.
#[derive(Clone, Copy, Debug, PartialEq, Eq, Structural)]
pub struct Camera {
    /// The centre of the lens.
    pub origin: Point3,
    /// The lower left corner of the plane in focus.
    pub _lower_left_corner: Point3,
    /// The plane in focus from left to right.
    pub horizontal: Vec3,
    /// The plane in focus from bottom to top.
    pub vertical: Vec3,
    /// The camera's right.
    pub u: Vec3,
    /// The camera's up.
    pub v: Vec3,
    /// The camera's back.
    pub w: Vec3,
    /// The radius of the lens.
    pub lens_radius: Fixed,
}

/// The angle in radians of an angle in degrees: `degrees * pi / 180`.
pub open spec fn spec_degrees_to_radians(degrees: Fixed) -> Fixed {
    fx_quot(fx_prod(degrees, PI), HALF_TURN_DEGREES)
}

/// Converts an angle in degrees to radians.
#[verifier::when_used_as_spec(spec_degrees_to_radians)]
pub fn degrees_to_radians(degrees: Fixed) -> (r: Fixed)
    ensures
        r == spec_degrees_to_radians(degrees),
{
    quot(prod(degrees, PI), HALF_TURN_DEGREES)
}

impl Camera {
    /// The camera at `look_from` that looks at `look_at` with `vup` upward,
    /// sees the angle `vfov` (in degrees) from bottom to top and
    /// `aspect_ratio` times as much from left to right, has a lens of the
    /// diameter `aperture` and is focused at the distance `focus_dist`.
    ///
    /// With `w` the unit vector from `look_at` to `look_from`, `u` the unit
    /// vector along `vup x w` and `v = w x u`, the plane in focus is `2 h`
    /// high, where `h = tan(vfov / 2)`, times `focus_dist`, and lies at
    /// `focus_dist` along `-w`.
    #[verifier::opaque]
    pub open spec fn spec_new(
        look_from: Point3,
        look_at: Point3,
        vup: Vec3,
        vfov: Fixed,
        aspect_ratio: Fixed,
        aperture: Fixed,
        focus_dist: Fixed,
    ) -> Camera {
        let theta = degrees_to_radians(vfov);
        let h = tan(fx_quot(theta, TWO));
        let viewport_height = fx_prod(TWO, h);
        let viewport_width = fx_prod(aspect_ratio, viewport_height);
        let sw = look_from.minus(look_at).unit();
        let su = Vec3::cross(vup, sw).unit();
        let sv = Vec3::cross(sw, su);
        Camera {
            origin: look_from,
            _lower_left_corner: look_from.minus(
                su.scale(viewport_width).divide(TWO).scale(focus_dist),
            ).minus(sv.scale(viewport_height).divide(TWO).scale(focus_dist)).minus(
                sw.scale(focus_dist),
            ),
            horizontal: su.scale(viewport_width).scale(focus_dist),
            vertical: sv.scale(viewport_height).scale(focus_dist),
            w: sw,
            u: su,
            v: sv,
            lens_radius: fx_quot(aperture, TWO),
        }
    }

    /// The ray through the place `(s, t)` of the image, both from zero to
    /// one, when `disk` is the random point drawn on the unit disk: it
    /// starts on the lens at `disk` scaled by the lens radius, and passes
    /// through the point of the plane in focus that belongs to `(s, t)`.
    pub open spec fn spec_ray(&self, s: Fixed, t: Fixed, disk: Vec3) -> Ray {
        let rd = disk.scale(self.lens_radius);
        let offset = self.u.scale(rd.x).plus(self.v.scale(rd.y));
        Ray {
            orig: self.origin.plus(offset),
            dir: self._lower_left_corner.plus(self.horizontal.scale(s)).plus(
                self.vertical.scale(t),
            ).minus(self.origin).minus(offset),
        }
    }

    /// Builds the camera.
    #[verifier::when_used_as_spec(spec_new)]
    pub fn new(
        look_from: Point3,
        look_at: Point3,
        vup: Vec3,
        vfov: Fixed,
        aspect_ratio: Fixed,
        aperture: Fixed,
        focus_dist: Fixed,
    ) -> (r: Camera)
        ensures
            r == Camera::spec_new(
                look_from,
                look_at,
                vup,
                vfov,
                aspect_ratio,
                aperture,
                focus_dist,
            ),
    {
        reveal(Camera::spec_new);
        let theta = degrees_to_radians(vfov);
        let h = tan(quot(theta, TWO));
        let viewport_height = prod(TWO, h);
        let viewport_width = prod(aspect_ratio, viewport_height);

        let sw = look_from.minus(look_at).unit();
        let su = Vec3::cross(vup, sw).unit();
        let sv = Vec3::cross(sw, su);

        Camera {
            origin: look_from,
            _lower_left_corner: look_from.minus(
                su.scale(viewport_width).divide(TWO).scale(focus_dist),
            ).minus(sv.scale(viewport_height).divide(TWO).scale(focus_dist)).minus(
                sw.scale(focus_dist),
            ),
            horizontal: su.scale(viewport_width).scale(focus_dist),
            vertical: sv.scale(viewport_height).scale(focus_dist),
            w: sw,
            u: su,
            v: sv,
            lens_radius: quot(aperture, TWO),
        }
    }

    /// The ray through the place `(s, t)` for the drawn point `disk`.
    #[verifier::when_used_as_spec(spec_ray)]
    pub fn get_ray_with(&self, s: Fixed, t: Fixed, disk: Vec3) -> (r: Ray)
        ensures
            r == self.spec_ray(s, t, disk),
    {
        let rd = disk.scale(self.lens_radius);
        let offset = self.u.scale(rd.x).plus(self.v.scale(rd.y));
        Ray::new(
            self.origin.plus(offset),
            self._lower_left_corner.plus(self.horizontal.scale(s)).plus(
                self.vertical.scale(t),
            ).minus(self.origin).minus(offset),
        )
    }

    /// A ray through the place `(s, t)` of the image, from a random point
    /// of the lens.
    pub fn get_ray(&self, s: Fixed, t: Fixed) -> (r: Ray)
        ensures
            exists|disk: Vec3| in_unit_ball(disk) && disk.z == 0 && r == self.spec_ray(s, t, disk),
    {
        let disk = random_in_unit_disk();
        self.get_ray_with(s, t, disk)
    }
}

/// A quarter turn in degrees is half of pi in radians, and half a turn is
/// pi.
pub proof fn lemma_right_angle_in_radians()
    ensures
        spec_degrees_to_radians(fx_int(90)) == HALF_PI,
        spec_degrees_to_radians(fx_int(180)) == PI,
        fx_quot(HALF_PI, TWO) == QUARTER_PI,
{
    lemma_prod_by_whole(90, PI);
    lemma_prod_by_whole(180, PI);
    assert(fx_prod(fx_int(90), PI) == 0x11a_be4b_73d0);
    assert(fx_prod(fx_int(180), PI) == 0x235_7c96_e7a0);
    lemma_quot_is(0x11a_be4b_73d0, HALF_TURN_DEGREES, 0x1_921f_b544);
    lemma_quot_is(0x235_7c96_e7a0, HALF_TURN_DEGREES, 0x3_243f_6a88);
    lemma_quot_is(HALF_PI, TWO, 0xc90f_daa2);
}

/// The camera at the origin that looks along `-z` with `y` upward, sees a
/// right angle, takes a square picture through a pinhole and is focused at
/// the distance one spans the square from `(-1, -1, -1)` to `(1, 1, -1)`
/// exactly: its corner rays are `(-1, -1, -1)`, `(1, -1, -1)`, `(-1, 1, -1)`
/// and `(1, 1, -1)`, and its middle ray is `(0, 0, -1)`.
pub proof fn lemma_right_angle_camera()
    ensures
        Camera::spec_new(
            Vec3::zero(),
            Vec3 { x: 0, y: 0, z: MINUS_ONE },
            Vec3 { x: 0, y: ONE, z: 0 },
            fx_int(90),
            ONE,
            0,
            ONE,
        ) == (Camera {
            origin: Vec3::zero(),
            _lower_left_corner: Vec3 { x: MINUS_ONE, y: MINUS_ONE, z: MINUS_ONE },
            horizontal: Vec3 { x: TWO, y: 0, z: 0 },
            vertical: Vec3 { x: 0, y: TWO, z: 0 },
            u: Vec3 { x: ONE, y: 0, z: 0 },
            v: Vec3 { x: 0, y: ONE, z: 0 },
            w: Vec3 { x: 0, y: 0, z: ONE },
            lens_radius: 0,
        }),
{
    reveal(Camera::spec_new);
    lemma_right_angle_in_radians();
    lemma_tan_of_quarter_turn();
    lemma_prod_by_unit(0);
    lemma_prod_by_unit(ONE);
    lemma_prod_by_unit(TWO);
    lemma_prod_by_unit(MINUS_ONE);
    lemma_quot_by_unit(0);
    lemma_quot_by_unit(ONE);
    lemma_quot_of_zero(TWO);
    lemma_quot_is(TWO, TWO, ONE);
    lemma_root_of_square(ONE);
    let look_from = Vec3::zero();
    let look_at = Vec3 { x: 0, y: 0, z: MINUS_ONE };
    let vup = Vec3 { x: 0, y: ONE, z: 0 };
    let z = Vec3 { x: 0, y: 0, z: ONE };
    let x = Vec3 { x: ONE, y: 0, z: 0 };
    assert(look_from.minus(look_at) == z);
    assert(z.squared_length() == ONE);
    assert(z.unit() == z);
    assert(Vec3::cross(vup, z) == x);
    assert(x.squared_length() == ONE);
    assert(x.unit() == x);
    assert(Vec3::cross(z, x) == vup);
    assert(fx_prod(TWO, ONE) == TWO);
    assert(x.scale(TWO).divide(TWO).scale(ONE) == x);
    assert(vup.scale(TWO).divide(TWO).scale(ONE) == vup);
}

/// The rays of the camera of `lemma_right_angle_camera` through the four
/// corners and the middle of the picture.
pub proof fn lemma_right_angle_rays(cam: Camera)
    requires
        cam == (Camera {
            origin: Vec3::zero(),
            _lower_left_corner: Vec3 { x: MINUS_ONE, y: MINUS_ONE, z: MINUS_ONE },
            horizontal: Vec3 { x: TWO, y: 0, z: 0 },
            vertical: Vec3 { x: 0, y: TWO, z: 0 },
            u: Vec3 { x: ONE, y: 0, z: 0 },
            v: Vec3 { x: 0, y: ONE, z: 0 },
            w: Vec3 { x: 0, y: 0, z: ONE },
            lens_radius: 0,
        }),
    ensures
        forall|disk: Vec3|
            #![trigger cam.spec_ray(0, 0, disk)]
            cam.spec_ray(0, 0, disk).dir == (Vec3 { x: MINUS_ONE, y: MINUS_ONE, z: MINUS_ONE }),
        forall|disk: Vec3|
            #![trigger cam.spec_ray(ONE, ONE, disk)]
            cam.spec_ray(ONE, ONE, disk).dir == (Vec3 { x: ONE, y: ONE, z: MINUS_ONE }),
        forall|disk: Vec3|
            #![trigger cam.spec_ray(ONE, 0, disk)]
            cam.spec_ray(ONE, 0, disk).dir == (Vec3 { x: ONE, y: MINUS_ONE, z: MINUS_ONE }),
        forall|disk: Vec3|
            #![trigger cam.spec_ray(0x8000_0000, 0x8000_0000, disk)]
            cam.spec_ray(0x8000_0000, 0x8000_0000, disk) == (Ray {
                orig: Vec3::zero(),
                dir: Vec3 { x: 0, y: 0, z: MINUS_ONE },
            }),
{
    lemma_prod_by_unit(0);
    lemma_prod_by_unit(ONE);
    lemma_prod_by_unit(TWO);
    assert(fx_prod(TWO, 0x8000_0000) == ONE) by {
        assert(TWO * 0x8000_0000 == 0x1_0000_0000 * 0x1_0000_0000) by (nonlinear_arith)
            requires
                TWO == 0x2_0000_0000,
        ;
    }
    assert forall|disk: Vec3| cam.u.scale(disk.scale(0).x).plus(cam.v.scale(disk.scale(0).y))
        == Vec3::zero() by {
        lemma_prod_by_unit(disk.x);
        lemma_prod_by_unit(disk.y);
        lemma_prod_by_unit(disk.z);
    }
}

} // verus!
