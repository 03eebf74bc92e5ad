use raytracer::aabb::{surrounding_box, AABB};
use raytracer::aarect::XYrect;
use raytracer::fixed::{from_int, quot, Fixed, INFINITY, MINUS_ONE, ONE};
use raytracer::material::{Lambertian, Material};
use raytracer::object::{HittableList, Object};
use raytracer::ray::Ray;
use raytracer::sphere::{get_sphere_uv, Sphere};
use raytracer::vec3::{Color, Point3, Vec3};
use std::sync::Arc;

fn fx(v: f64) -> Fixed {
    (v * 4294967296.0).round() as i64
}

fn as_float(a: Fixed) -> f64 {
    a as f64 / 4294967296.0
}

fn point(x: f64, y: f64, z: f64) -> Point3 {
    Vec3::new(fx(x), fx(y), fx(z))
}

fn grey() -> Arc<Material> {
    Arc::new(Material::Lambertian(Lambertian::new(&Color::new(ONE / 2, ONE / 2, ONE / 2))))
}

fn unit_box() -> AABB {
    AABB::new(point(-1.0, -1.0, -1.0), point(1.0, 1.0, 1.0))
}

#[test]
fn ray_is_evaluated_at_a_parameter() {
    let r = Ray::new(point(1.0, 2.0, 3.0), point(0.0, 0.5, -1.0));
    assert_eq!(r.orig, point(1.0, 2.0, 3.0));
    assert_eq!(r.dir, point(0.0, 0.5, -1.0));
    assert_eq!(r.at(0), point(1.0, 2.0, 3.0));
    assert_eq!(r.at(2 * ONE), point(1.0, 3.0, 1.0));
    assert_eq!(r.at(-ONE), point(1.0, 1.5, 4.0));
}

#[test]
fn box_keeps_its_corners() {
    let b = AABB::new(point(1.0, 2.0, 3.0), point(4.0, 5.0, 6.0));
    assert_eq!(b.min_p, point(1.0, 2.0, 3.0));
    assert_eq!(b.max_p, point(4.0, 5.0, 6.0));
}

#[test]
fn box_is_hit_through_its_centre_along_every_axis() {
    let b = AABB::new(point(2.0, -1.0, 4.0), point(4.0, 3.0, 5.0));
    let centre = point(3.0, 1.0, 4.5);
    let axes = [
        point(1.0, 0.0, 0.0),
        point(-1.0, 0.0, 0.0),
        point(0.0, 1.0, 0.0),
        point(0.0, -1.0, 0.0),
        point(0.0, 0.0, 1.0),
        point(0.0, 0.0, -1.0),
    ];
    for dir in axes.iter() {
        let origin = centre.minus(dir.scale(from_int(10)));
        assert!(b.hit(&Ray::new(origin, *dir), 0, INFINITY));
        // from inside the box
        assert!(b.hit(&Ray::new(centre, *dir), 0, INFINITY));
        // a longer direction
        assert!(b.hit(&Ray::new(origin, dir.scale(from_int(7))), 0, INFINITY));
        // away from the box
        assert!(!b.hit(&Ray::new(origin, dir.negate()), 0, INFINITY));
    }
}

#[test]
fn box_outside_the_interval_is_missed() {
    let b = unit_box();
    let r = Ray::new(point(0.0, 0.0, 5.0), point(0.0, 0.0, -1.0));
    // the ray is inside the box from t = 4 to t = 6
    assert!(b.hit(&r, 0, INFINITY));
    assert!(b.hit(&r, fx(4.5), fx(5.0)));
    assert!(b.hit(&r, fx(5.9), fx(100.0)));
    assert!(!b.hit(&r, 0, fx(4.0)));
    assert!(!b.hit(&r, 0, fx(3.0)));
    assert!(!b.hit(&r, fx(6.0), INFINITY));
    assert!(!b.hit(&r, fx(7.0), fx(9.0)));
    // an empty interval
    assert!(!b.hit(&r, fx(5.0), fx(5.0)));
}

#[test]
fn box_is_missed_by_a_ray_beside_it() {
    let b = unit_box();
    assert!(!b.hit(&Ray::new(point(2.0, 0.0, 5.0), point(0.0, 0.0, -1.0)), 0, INFINITY));
    assert!(!b.hit(&Ray::new(point(0.0, -3.0, 5.0), point(0.0, 0.0, -1.0)), 0, INFINITY));
    assert!(b.hit(&Ray::new(point(3.0, 3.0, 3.0), point(-1.0, -1.0, -1.0)), 0, INFINITY));
    assert!(!b.hit(&Ray::new(point(3.0, 3.0, 3.0), point(-1.0, -1.0, 1.0)), 0, INFINITY));
}

#[test]
fn zero_direction_components_do_not_crash() {
    let b = unit_box();
    // on the boundary plane, parallel to it
    assert!(b.hit(&Ray::new(point(1.0, 0.0, 5.0), point(0.0, 0.0, -1.0)), 0, INFINITY));
    // a ray that does not move at all
    assert!(b.hit(&Ray::new(point(0.0, 0.0, 0.0), point(0.0, 0.0, 0.0)), 0, INFINITY));
    assert!(!b.hit(&Ray::new(point(0.0, 0.0, 2.0), point(0.0, 0.0, 0.0)), 0, INFINITY));
}

#[test]
fn union_contains_both_boxes() {
    let a = AABB::new(point(-1.0, 0.0, 2.0), point(1.0, 5.0, 3.0));
    let b = AABB::new(point(0.0, -2.0, 2.5), point(4.0, 1.0, 2.75));
    let u = surrounding_box(a, b);
    assert_eq!(u.min_p, point(-1.0, -2.0, 2.0));
    assert_eq!(u.max_p, point(4.0, 5.0, 3.0));
    assert_eq!(surrounding_box(b, a), u);
    assert_eq!(surrounding_box(a, a), a);
}

#[test]
fn sphere_is_hit_head_on_at_distance_minus_radius() {
    let s = Sphere::new(point(0.0, 0.0, 0.0), fx(1.5), grey());
    let r = Ray::new(point(0.0, 0.0, 5.0), point(0.0, 0.0, -1.0));
    let rec = s.hit(&r, 0, INFINITY).unwrap();
    assert_eq!(rec.t, fx(3.5));
    assert_eq!(rec.p, point(0.0, 0.0, 1.5));
    assert_eq!(rec.normal, point(0.0, 0.0, 1.0));
    assert!(rec.front_face);

    let from_left = Ray::new(point(-10.0, 0.0, 0.0), point(1.0, 0.0, 0.0));
    let rec = s.hit(&from_left, 0, INFINITY).unwrap();
    assert_eq!(rec.t, fx(8.5));
    assert_eq!(rec.p, point(-1.5, 0.0, 0.0));
    assert_eq!(rec.normal, point(-1.0, 0.0, 0.0));
    assert!(rec.front_face);
}

#[test]
fn sphere_is_hit_from_inside_at_the_far_root() {
    let s = Sphere::new(point(0.0, 0.0, 0.0), fx(2.0), grey());
    let r = Ray::new(point(0.0, 0.0, 0.0), point(0.0, 1.0, 0.0));
    let rec = s.hit(&r, fx(0.001), INFINITY).unwrap();
    assert_eq!(rec.t, fx(2.0));
    assert_eq!(rec.p, point(0.0, 2.0, 0.0));
    // the normal is turned against the ray
    assert_eq!(rec.normal, point(0.0, -1.0, 0.0));
    assert!(!rec.front_face);
}

#[test]
fn sphere_respects_the_interval() {
    let s = Sphere::new(point(0.0, 0.0, 0.0), ONE, grey());
    let r = Ray::new(point(0.0, 0.0, 5.0), point(0.0, 0.0, -1.0));
    // roots at 4 and 6, both ends excluded
    assert!(s.hit(&r, 0, fx(4.0)).is_none());
    assert_eq!(s.hit(&r, 0, fx(4.5)).unwrap().t, fx(4.0));
    assert_eq!(s.hit(&r, fx(4.0), INFINITY).unwrap().t, fx(6.0));
    assert!(s.hit(&r, fx(4.0), fx(6.0)).is_none());
    assert!(s.hit(&r, fx(6.0), INFINITY).is_none());
}

#[test]
fn sphere_is_missed_cleanly() {
    let s = Sphere::new(point(0.0, 0.0, 0.0), ONE, grey());
    // passes beside the sphere: negative discriminant
    assert!(s.hit(&Ray::new(point(2.0, 0.0, 5.0), point(0.0, 0.0, -1.0)), 0, INFINITY).is_none());
    // grazes the sphere: zero discriminant
    assert!(s.hit(&Ray::new(point(1.0, 0.0, 5.0), point(0.0, 0.0, -1.0)), 0, INFINITY).is_none());
    // points away
    assert!(s.hit(&Ray::new(point(0.0, 0.0, 5.0), point(0.0, 0.0, 1.0)), 0, INFINITY).is_none());
}

#[test]
fn negative_radius_turns_the_normal_inward() {
    let s = Sphere::new(point(0.0, 0.0, 0.0), fx(-1.0), grey());
    let r = Ray::new(point(0.0, 0.0, 5.0), point(0.0, 0.0, -1.0));
    let rec = s.hit(&r, 0, INFINITY).unwrap();
    assert_eq!(rec.t, fx(4.0));
    // the outward normal points to the centre, so the hit counts as one from inside
    assert!(!rec.front_face);
    assert_eq!(rec.normal, point(0.0, 0.0, 1.0));
    let b = s.bounding_box(0, 0).unwrap();
    assert_eq!(b.min_p, point(-1.0, -1.0, -1.0));
    assert_eq!(b.max_p, point(1.0, 1.0, 1.0));
}

#[test]
fn sphere_has_a_cube_for_a_box() {
    let s = Sphere::new(point(1.0, 2.0, 3.0), fx(0.5), grey());
    let b = s.bounding_box(0, ONE).unwrap();
    assert_eq!(b.min_p, point(0.5, 1.5, 2.5));
    assert_eq!(b.max_p, point(1.5, 2.5, 3.5));
    assert_eq!(s.get_background(ONE / 2), Vec3::zero());
}

#[test]
fn first_root_of_a_sphere() {
    let s = Sphere::new(point(0.0, 0.0, 0.0), ONE, grey());
    assert_eq!(s.hit_sphere(&Ray::new(point(0.0, 0.0, 5.0), point(0.0, 0.0, -1.0))), fx(4.0));
    assert_eq!(s.hit_sphere(&Ray::new(point(0.0, 0.0, 5.0), point(0.0, 0.0, 1.0))), fx(-6.0));
    assert_eq!(s.hit_sphere(&Ray::new(point(3.0, 0.0, 5.0), point(0.0, 0.0, -1.0))), MINUS_ONE);
}

#[test]
fn sphere_texture_coordinates() {
    // the point (-1, 0, 0): atan2(0, -1) = pi, so u = 1 - (pi + pi) / (2 pi) = 0
    let (u, v) = get_sphere_uv(&point(-1.0, 0.0, 0.0));
    assert!(as_float(u).abs() < 1e-8);
    assert!((as_float(v) - 0.5).abs() < 1e-8);
    // the top
    let (_, v) = get_sphere_uv(&point(0.0, 1.0, 0.0));
    assert!((as_float(v) - 1.0).abs() < 1e-8);
    // the bottom
    let (_, v) = get_sphere_uv(&point(0.0, -1.0, 0.0));
    assert!(as_float(v).abs() < 1e-8);
    // the point (1, 0, 0): u = 1 - pi / (2 pi) = 1/2
    let (u, _) = get_sphere_uv(&point(1.0, 0.0, 0.0));
    assert!((as_float(u) - 0.5).abs() < 1e-8);
    // the point (0, 0, 1): atan2(1, 0) = pi/2, u = 1 - (3 pi / 2) / (2 pi) = 1/4
    let (u, _) = get_sphere_uv(&point(0.0, 0.0, 1.0));
    assert!((as_float(u) - 0.25).abs() < 1e-8);
}

#[test]
fn hit_record_stores_texture_coordinates_of_the_sphere() {
    let s = Sphere::new(point(0.0, 0.0, -3.0), fx(2.0), grey());
    let r = Ray::new(point(0.0, 0.0, 5.0), point(0.0, 0.0, -1.0));
    let rec = s.hit(&r, 0, INFINITY).unwrap();
    assert_eq!(rec.p, point(0.0, 0.0, -1.0));
    // on the unit sphere the hit is at (0, 0, 1)
    assert!((as_float(rec.u) - 0.25).abs() < 1e-8);
    assert!((as_float(rec.v) - 0.5).abs() < 1e-8);
}

#[test]
fn rectangle_is_hit_within_its_sides() {
    let rect = XYrect::new(fx(3.0), fx(5.0), fx(1.0), fx(3.0), fx(-2.0), grey());
    let r = Ray::new(point(4.0, 1.5, 0.0), point(0.0, 0.0, -1.0));
    let rec = rect.hit(&r, 0, INFINITY).unwrap();
    assert_eq!(rec.t, fx(2.0));
    assert_eq!(rec.p, point(4.0, 1.5, -2.0));
    assert_eq!(rec.normal, point(0.0, 0.0, 1.0));
    assert!(rec.front_face);
    assert_eq!(rec.u, ONE / 2);
    assert_eq!(rec.v, ONE / 4);

    // from behind: the normal is turned
    let back = Ray::new(point(4.0, 1.5, -4.0), point(0.0, 0.0, 1.0));
    let rec = rect.hit(&back, 0, INFINITY).unwrap();
    assert_eq!(rec.normal, point(0.0, 0.0, -1.0));
    assert!(!rec.front_face);
}

#[test]
fn rectangle_is_missed_outside_its_sides_or_interval() {
    let rect = XYrect::new(fx(3.0), fx(5.0), fx(1.0), fx(3.0), fx(-2.0), grey());
    assert!(rect.hit(&Ray::new(point(2.9, 1.5, 0.0), point(0.0, 0.0, -1.0)), 0, INFINITY).is_none());
    assert!(rect.hit(&Ray::new(point(4.0, 3.5, 0.0), point(0.0, 0.0, -1.0)), 0, INFINITY).is_none());
    let r = Ray::new(point(4.0, 1.5, 0.0), point(0.0, 0.0, -1.0));
    assert!(rect.hit(&r, 0, fx(1.9)).is_none());
    assert!(rect.hit(&r, fx(2.1), INFINITY).is_none());
    // both ends of the interval count
    assert!(rect.hit(&r, fx(2.0), INFINITY).is_some());
    assert!(rect.hit(&r, 0, fx(2.0)).is_some());
    // parallel to the plane
    assert!(rect.hit(&Ray::new(point(4.0, 1.5, 0.0), point(1.0, 0.0, 0.0)), fx(0.001), INFINITY).is_none());
}

#[test]
fn rectangle_box_is_thickened() {
    let rect = XYrect::new(fx(3.0), fx(5.0), fx(1.0), fx(3.0), fx(-2.0), grey());
    let b = rect.bounding_box(0, 0).unwrap();
    assert_eq!(b.min_p, Vec3::new(fx(3.0), fx(1.0), fx(-2.0) - fx(0.0001)));
    assert_eq!(b.max_p, Vec3::new(fx(5.0), fx(3.0), fx(-2.0) + fx(0.0001)));
    assert!(b.min_p.z < b.max_p.z);
    assert!(b.hit(&Ray::new(point(4.0, 1.5, 0.0), point(0.0, 0.0, -1.0)), 0, INFINITY));
    assert_eq!(rect.get_background(0), Vec3::zero());
}

#[test]
fn list_reports_the_nearest_hit() {
    let mut list = HittableList::new(true);
    list.push(Arc::new(Object::Sphere(Sphere::new(point(0.0, 0.0, -5.0), ONE, grey()))));
    list.push(Arc::new(Object::Sphere(Sphere::new(point(0.0, 0.0, -2.0), ONE / 2, grey()))));
    list.push(Arc::new(Object::Sphere(Sphere::new(point(0.0, 0.0, -9.0), ONE, grey()))));
    let r = Ray::new(point(0.0, 0.0, 0.0), point(0.0, 0.0, -1.0));
    assert_eq!(list.hit(&r, fx(0.001), INFINITY).unwrap().t, fx(1.5));
    assert_eq!(list.ray_hit(&r, fx(0.001), INFINITY).unwrap().t, fx(1.5));
    assert_eq!(list.hit(&r, fx(2.6), INFINITY).unwrap().t, fx(4.0));
    assert_eq!(list.hit(&r, fx(6.5), INFINITY).unwrap().t, fx(8.0));
    assert!(list.hit(&r, fx(10.5), INFINITY).is_none());
    let up = Ray::new(point(0.0, 0.0, 0.0), point(0.0, 1.0, 0.0));
    assert!(list.hit(&up, fx(0.001), INFINITY).is_none());
    let world = Object::List(list);
    assert_eq!(world.hit(&r, fx(0.001), INFINITY).unwrap().t, fx(1.5));
}

#[test]
fn list_box_is_the_union_of_the_boxes() {
    let mut list = HittableList::new(true);
    assert!(list.bounding_box(0, 0).is_none());
    list.push(Arc::new(Object::Sphere(Sphere::new(point(0.0, 0.0, -5.0), ONE, grey()))));
    assert_eq!(
        list.bounding_box(0, 0).unwrap(),
        AABB::new(point(-1.0, -1.0, -6.0), point(1.0, 1.0, -4.0))
    );
    list.push(Arc::new(Object::Sphere(Sphere::new(point(3.0, 0.0, 0.0), 2 * ONE, grey()))));
    assert_eq!(
        list.bounding_box(0, 0).unwrap(),
        AABB::new(point(-1.0, -2.0, -6.0), point(5.0, 2.0, 2.0))
    );
    // a list with an empty list in it has no box
    list.push(Arc::new(Object::List(HittableList::new(true))));
    assert!(list.bounding_box(0, 0).is_none());
}

#[test]
fn backgrounds() {
    let dark = HittableList::new(true);
    assert_eq!(dark.get_background(ONE / 2), Vec3::zero());
    let sky = HittableList::new(false);
    assert_eq!(sky.get_background(0), Vec3::ones());
    assert_eq!(sky.get_background(ONE), Vec3::new(ONE / 2, 0xb333_3333, ONE));
    assert_eq!(
        sky.get_background(ONE / 2),
        Vec3::new(3 * ONE / 4, 0xd999_999a, ONE)
    );
    assert_eq!(Object::List(sky).get_background(0), Vec3::ones());
    let d = HittableList::default();
    assert!(d.if_dark);
    assert_eq!(d.objects.len(), 0);
    assert_eq!(quot(ONE, 2 * ONE), ONE / 2);
}

#[test]
fn texture_coordinates_of_a_hit_are_exact_at_the_quarter_points() {
    let s = Sphere::new(point(0.0, 0.0, -1.0), ONE / 2, grey());
    let r = Ray::new(point(0.0, 0.0, 0.0), point(0.0, 0.0, -1.0));
    let rec = s.hit(&r, fx(0.001), INFINITY).unwrap();
    assert_eq!(rec.t, ONE / 2);
    assert_eq!(rec.p, point(0.0, 0.0, -0.5));
    assert_eq!(rec.normal, point(0.0, 0.0, 1.0));
    assert!(rec.front_face);
    assert_eq!(rec.u, 0x4000_0000);
    assert_eq!(rec.v, 0x8000_0000);
    // around the equator, and at the poles
    assert_eq!(get_sphere_uv(&point(0.0, 0.0, 1.0)), (ONE / 4, ONE / 2));
    assert_eq!(get_sphere_uv(&point(1.0, 0.0, 0.0)), (ONE / 2, ONE / 2));
    assert_eq!(get_sphere_uv(&point(0.0, 0.0, -1.0)), (3 * (ONE / 4), ONE / 2));
    assert_eq!(get_sphere_uv(&point(-1.0, 0.0, 0.0)), (0, ONE / 2));
    assert_eq!(get_sphere_uv(&point(0.0, 1.0, 0.0)).1, ONE);
    assert_eq!(get_sphere_uv(&point(0.0, -1.0, 0.0)).1, 0);
}

#[test]
fn texture_coordinates_follow_the_angles() {
    let mut k = 0;
    while k < 360 {
        let a = (k as f64 + 0.5).to_radians();
        let mut j = -8;
        while j <= 8 {
            let e = (j as f64 * 10.0).to_radians();
            let p = (e.cos() * a.cos(), e.sin(), e.cos() * a.sin());
            let (u, v) = get_sphere_uv(&point(p.0, p.1, p.2));
            let want_u = 1.0 - (p.2.atan2(p.0) + std::f64::consts::PI) / (2.0 * std::f64::consts::PI);
            let want_v = (p.1.asin() + std::f64::consts::FRAC_PI_2) / std::f64::consts::PI;
            assert!((as_float(u) - want_u).abs() < 2e-9, "u at {} {}", k, j);
            assert!((as_float(v) - want_v).abs() < 2e-7, "v at {} {}", k, j);
            j += 1;
        }
        k += 1;
    }
}
