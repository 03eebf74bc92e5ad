use raytracer::camera::{degrees_to_radians, Camera};
use raytracer::canvas::Canvas;
use raytracer::fixed::{from_int, ratio, Fixed, INFINITY, ONE};
use raytracer::material::{DiffuseLight, Lambertian, Material, Metal};
use raytracer::object::{BvhNode, HittableList, Object};
use raytracer::ray::Ray;
use raytracer::render::{place_rows, ray_color, row_range, within, write_color, Shot};
use raytracer::sence::{init_sence, light_world, random_scene};
use raytracer::sphere::Sphere;
use raytracer::vec3::{Color, Point3, Vec3};
use std::sync::Arc;

fn fx(v: f64) -> Fixed {
    (v * 4294967296.0).round() as i64
}

fn as_float(a: Fixed) -> f64 {
    a as f64 / 4294967296.0
}

fn point(x: f64, y: f64, z: f64) -> Point3 {
    Vec3::new(fx(x), fx(y), fx(z))
}

fn close(a: Vec3, b: Vec3) -> bool {
    (as_float(a.x) - as_float(b.x)).abs() < 1e-8
        && (as_float(a.y) - as_float(b.y)).abs() < 1e-8
        && (as_float(a.z) - as_float(b.z)).abs() < 1e-8
}

fn sphere(c: Point3, r: Fixed, m: Material) -> Arc<Object> {
    Arc::new(Object::Sphere(Sphere::new(c, r, Arc::new(m))))
}

fn matte(r: f64, g: f64, b: f64) -> Material {
    Material::Lambertian(Lambertian::new(&Color::new(fx(r), fx(g), fx(b))))
}

#[test]
fn colour_is_black_without_depth() {
    let mut list = HittableList::new(false);
    list.push(sphere(point(0.0, 0.0, -1.0), ONE / 2, matte(0.5, 0.5, 0.5)));
    let world = Object::List(list);
    let toward = Ray::new(point(0.0, 0.0, 0.0), point(0.0, 0.0, -1.0));
    let away = Ray::new(point(0.0, 0.0, 0.0), point(0.0, 1.0, 0.0));
    assert_eq!(ray_color(&toward, &world, 0), Vec3::zero());
    assert_eq!(ray_color(&away, &world, 0), Vec3::zero());
    assert_eq!(ray_color(&toward, &world, -3), Vec3::zero());
}

#[test]
fn colour_of_an_empty_world_is_its_background() {
    let sky = Object::List(HittableList::new(false));
    let dark = Object::List(HittableList::new(true));
    let rays = [
        Ray::new(point(0.0, 0.0, 0.0), point(0.0, 1.0, 0.0)),
        Ray::new(point(0.0, 0.0, 0.0), point(0.0, -1.0, 0.0)),
        Ray::new(point(1.0, 2.0, 3.0), point(1.0, 0.0, 0.0)),
        Ray::new(point(1.0, 2.0, 3.0), point(3.0, 4.0, 0.0)),
    ];
    for ray in rays.iter() {
        let u = ray.dir.unit();
        let t = (u.y + ONE) / 2;
        for depth in [1, 2, 50] {
            assert_eq!(ray_color(ray, &sky, depth), sky.get_background(t));
            assert_eq!(ray_color(ray, &dark, depth), Vec3::zero());
        }
    }
    // straight up the sky is the blue, straight down it is white
    assert_eq!(ray_color(&rays[0], &sky, 5), Vec3::new(ONE / 2, 0xb333_3333, ONE));
    assert_eq!(ray_color(&rays[1], &sky, 5), Vec3::ones());
    // level with the horizon it is their mean
    assert_eq!(
        ray_color(&rays[2], &sky, 5),
        Vec3::new(3 * ONE / 4, 0xd999_999a, ONE)
    );
}

#[test]
fn colour_of_a_lamp_is_its_light() {
    let mut list = HittableList::new(true);
    let glow = Color::new(4 * ONE, 2 * ONE, ONE);
    list.push(sphere(
        point(0.0, 0.0, -5.0),
        ONE,
        Material::DiffuseLight(DiffuseLight::new_color(&glow)),
    ));
    let world = Object::List(list);
    let ray = Ray::new(point(0.0, 0.0, 0.0), point(0.0, 0.0, -1.0));
    assert_eq!(ray_color(&ray, &world, 1), glow);
    assert_eq!(ray_color(&ray, &world, 50), glow);
    assert_eq!(ray_color(&ray, &world, 0), Vec3::zero());
}

#[test]
fn colour_of_a_matte_sphere_under_the_sky() {
    let mut list = HittableList::new(false);
    list.push(sphere(point(0.0, 0.0, -5.0), ONE, matte(0.5, 0.25, 1.0)));
    let world = Object::List(list);
    let ray = Ray::new(point(0.0, 0.0, 0.0), point(0.0, 0.0, -1.0));
    // with one scattering left the scattered ray brings black
    assert_eq!(ray_color(&ray, &world, 1), Vec3::zero());
    // with two it brings the sky or black, tinted; the sky is known to a
    // few units in the last place, and less well for the rare scattered
    // ray that is very short
    let mut good = 0;
    for _ in 0..50 {
        let c = ray_color(&ray, &world, 2);
        if 0 <= c.x && c.x <= ONE / 2 + 16 && 0 <= c.y && c.y <= ONE / 4 + 16 && 0 <= c.z
            && c.z <= ONE + 16
        {
            good += 1;
        }
    }
    assert!(good >= 45, "{} of 50", good);
}

#[test]
fn values_are_held_within_bounds() {
    assert_eq!(within(0, fx(0.999), fx(0.5)), fx(0.5));
    assert_eq!(within(0, fx(0.999), fx(1.5)), fx(0.999));
    assert_eq!(within(0, fx(0.999), fx(-0.5)), 0);
    assert_eq!(within(0, fx(0.999), 0), 0);
    assert_eq!(within(0, fx(0.999), fx(0.999)), fx(0.999));
}

#[test]
fn new_canvas_is_black() {
    let c = Canvas::new(4, 3).unwrap();
    assert_eq!(c.width(), 4);
    assert_eq!(c.height(), 3);
    assert_eq!(c.to_vec(), vec![0u8; 36]);
    assert_eq!(c.get_pixel(3, 2), Some((0, 0, 0)));
    assert_eq!(c.get_pixel(4, 2), None);
    assert_eq!(c.get_pixel(3, 3), None);
    assert!(Canvas::new(u32::MAX, u32::MAX).is_none());
    assert!(!Canvas::fits(u32::MAX, u32::MAX));
    assert!(Canvas::fits(1920, 1080));
    assert!(Canvas::fits(0, u32::MAX));
    let empty = Canvas::new(0, 7).unwrap();
    assert_eq!(empty.to_vec().len(), 0);
    assert_eq!(empty.get_pixel(0, 0), None);
}

#[test]
fn canvas_keeps_its_pixels_row_by_row() {
    let mut c = Canvas::new(3, 2).unwrap();
    assert!(c.put_pixel(1, 0, (10, 20, 30)));
    assert!(c.put_pixel(2, 1, (40, 50, 60)));
    assert!(!c.put_pixel(3, 0, (1, 1, 1)));
    assert!(!c.put_pixel(0, 2, (1, 1, 1)));
    assert_eq!(c.get_pixel(1, 0), Some((10, 20, 30)));
    assert_eq!(c.get_pixel(2, 1), Some((40, 50, 60)));
    assert_eq!(c.get_pixel(0, 0), Some((0, 0, 0)));
    assert_eq!(
        c.to_vec(),
        vec![0, 0, 0, 10, 20, 30, 0, 0, 0, 0, 0, 0, 0, 0, 0, 40, 50, 60]
    );
}

#[test]
fn colours_become_gamma_corrected_bytes() {
    let mut c = Canvas::new(2, 2).unwrap();
    // sqrt(0.25) = 0.5 -> 128; sqrt(1) = 1 is held at 0.999 -> 255; 0 -> 0
    write_color(Color::new(ONE / 4, ONE, 0), &mut c, 1, 0);
    assert_eq!(c.get_pixel(1, 0), Some((128, 255, 0)));
    // a colour brighter than white, and a negative channel
    write_color(Color::new(9 * ONE, -ONE, ONE / 16), &mut c, 0, 1);
    assert_eq!(c.get_pixel(0, 1), Some((255, 0, 64)));
    // sqrt(0.5) = 0.7071 -> 181
    write_color(Color::new(ONE / 2, ONE / 2, ONE / 2), &mut c, 0, 0);
    assert_eq!(c.get_pixel(0, 0), Some((181, 181, 181)));
    assert_eq!(c.get_pixel(1, 1), Some((0, 0, 0)));
}

#[test]
fn rows_are_shared_out_among_the_jobs() {
    assert_eq!(row_range(1080, 0, 8), (0, 135));
    assert_eq!(row_range(1080, 1, 8), (135, 270));
    assert_eq!(row_range(1080, 7, 8), (945, 1080));
    assert_eq!(row_range(100, 0, 3), (0, 33));
    assert_eq!(row_range(100, 1, 3), (33, 66));
    assert_eq!(row_range(100, 2, 3), (66, 100));
    assert_eq!(row_range(2, 0, 5), (0, 0));
    assert_eq!(row_range(2, 2, 5), (0, 1));
    assert_eq!(row_range(2, 4, 5), (1, 2));
    assert_eq!(row_range(0, 0, 1), (0, 0));
    assert_eq!(row_range(u32::MAX, 0, 1), (0, u32::MAX as usize));
    for (height, jobs) in [(1080u32, 32usize), (7, 3), (100, 100), (5, 9), (1, 1)] {
        let mut next = 0;
        for i in 0..jobs {
            let (begin, end) = row_range(height, i, jobs);
            assert_eq!(begin, next);
            assert!(begin <= end);
            next = end;
        }
        assert_eq!(next, height as usize);
    }
}

#[test]
fn rows_are_placed_upside_down() {
    let mut result = Canvas::new(2, 5).unwrap();
    for y in 0..5u32 {
        for x in 0..2u32 {
            result.put_pixel(x, y, (200, 200, 200));
        }
    }
    // rows 1 and 2 of the picture, counted from the bottom
    let mut data = Canvas::new(2, 2).unwrap();
    data.put_pixel(0, 0, (1, 2, 3));
    data.put_pixel(1, 0, (4, 5, 6));
    data.put_pixel(0, 1, (7, 8, 9));
    data.put_pixel(1, 1, (10, 11, 12));
    place_rows(&mut result, 1, &data);
    // row 1 from the bottom is row 3 from the top, row 2 from the bottom is row 2
    assert_eq!(result.get_pixel(0, 3), Some((1, 2, 3)));
    assert_eq!(result.get_pixel(1, 3), Some((4, 5, 6)));
    assert_eq!(result.get_pixel(0, 2), Some((7, 8, 9)));
    assert_eq!(result.get_pixel(1, 2), Some((10, 11, 12)));
    for y in [0u32, 1, 4] {
        for x in 0..2u32 {
            assert_eq!(result.get_pixel(x, y), Some((200, 200, 200)));
        }
    }
    // the bottom row goes to the last row
    let mut bottom = Canvas::new(2, 1).unwrap();
    bottom.put_pixel(0, 0, (9, 9, 9));
    place_rows(&mut result, 0, &bottom);
    assert_eq!(result.get_pixel(0, 4), Some((9, 9, 9)));
    assert_eq!(result.get_pixel(1, 4), Some((0, 0, 0)));
    // nothing to place
    let none = Canvas::new(2, 0).unwrap();
    place_rows(&mut result, 5, &none);
    assert_eq!(result.get_pixel(0, 0), Some((200, 200, 200)));
}

#[test]
fn degrees_become_radians() {
    assert_eq!(degrees_to_radians(0), 0);
    assert!((as_float(degrees_to_radians(from_int(180))) - std::f64::consts::PI).abs() < 1e-8);
    assert!((as_float(degrees_to_radians(from_int(90))) - std::f64::consts::FRAC_PI_2).abs() < 1e-8);
    assert!((as_float(degrees_to_radians(from_int(-45))) + std::f64::consts::FRAC_PI_4).abs() < 1e-8);
}

#[test]
fn camera_spans_the_plane_in_focus() {
    let cam = Camera::new(
        point(0.0, 0.0, 0.0),
        point(0.0, 0.0, -1.0),
        point(0.0, 1.0, 0.0),
        from_int(90),
        from_int(2),
        0,
        ONE,
    );
    assert_eq!(cam.origin, Vec3::zero());
    assert_eq!(cam.w, point(0.0, 0.0, 1.0));
    assert_eq!(cam.u, point(1.0, 0.0, 0.0));
    assert_eq!(cam.v, point(0.0, 1.0, 0.0));
    assert_eq!(cam.lens_radius, 0);
    assert!(close(cam.horizontal, point(4.0, 0.0, 0.0)));
    assert!(close(cam.vertical, point(0.0, 2.0, 0.0)));
    assert!(close(cam._lower_left_corner, point(-2.0, -1.0, -1.0)));
    let mid = cam.get_ray_with(ONE / 2, ONE / 2, Vec3::zero());
    assert_eq!(mid.orig, Vec3::zero());
    assert!(close(mid.dir, point(0.0, 0.0, -1.0)));
    let corner = cam.get_ray_with(0, 0, Vec3::zero());
    assert!(close(corner.dir, point(-2.0, -1.0, -1.0)));
    let top_right = cam.get_ray(ONE, ONE);
    assert_eq!(top_right.orig, Vec3::zero());
    assert!(close(top_right.dir, point(2.0, 1.0, -1.0)));
}

#[test]
fn camera_with_a_lens_starts_its_rays_on_the_lens() {
    let cam = Camera::new(
        point(0.0, 0.0, 5.0),
        point(0.0, 0.0, 0.0),
        point(0.0, 1.0, 0.0),
        from_int(40),
        ONE,
        2 * ONE,
        5 * ONE,
    );
    assert_eq!(cam.lens_radius, ONE);
    // the ray from the rim of the lens still passes through the point in focus
    let r = cam.get_ray_with(ONE / 2, ONE / 2, Vec3::new(ONE / 2, 0, 0));
    assert!(close(r.orig, point(0.5, 0.0, 5.0)));
    assert!(close(r.at(ONE), point(0.0, 0.0, 0.0)));
    for _ in 0..100 {
        let r = cam.get_ray(ONE / 2, ONE / 2);
        let off = r.orig.minus(cam.origin);
        assert!(off.squared_length() < ONE);
        assert_eq!(off.z, 0);
        assert!(close(r.at(ONE), point(0.0, 0.0, 0.0)));
    }
}

fn two_spheres() -> (Arc<Object>, Camera) {
    let mut list = HittableList::new(false);
    list.push(sphere(point(0.0, 0.0, -1.0), ONE, matte(0.5, 0.5, 0.5)));
    list.push(sphere(point(0.0, -100.5, -1.0), from_int(100), matte(0.5, 0.5, 0.5)));
    let world = BvhNode::new_boxed(list, 0, ONE);
    let cam = Camera::new(
        point(0.0, 0.0, 3.0),
        point(0.0, 0.0, -1.0),
        point(0.0, 1.0, 0.0),
        from_int(60),
        ONE,
        0,
        4 * ONE,
    );
    (world, cam)
}

#[test]
fn picture_of_a_sphere_on_the_ground() {
    let (world, cam) = two_spheres();
    let shot = Shot {
        world: &world,
        cam: &cam,
        image_width: 100,
        image_height: 100,
        samples_per_pixel: 1,
        max_depth: 1,
    };
    let mut picture = Canvas::new(100, 100).unwrap();
    for job in 0..4 {
        let (begin, end) = row_range(100, job, 4);
        let rows = shot.render_rows(begin, end);
        assert_eq!(rows.width(), 100);
        assert_eq!(rows.height() as usize, end - begin);
        place_rows(&mut picture, begin, &rows);
    }
    let samples = picture.to_vec();
    assert_eq!(samples.len(), 3 * 100 * 100);
    // with one scattering whatever is hit is black; the sky is bright
    let sphere_pixel = picture.get_pixel(50, 50).unwrap();
    assert_eq!(sphere_pixel, (0, 0, 0));
    let ground_pixel = picture.get_pixel(50, 95).unwrap();
    assert_eq!(ground_pixel, (0, 0, 0));
    for (x, y) in [(2u32, 2u32), (97, 2), (50, 3), (5, 30)] {
        let (r, g, b) = picture.get_pixel(x, y).unwrap();
        assert!(r > 150 && g > 180 && b > 240, "sky at {} {} is {} {} {}", x, y, r, g, b);
    }
    // the silhouette is a disk about the middle: darker than the sky around it
    let mut dark = 0;
    for y in 0..100u32 {
        for x in 0..100u32 {
            if picture.get_pixel(x, y).unwrap() == (0, 0, 0) {
                dark += 1;
            }
        }
    }
    assert!(dark > 1500 && dark < 8500, "{} dark pixels", dark);
}

#[test]
fn picture_with_more_depth_and_samples_is_lit() {
    let (world, cam) = two_spheres();
    let shot = Shot {
        world: &world,
        cam: &cam,
        image_width: 24,
        image_height: 16,
        samples_per_pixel: 8,
        max_depth: 10,
    };
    let rows = shot.render_rows(0, 16);
    let mut lit = 0;
    for y in 0..16u32 {
        for x in 0..24u32 {
            let (r, g, b) = rows.get_pixel(x, y).unwrap();
            if r > 0 && g > 0 && b > 0 {
                lit += 1;
            }
        }
    }
    assert!(lit > 300);
    let c = shot.sample_pixel(12, 8);
    assert!(c.x >= 0 && c.y >= 0 && c.z >= 0);
    assert!(c.x <= ONE + 0x1_0000 && c.y <= ONE + 0x1_0000 && c.z <= ONE + 0x1_0000);
}

#[test]
fn pixel_without_samples_is_black() {
    let (world, cam) = two_spheres();
    let shot = Shot {
        world: &world,
        cam: &cam,
        image_width: 4,
        image_height: 4,
        samples_per_pixel: 0,
        max_depth: 5,
    };
    assert_eq!(shot.sample_pixel(1, 1), Vec3::zero());
    let rows = shot.render_rows(2, 2);
    assert_eq!(rows.height(), 0);
}

#[test]
fn first_scene_is_a_field_of_spheres() {
    let world = random_scene();
    assert!(!world.if_dark);
    let n = world.objects.len();
    assert!(n >= 4 && n <= 488);
    assert!(n > 300);
    let centre_and_radius = |ob: &Arc<Object>| match &**ob {
        Object::Sphere(s) => (s.center, s.radius),
        _ => panic!("not a sphere"),
    };
    assert_eq!(centre_and_radius(&world.objects[0]), (Vec3::new(0, from_int(-1000), 0), from_int(1000)));
    assert_eq!(centre_and_radius(&world.objects[n - 3]), (Vec3::new(0, ONE, 0), ONE));
    assert_eq!(centre_and_radius(&world.objects[n - 2]), (Vec3::new(from_int(-4), ONE, 0), ONE));
    assert_eq!(centre_and_radius(&world.objects[n - 1]), (Vec3::new(from_int(4), ONE, 0), ONE));
    for ob in world.objects[1..n - 3].iter() {
        let (c, r) = centre_and_radius(ob);
        assert_eq!(r, ratio(2, 10));
        assert_eq!(c.y, ratio(2, 10));
        assert!(c.x >= from_int(-11) && c.x < from_int(11));
        assert!(c.z >= from_int(-11) && c.z < from_int(11));
        assert!(c.minus(Vec3::new(from_int(4), ratio(2, 10), 0)).length() > ratio(9, 10));
    }
    assert_eq!(world.get_background(0), Vec3::ones());
}

#[test]
fn second_scene_is_dark_and_its_spheres_keep_clear() {
    let world = light_world();
    assert!(world.if_dark);
    let n = world.objects.len();
    assert!(n >= 3 && n <= 971);
    let mut seen: Vec<(Vec3, Fixed)> = Vec::new();
    let mut k = 3;
    while k < n {
        if let Object::Sphere(s) = &*world.objects[k] {
            // an inner sphere shares the centre of the glass around it
            let inner = seen.last().map_or(false, |(c, _)| *c == s.center);
            if inner {
                let (_, outer) = seen.last().unwrap();
                assert_eq!(s.radius, raytracer::fixed::prod(*outer, ratio(9, 10)));
            } else {
                assert!(ratio(2, 100) <= s.radius && s.radius <= ratio(3, 10));
                assert_eq!(s.center.y, s.radius);
                let glass = Vec3::new(0, ratio(6, 10), 0);
                let reach = raytracer::fixed::sum(ratio(6, 10), s.radius);
                assert!(glass.minus(s.center).squared_length() > raytracer::fixed::prod(reach, reach));
                for (c, r) in seen.iter() {
                    let reach = raytracer::fixed::sum(*r, s.radius);
                    assert!(
                        c.minus(s.center).squared_length() > raytracer::fixed::prod(reach, reach)
                    );
                }
                seen.push((s.center, s.radius));
            }
        } else {
            panic!("not a sphere");
        }
        k += 1;
    }
    assert!(seen.len() > 100);
    assert_eq!(world.get_background(ONE / 2), Vec3::zero());
}

#[test]
fn scenes_come_with_their_cameras() {
    let (world, cam) = init_sence(1);
    assert_eq!(cam.origin, Vec3::new(from_int(13), from_int(2), from_int(3)));
    assert_eq!(cam.lens_radius, ratio(1, 10) / 2);
    assert!(matches!(&*world, Object::Node(_)));
    // the ray through the middle of the picture looks at the origin
    let r = cam.get_ray_with(ONE / 2, ONE / 2, Vec3::zero());
    let rec = world.hit(&r, fx(0.001), INFINITY).unwrap();
    assert!(as_float(rec.t) > 0.5 && as_float(rec.t) < 2.0);
    assert_eq!(world.get_background(0), Vec3::ones());

    let (world, cam) = init_sence(2);
    assert_eq!(cam.origin, Vec3::new(from_int(9), from_int(4), from_int(4)));
    assert_eq!(cam.lens_radius, ratio(6, 100) / 2);
    assert_eq!(world.get_background(0), Vec3::zero());
    let r = cam.get_ray_with(ONE / 2, ONE / 2, Vec3::zero());
    assert!(world.hit(&r, fx(0.001), INFINITY).is_some());
}

#[test]
fn colour_of_a_mirror_ball_under_the_sky_is_exact() {
    let mut list = HittableList::new(false);
    let albedo = Color::new(fx(0.8), fx(0.6), fx(0.2));
    list.push(sphere(point(0.0, 0.0, -1.0), ONE / 2, Material::Metal(Metal::new(&albedo, 0))));
    let world = Object::List(list);
    let ray = Ray::new(point(0.0, 0.0, 0.0), point(0.0, 0.0, -1.0));
    // the mirrored ray sees the sky (0.75, 0.85, 1) at the horizon
    // red 0.8 * 0.75 and blue 0.2 * 1 are the nearest numbers to 0.6 and
    // 0.2; green is the nearest number to the product of the nearest numbers
    // to 0.6 and 0.85, which is one unit above the nearest number to 0.51
    for _ in 0..20 {
        assert_eq!(
            ray_color(&ray, &world, 2),
            Vec3::new(0x9999_999a, 0x828f_5c2a, 0x3333_3333)
        );
        assert_eq!(ray_color(&ray, &world, 1), Vec3::zero());
    }
}

#[test]
fn camera_at_a_right_angle_has_exact_corner_rays() {
    let cam = Camera::new(
        point(0.0, 0.0, 0.0),
        point(0.0, 0.0, -1.0),
        point(0.0, 1.0, 0.0),
        from_int(90),
        ONE,
        0,
        ONE,
    );
    assert_eq!(cam.u, point(1.0, 0.0, 0.0));
    assert_eq!(cam.v, point(0.0, 1.0, 0.0));
    assert_eq!(cam.w, point(0.0, 0.0, 1.0));
    assert_eq!(cam._lower_left_corner, point(-1.0, -1.0, -1.0));
    assert_eq!(cam.horizontal, point(2.0, 0.0, 0.0));
    assert_eq!(cam.vertical, point(0.0, 2.0, 0.0));
    for _ in 0..20 {
        assert_eq!(cam.get_ray(ONE / 2, ONE / 2), Ray::new(Vec3::zero(), point(0.0, 0.0, -1.0)));
        assert_eq!(cam.get_ray(0, 0).dir, point(-1.0, -1.0, -1.0));
        assert_eq!(cam.get_ray(ONE, ONE).dir, point(1.0, 1.0, -1.0));
        assert_eq!(cam.get_ray(ONE, 0).dir, point(1.0, -1.0, -1.0));
        assert_eq!(cam.get_ray(0, ONE).dir, point(-1.0, 1.0, -1.0));
    }
    assert_eq!(degrees_to_radians(from_int(90)), 0x1_921f_b544);
    assert_eq!(degrees_to_radians(from_int(180)), 0x3_243f_6a88);
}
