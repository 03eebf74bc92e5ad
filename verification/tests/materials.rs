use raytracer::fixed::{quot, Fixed, MINUS_ONE, ONE};
use raytracer::material::{
    schlick, Dielectric, DiffuseLight, HitRecord, Lambertian, Material, Metal,
};
use raytracer::random::{
    cube_point, lerp, random_axis, random_double, random_double_in, random_in_unit_disk,
    random_in_unit_sphere, random_unit_vector,
};
use raytracer::ray::Ray;
use raytracer::texture::{CheckerTexture, SolidColor, Texture};
use raytracer::vec3::{Color, Point3, Vec3};
use std::sync::Arc;

fn fx(v: f64) -> Fixed {
    (v * 4294967296.0).round() as i64
}

fn as_float(a: Fixed) -> f64 {
    a as f64 / 4294967296.0
}

fn point(x: f64, y: f64, z: f64) -> Point3 {
    Vec3::new(fx(x), fx(y), fx(z))
}

fn white_matte() -> Arc<Material> {
    Arc::new(Material::Lambertian(Lambertian::new(&Vec3::ones())))
}

fn record(p: Point3, normal: Vec3, front_face: bool) -> HitRecord {
    let mut rec = HitRecord::new(p, normal, ONE, white_matte());
    rec.front_face = front_face;
    rec
}

#[test]
fn random_numbers_are_fractions() {
    let mut seen_different = false;
    let first = random_double();
    for _ in 0..2000 {
        let r = random_double();
        assert!(0 <= r && r < ONE);
        if r != first {
            seen_different = true;
        }
    }
    assert!(seen_different);
}

#[test]
fn random_numbers_lie_in_their_range() {
    for _ in 0..2000 {
        let r = random_double_in(fx(0.5), fx(3.0));
        assert!(fx(0.5) <= r && r < fx(3.0));
        let a = random_axis();
        assert!(a < 3);
    }
    let mut seen = [false; 3];
    for _ in 0..300 {
        seen[random_axis()] = true;
    }
    assert!(seen[0] && seen[1] && seen[2]);
}

#[test]
fn random_vectors_lie_in_their_range() {
    for _ in 0..500 {
        let u = Vec3::random_unit();
        assert!(0 <= u.x && u.x < ONE && 0 <= u.y && u.y < ONE && 0 <= u.z && u.z < ONE);
        // half of the largest fraction rounds to one half, so one is reached
        let v = Vec3::random(fx(0.5), ONE);
        assert!(fx(0.5) <= v.x && v.x <= ONE);
        assert!(fx(0.5) <= v.y && v.y <= ONE);
        assert!(fx(0.5) <= v.z && v.z <= ONE);
    }
}

#[test]
fn random_points_lie_in_the_unit_ball() {
    for _ in 0..500 {
        let p = random_in_unit_sphere();
        assert!(p.squared_length() < ONE);
        assert!(-ONE <= p.x && p.x < ONE);
        assert!(-ONE <= p.y && p.y < ONE);
        assert!(-ONE <= p.z && p.z < ONE);
        let d = random_in_unit_disk();
        assert!(d.squared_length() < ONE);
        assert!(-ONE <= d.x && d.x < ONE);
        assert!(-ONE <= d.y && d.y < ONE);
        assert_eq!(d.z, 0);
    }
}

#[test]
fn unit_vector_of_a_short_vector_is_one_long_within_its_resolution() {
    // the squared length is known to 1.5 units in the last place, which is
    // the more of the length the shorter the vector is
    let bound = |l: f64| 2e-9 * (1.0 + 1.0 / (l * l));
    for _ in 0..500 {
        let p = random_in_unit_sphere();
        let l = as_float(p.length());
        if l > 1e-3 {
            let len = as_float(p.unit().length());
            assert!((len - 1.0).abs() < bound(l), "{:?} of length {} gives {}", p, l, len);
        }
    }
    let mut k = 1;
    while k <= 1000 {
        let c = k as f64 / 1000.0;
        for p in [
            point(c, 0.0, 0.0),
            point(0.0, -c, 0.0),
            point(0.6 * c, 0.0, 0.8 * c),
            point(c / 3.0, -2.0 * c / 3.0, 2.0 * c / 3.0),
            point(0.57 * c, 0.57 * c, -0.57 * c),
        ] {
            let l = as_float(p.length());
            let len = as_float(p.unit().length());
            assert!((len - 1.0).abs() < bound(l), "{:?} of length {} gives {}", p, l, len);
        }
        k += 1;
    }
}

#[test]
fn random_directions_are_one_long() {
    // the direction of a ball point shorter than 0.015 is off by more than
    // 1e-6; such a point is drawn less than once in a hundred thousand draws
    let mut good = 0;
    for _ in 0..500 {
        let u = random_unit_vector();
        if (as_float(u.length()) - 1.0).abs() < 1e-6 {
            good += 1;
        }
    }
    assert!(good >= 480, "{} of 500", good);
}

#[test]
fn interpolation() {
    assert_eq!(lerp(fx(2.0), fx(4.0), 0), fx(2.0));
    assert_eq!(lerp(fx(2.0), fx(4.0), ONE / 2), fx(3.0));
    assert_eq!(lerp(fx(2.0), fx(4.0), ONE), fx(4.0));
    assert_eq!(lerp(MINUS_ONE, ONE, ONE / 4), -ONE / 2);
    assert_eq!(
        cube_point(Vec3::new(0, ONE / 2, 3 * (ONE / 4))),
        Vec3::new(MINUS_ONE, 0, ONE / 2)
    );
}

#[test]
fn solid_colour_is_the_same_everywhere() {
    let c = Color::new(fx(0.2), fx(0.3), fx(0.1));
    let s = SolidColor::new(&c);
    assert_eq!(s.color_value, c);
    assert_eq!(s.value(0, 0, &point(1.0, 2.0, 3.0)), c);
    assert_eq!(s.value(ONE, ONE / 2, &point(-7.0, 0.0, 0.5)), c);
    assert_eq!(SolidColor::new_rgb(fx(0.2), fx(0.3), fx(0.1)), s);
    assert_eq!(Texture::Solid(s).value(0, 0, &Vec3::zero()), c);
}

#[test]
fn checker_alternates_with_the_sign_of_the_sines() {
    let odd = Color::new(ONE, 0, 0);
    let even = Color::new(0, 0, ONE);
    let checker = CheckerTexture::new(&odd, &even);
    // 10 x = 1, 10 y = 1, 10 z = 1: all sines positive
    assert_eq!(checker.value(0, 0, &point(0.1, 0.1, 0.1)), even);
    // 10 x = 4 is beyond pi: one sine negative
    assert_eq!(checker.value(0, 0, &point(0.4, 0.1, 0.1)), odd);
    // two sines negative
    assert_eq!(checker.value(0, 0, &point(0.4, 0.4, 0.1)), even);
    // three sines negative
    assert_eq!(checker.value(0, 0, &point(0.4, 0.4, 0.4)), odd);
    // a negative coordinate: sin(-1) < 0
    assert_eq!(checker.value(0, 0, &point(-0.1, 0.1, 0.1)), odd);
    // beyond two pi the sine is positive again
    assert_eq!(checker.value(0, 0, &point(0.7, 0.1, 0.1)), even);
    // a zero sine makes the product zero, which is not negative
    assert_eq!(checker.value(0, 0, &point(0.0, 0.4, 0.1)), even);
    let t = Texture::Checker(checker);
    assert_eq!(t.value(0, 0, &point(0.4, 0.1, 0.1)), odd);
}

#[test]
fn checker_agrees_with_the_sines_on_a_grid() {
    let odd = Color::new(ONE, 0, 0);
    let even = Color::new(0, 0, ONE);
    let checker = CheckerTexture::new_arc(
        Arc::new(Texture::Solid(SolidColor::new(&odd))),
        Arc::new(Texture::Solid(SolidColor::new(&even))),
    );
    let mut i = -20;
    while i <= 20 {
        let mut j = -20;
        while j <= 20 {
            let x = i as f64 * 0.0371 + 0.011;
            let y = j as f64 * 0.0533 + 0.017;
            let z: f64 = 0.123;
            let sines = (10.0 * x).sin() * (10.0 * y).sin() * (10.0 * z).sin();
            // keep away from the borders of the cells, where rounding decides
            if (10.0 * x).sin().abs() > 1e-3 && (10.0 * y).sin().abs() > 1e-3 {
                let want = if sines < 0.0 { odd } else { even };
                assert_eq!(checker.value(0, 0, &point(x, y, z)), want, "at {} {}", x, y);
            }
            j += 1;
        }
        i += 1;
    }
}

#[test]
fn face_normal_is_turned_against_the_ray() {
    let mut rec = HitRecord::new(point(0.0, 0.0, 0.0), point(0.0, 1.0, 0.0), ONE, white_matte());
    assert!(rec.front_face);
    assert_eq!(rec.u, 0);
    assert_eq!(rec.v, 0);
    assert_eq!(rec.t, ONE);
    let down = Ray::new(point(0.0, 5.0, 0.0), point(0.0, -1.0, 0.0));
    rec.set_face_normal(&down, &point(0.0, 1.0, 0.0));
    assert!(rec.front_face);
    assert_eq!(rec.normal, point(0.0, 1.0, 0.0));
    let up = Ray::new(point(0.0, -5.0, 0.0), point(0.0, 1.0, 0.0));
    rec.set_face_normal(&up, &point(0.0, 1.0, 0.0));
    assert!(!rec.front_face);
    assert_eq!(rec.normal, point(0.0, -1.0, 0.0));
    // a ray along the surface counts as one from inside
    let along = Ray::new(point(0.0, 0.0, 0.0), point(1.0, 0.0, 0.0));
    rec.set_face_normal(&along, &point(0.0, 1.0, 0.0));
    assert!(!rec.front_face);
    rec.set_uv((ONE / 4, ONE / 2));
    assert_eq!(rec.u, ONE / 4);
    assert_eq!(rec.v, ONE / 2);
}

#[test]
fn lambertian_scatters_about_the_normal() {
    let albedo = Color::new(fx(0.4), fx(0.2), fx(0.1));
    let m = Lambertian::new(&albedo);
    let rec = record(point(1.0, 2.0, 3.0), point(0.0, 1.0, 0.0), true);
    let (att, ray) = m.scatter_with(&rec, Vec3::new(ONE / 2, 0, 0)).unwrap();
    assert_eq!(att, albedo);
    assert_eq!(ray.orig, point(1.0, 2.0, 3.0));
    assert_eq!(ray.dir, point(1.0, 1.0, 0.0));
    // the centre of the ball has no direction: the ray leaves along the normal
    let (_, ray) = m.scatter_with(&rec, Vec3::zero()).unwrap();
    assert_eq!(ray.dir, point(0.0, 1.0, 0.0));
    let r_in = Ray::new(point(1.0, 5.0, 3.0), point(0.0, -1.0, 0.0));
    // normal plus a unit vector; the few directions of very short ball
    // points are less exact
    let mut good = 0;
    for _ in 0..100 {
        let (att, ray) = m.scatter(&r_in, &rec).unwrap();
        assert_eq!(att, albedo);
        assert_eq!(ray.orig, rec.p);
        let off = ray.dir.minus(rec.normal);
        if (as_float(off.length()) - 1.0).abs() < 1e-6 {
            good += 1;
        }
    }
    assert!(good >= 90, "{} of 100", good);
    assert_eq!(m.emitted(0, 0, &rec.p), Vec3::zero());
}

#[test]
fn metal_mirrors_the_ray() {
    let albedo = Color::new(fx(0.7), fx(0.6), fx(0.5));
    let m = Metal::new(&albedo, 0);
    let rec = record(point(0.0, 0.0, 0.0), point(0.0, 1.0, 0.0), true);
    let r_in = Ray::new(point(-3.0, 4.0, 0.0), point(3.0, -4.0, 0.0));
    let (att, ray) = m.scatter_with(&r_in, &rec, Vec3::new(ONE / 2, ONE / 2, 0)).unwrap();
    assert_eq!(att, albedo);
    assert_eq!(ray.orig, Vec3::zero());
    assert!((as_float(ray.dir.x) - 0.6).abs() < 1e-8);
    assert!((as_float(ray.dir.y) - 0.8).abs() < 1e-8);
    assert_eq!(ray.dir.z, 0);
    assert_eq!(m.emitted(0, 0, &rec.p), Vec3::zero());
}

#[test]
fn metal_blur_is_held_between_zero_and_one() {
    let albedo = Vec3::ones();
    assert_eq!(Metal::new(&albedo, fx(0.3)).fuzz, fx(0.3));
    assert_eq!(Metal::new(&albedo, fx(1.7)).fuzz, ONE);
    assert_eq!(Metal::new(&albedo, ONE).fuzz, ONE);
    assert_eq!(Metal::new(&albedo, fx(-0.5)).fuzz, 0);
    assert_eq!(Metal::new(&albedo, 0).fuzz, 0);
}

#[test]
fn metal_absorbs_a_ray_pushed_into_the_surface() {
    let m = Metal::new(&Vec3::ones(), ONE);
    let rec = record(point(0.0, 0.0, 0.0), point(0.0, 1.0, 0.0), true);
    // a grazing ray: the mirrored ray barely leaves the surface
    let r_in = Ray::new(point(-1.0, 0.01, 0.0), point(1.0, -0.01, 0.0));
    assert!(m.scatter_with(&r_in, &rec, Vec3::new(0, -ONE / 2, 0)).is_none());
    assert!(m.scatter_with(&r_in, &rec, Vec3::new(0, ONE / 2, 0)).is_some());
    // along the surface exactly: the dot product is zero, which does not count
    let flat = Ray::new(point(-1.0, 0.0, 0.0), point(1.0, 0.0, 0.0));
    assert!(m.scatter_with(&flat, &rec, Vec3::zero()).is_none());
}

#[test]
fn schlick_reflectance() {
    // at normal incidence the reflectance is r0 = ((1 - n) / (1 + n))^2
    let r0 = as_float(schlick(ONE, fx(1.5)));
    assert!((r0 - 0.04).abs() < 1e-8);
    // at grazing incidence everything is reflected
    assert!((as_float(schlick(0, fx(1.5))) - 1.0).abs() < 1e-8);
    // with equal indices nothing is reflected head on
    assert_eq!(schlick(ONE, ONE), 0);
    let mid = as_float(schlick(ONE / 2, fx(1.5)));
    assert!((mid - (0.04 + 0.96 * 0.5f64.powi(5))).abs() < 1e-8);
}

#[test]
fn glass_of_index_one_passes_a_head_on_ray_straight() {
    let glass = Dielectric::new(ONE);
    let dirs = [
        point(1.0, 0.0, 0.0),
        point(-1.0, 0.0, 0.0),
        point(0.0, 1.0, 0.0),
        point(0.0, -1.0, 0.0),
        point(0.0, 0.0, 1.0),
        point(0.0, 0.0, -1.0),
    ];
    for dir in dirs.iter() {
        let p = point(0.25, -3.0, 7.5);
        let r_in = Ray::new(p.minus(*dir), *dir);
        let rec = record(p, dir.negate(), true);
        for coin in [0, 1, ONE / 2, ONE - 1] {
            let (att, out) = glass.scatter_with(&r_in, &rec, coin).unwrap();
            assert_eq!(att, Vec3::ones());
            assert_eq!(out.orig, p);
            assert_eq!(out.dir, *dir);
        }
        for _ in 0..20 {
            let (att, out) = glass.scatter(&r_in, &rec).unwrap();
            assert_eq!(att, Vec3::ones());
            assert_eq!(out, Ray::new(p, *dir));
            let (att, out) = Material::Dielectric(Dielectric::new(ONE)).scatter(&r_in, &rec).unwrap();
            assert_eq!(att, Vec3::ones());
            assert_eq!(out, Ray::new(p, *dir));
        }
    }
}

#[test]
fn glass_reflects_or_refracts_by_the_coin() {
    let glass = Dielectric::new(fx(1.5));
    let n = point(0.0, 1.0, 0.0);
    let rec = record(point(0.0, 0.0, 0.0), n, true);
    let r_in = Ray::new(point(0.0, 1.0, 0.0), point(0.0, -1.0, 0.0));
    // head on the reflectance is 0.04
    let (att, out) = glass.scatter_with(&r_in, &rec, fx(0.03)).unwrap();
    assert_eq!(att, Vec3::ones());
    assert_eq!(out.dir, point(0.0, 1.0, 0.0));
    let (_, out) = glass.scatter_with(&r_in, &rec, fx(0.05)).unwrap();
    assert_eq!(out.dir, point(0.0, -1.0, 0.0));
}

#[test]
fn glass_reflects_totally_from_inside_at_a_flat_angle() {
    let glass = Dielectric::new(fx(1.5));
    let n = point(0.0, 1.0, 0.0);
    // leaving the glass: the record says the ray came from inside
    let rec = record(point(0.0, 0.0, 0.0), n, false);
    let dir = point(0.8, -0.6, 0.0);
    let r_in = Ray::new(point(-0.8, 0.6, 0.0), dir);
    // sin = 0.8, 1.5 * 0.8 > 1: reflection whatever the coin
    for coin in [0, ONE / 2, ONE - 1] {
        let (_, out) = glass.scatter_with(&r_in, &rec, coin).unwrap();
        assert!((as_float(out.dir.x) - 0.8).abs() < 1e-8);
        assert!((as_float(out.dir.y) - 0.6).abs() < 1e-8);
    }
    assert_eq!(glass.emitted(0, 0, &rec.p), Vec3::zero());
    assert_eq!(quot(ONE, fx(1.5)), 2863311531);
}

#[test]
fn light_emits_and_never_scatters() {
    let c = Color::new(4 * ONE, 4 * ONE, 4 * ONE);
    let light = DiffuseLight::new_color(&c);
    let rec = record(point(0.0, 0.0, 0.0), point(0.0, 1.0, 0.0), true);
    let r_in = Ray::new(point(0.0, 1.0, 0.0), point(0.0, -1.0, 0.0));
    assert!(light.scatter(&r_in, &rec).is_none());
    assert_eq!(light.emitted(0, 0, &rec.p), c);
    let m = Material::DiffuseLight(DiffuseLight::new(Arc::new(Texture::Solid(SolidColor::new(&c)))));
    for _ in 0..20 {
        assert!(m.scatter(&r_in, &rec).is_none());
    }
    assert!(m.scatter_with(&r_in, &rec, Vec3::zero(), 0).is_none());
    assert_eq!(m.emitted(ONE / 2, ONE / 2, &point(1.0, 1.0, 1.0)), c);
    assert_eq!(Material::Metal(Metal::new(&c, 0)).emitted(0, 0, &rec.p), Vec3::zero());
    assert_eq!(Material::Lambertian(Lambertian::new(&c)).emitted(0, 0, &rec.p), Vec3::zero());
}

#[test]
fn material_dispatches_to_its_kind() {
    let rec = record(point(0.0, 0.0, 0.0), point(0.0, 1.0, 0.0), true);
    let r_in = Ray::new(point(0.0, 1.0, 0.0), point(0.0, -1.0, 0.0));
    let albedo = Color::new(fx(0.4), fx(0.2), fx(0.1));
    let ball = Vec3::new(0, 0, ONE / 2);
    let matte = Material::Lambertian(Lambertian::new_arc(Arc::new(Texture::Solid(SolidColor::new(&albedo)))));
    assert_eq!(
        matte.scatter_with(&r_in, &rec, ball, 0),
        Lambertian::new(&albedo).scatter_with(&rec, ball)
    );
    let metal = Material::Metal(Metal::new(&albedo, ONE / 2));
    assert_eq!(
        metal.scatter_with(&r_in, &rec, ball, 0),
        Metal::new(&albedo, ONE / 2).scatter_with(&r_in, &rec, ball)
    );
    let glass = Material::Dielectric(Dielectric::new(fx(1.5)));
    assert_eq!(
        glass.scatter_with(&r_in, &rec, ball, fx(0.03)),
        Dielectric::new(fx(1.5)).scatter_with(&r_in, &rec, fx(0.03))
    );
}

#[test]
fn total_internal_reflection_gives_the_mirrored_direction_exactly() {
    let glass = Dielectric::new(fx(1.5));
    let rec = record(point(0.0, 0.0, 0.0), point(0.0, 1.0, 0.0), false);
    let r_in = Ray::new(point(-4.0, 3.0, 0.0), point(4.0, -3.0, 0.0));
    let want = Ray::new(Vec3::zero(), Vec3::new(0xcccc_cccd, 0x9999_999a, 0));
    for coin in [0, 1, ONE / 2, ONE - 1] {
        let (att, out) = glass.scatter_with(&r_in, &rec, coin).unwrap();
        assert_eq!(att, Vec3::ones());
        assert_eq!(out, want);
    }
    for _ in 0..50 {
        let (att, out) = glass.scatter(&r_in, &rec).unwrap();
        assert_eq!(att, Vec3::ones());
        assert_eq!(out, want);
    }
}
