//! Materials: what a ray does where it meets a surface.

use vstd::prelude::*;
use std::sync::Arc;
use crate::fixed::{Fixed, MINUS_ONE, ONE, diff, fx_diff, fx_min, fx_neg, fx_prod, fx_quot, fx_root, fx_sum, lemma_prod_by_unit, lemma_prod_with_fraction, lemma_quot_by_unit, lemma_root_bounds, lemma_root_of_square, min, prod, quot, root, sum};
use crate::random::{in_unit_ball, is_fraction, random_double, random_in_unit_sphere};
use crate::ray::Ray;
use crate::texture::{SolidColor, Texture};
use crate::vec3::{Color, Point3, Vec3, reflect, refract};

verus! {

/// Where and how a ray met a surface.
#[derive(Clone)]
pub struct HitRecord {
    /// The point where the ray met the surface.
    pub p: Point3,
    /// The surface normal at `p`, turned against the ray.
    pub normal: Vec3,
    /// The material of the surface.
    pub mat_ptr: Arc<Material>,
    /// The ray's parameter at `p`.
    pub t: Fixed,
    /// The first texture coordinate at `p`.
    pub u: Fixed,
    /// The second texture coordinate at `p`.
    pub v: Fixed,
    /// Whether the ray met the surface from outside.
    pub front_face: bool,
}

impl HitRecord {
    /// The record with the outward normal `outward_normal` turned against
    /// the ray `r`: kept where the ray runs against it, reversed elsewhere.
    pub open spec fn facing(self, r: &Ray, outward_normal: &Vec3) -> HitRecord {
        let front_face = r.dir.dot(*outward_normal) < 0;
        HitRecord {
            front_face,
            normal: if front_face {
                *outward_normal
            } else {
                outward_normal.negate()
            },
            ..self
        }
    }

    /// The record of a hit at `point` with the normal `n` and the ray's
    /// parameter `tin`, on a surface of the material `m`. The texture
    /// coordinates are zero, and the hit counts as one from outside.
    pub fn new(point: Point3, n: Vec3, tin: Fixed, m: Arc<Material>) -> (r: HitRecord)
        ensures
            r == (HitRecord {
                p: point,
                normal: n,
                mat_ptr: m,
                t: tin,
                u: 0,
                v: 0,
                front_face: true,
            }),
    {
        HitRecord {
            p: Point3 { x: point.x, y: point.y, z: point.z },
            normal: Vec3 { x: n.x, y: n.y, z: n.z },
            mat_ptr: m,
            t: tin,
            u: 0,
            v: 0,
            front_face: true,
        }
    }

    /// Stores the outward normal turned against the ray, and whether the ray
    /// came from outside.
    pub fn set_face_normal(&mut self, r: &Ray, outward_normal: &Vec3)
        ensures
            *final(self) == old(self).facing(r, outward_normal),
    {
        self.front_face = r.dir.dot(*outward_normal) < 0;
        self.normal = if self.front_face {
            *outward_normal
        } else {
            outward_normal.negate()
        };
    }

    /// Stores the texture coordinates.
    pub fn set_uv(&mut self, res: (Fixed, Fixed))
        ensures
            *final(self) == (HitRecord { u: res.0, v: res.1, ..*old(self) }),
    {
        self.u = res.0;
        self.v = res.1;
    }
}

/// A matte surface: it scatters in a random direction about the normal and
/// tints by its texture.
pub struct Lambertian {
    pub albedo: Arc<Texture>,
}

/// A mirror, blurred by `fuzz`.
pub struct Metal {
    pub albedo: Color,
    pub fuzz: Fixed,
}

/// A clear solid such as glass, with the refractive index `ref_idx`.
pub struct Dielectric {
    pub ref_idx: Fixed,
}

/// A surface that gives off light and scatters none.
pub struct DiffuseLight {
    pub emit: Arc<Texture>,
}

/// The material of a surface.
pub enum Material {
    Lambertian(Lambertian),
    Metal(Metal),
    Dielectric(Dielectric),
    DiffuseLight(DiffuseLight),
}

/// The fifth power of `x`.
pub open spec fn fx_pow5(x: Fixed) -> Fixed {
    let x2 = fx_prod(x, x);
    fx_prod(fx_prod(x2, x2), x)
}

/// Schlick's approximation of the share of light that a clear surface
/// reflects: `r0 + (1 - r0) (1 - cosine)^5`, where `r0` is the square of
/// `(1 - ref_idx) / (1 + ref_idx)`.
pub open spec fn spec_schlick(cosine: Fixed, ref_idx: Fixed) -> Fixed {
    let r0_sqrt = fx_quot(fx_diff(ONE, ref_idx), fx_sum(ONE, ref_idx));
    let r0 = fx_prod(r0_sqrt, r0_sqrt);
    fx_sum(r0, fx_prod(fx_diff(ONE, r0), fx_pow5(fx_diff(ONE, cosine))))
}

/// For a cosine between zero and one and a refractive index that is not
/// negative, the reflectance is a share: it lies between zero and one.
pub proof fn lemma_schlick_is_a_share(cosine: Fixed, ref_idx: Fixed)
    requires
        0 <= cosine <= ONE,
        0 <= ref_idx,
    ensures
        0 <= spec_schlick(cosine, ref_idx) <= ONE,
{
    let up = fx_diff(ONE, ref_idx);
    let down = fx_sum(ONE, ref_idx);
    let r0_sqrt = fx_quot(up, down);
    assert(-down <= up <= down && down > 0);
    let m: int = if up >= 0 {
        up as int
    } else {
        -up
    };
    assert(0 <= (2 * (m * ONE) + down) / (2 * down) <= ONE && up * ONE == (if up >= 0 {
        m * ONE
    } else {
        -(m * ONE)
    }) && m * ONE >= 0) by (nonlinear_arith)
        requires
            0 <= m <= down,
            down > 0,
            m == (if up >= 0 {
                up as int
            } else {
                -up
            }),
            ONE == 0x1_0000_0000,
    ;
    assert(-ONE <= r0_sqrt <= ONE);
    let size: Fixed = if r0_sqrt >= 0 {
        r0_sqrt
    } else {
        (-r0_sqrt) as i64
    };
    assert(r0_sqrt * r0_sqrt == size * size) by (nonlinear_arith)
        requires
            size == r0_sqrt || size == -r0_sqrt,
    ;
    lemma_prod_with_fraction(size, size);
    let r0 = fx_prod(r0_sqrt, r0_sqrt);
    assert(r0 == fx_prod(size, size));
    assert(0 <= r0 <= ONE);
    let x = fx_diff(ONE, cosine);
    let x2 = fx_prod(x, x);
    lemma_prod_with_fraction(x, x);
    let x4 = fx_prod(x2, x2);
    lemma_prod_with_fraction(x2, x2);
    lemma_prod_with_fraction(x4, x);
    lemma_prod_with_fraction(fx_diff(ONE, r0), fx_pow5(x));
}

/// Schlick's approximation of the reflectance of a clear surface.
#[verifier::when_used_as_spec(spec_schlick)]
pub fn schlick(cosine: Fixed, ref_idx: Fixed) -> (r: Fixed)
    ensures
        r == spec_schlick(cosine, ref_idx),
        0 <= cosine <= ONE && 0 <= ref_idx ==> 0 <= r <= ONE,
{
    proof {
        if 0 <= cosine <= ONE && 0 <= ref_idx {
            lemma_schlick_is_a_share(cosine, ref_idx);
        }
    }
    let r0_sqrt = quot(diff(ONE, ref_idx), sum(ONE, ref_idx));
    let r0 = prod(r0_sqrt, r0_sqrt);
    let x = diff(ONE, cosine);
    let x2 = prod(x, x);
    sum(r0, prod(diff(ONE, r0), prod(prod(x2, x2), x)))
}

impl Lambertian {
    /// What the surface makes of a hit when `ball` is the random point drawn
    /// inside the unit sphere: it scatters along the normal plus the
    /// direction of `ball`, tinted by the texture at the hit.
    pub open spec fn spec_scatter(&self, rec: &HitRecord, ball: Vec3) -> Option<(Color, Ray)> {
        Some(
            (
                self.albedo.value(rec.u, rec.v, &rec.p),
                Ray { orig: rec.p, dir: rec.normal.plus(ball.unit()) },
            ),
        )
    }

    /// The matte surface of the colour `a`.
    pub fn new(a: &Color) -> (r: Lambertian)
        ensures
            *r.albedo == Texture::Solid(SolidColor { color_value: *a }),
    {
        let tex = SolidColor::new(a);
        Lambertian { albedo: Arc::new(Texture::Solid(tex)) }
    }

    /// The matte surface of the texture `a`.
    pub fn new_arc(a: Arc<Texture>) -> (r: Lambertian)
        ensures
            r.albedo == a,
    {
        Lambertian { albedo: a }
    }

    /// Scatters for the drawn point `ball`.
    #[verifier::when_used_as_spec(spec_scatter)]
    pub fn scatter_with(&self, rec: &HitRecord, ball: Vec3) -> (r: Option<(Color, Ray)>)
        ensures
            r == self.spec_scatter(rec, ball),
    {
        let scatter_direction = rec.normal.plus(ball.unit());
        let scattered = Ray::new(rec.p, scatter_direction);
        let attenuation = self.albedo.value(rec.u, rec.v, &rec.p);
        Some((attenuation, scattered))
    }

    /// Scatters the ray in a random direction about the normal.
    pub fn scatter(&self, _r_in: &Ray, rec: &HitRecord) -> (r: Option<(Color, Ray)>)
        ensures
            exists|ball: Vec3| in_unit_ball(ball) && r == self.spec_scatter(rec, ball),
    {
        let ball = random_in_unit_sphere();
        self.scatter_with(rec, ball)
    }

    /// No light: black.
    pub fn emitted(&self, _u: Fixed, _v: Fixed, _p: &Point3) -> (c: Color)
        ensures
            c == Color::zero(),
    {
        Color::zero()
    }
}

impl Metal {
    /// What the surface makes of a hit when `ball` is the random point drawn
    /// inside the unit sphere: the ray is mirrored in the surface and pushed
    /// aside by `fuzz * ball`; it is absorbed if it then points into the
    /// surface.
    pub open spec fn spec_scatter(&self, r_in: &Ray, rec: &HitRecord, ball: Vec3) -> Option<
        (Color, Ray),
    > {
        let reflected = reflect(&r_in.dir.unit(), &rec.normal);
        let dir = reflected.plus(ball.scale(self.fuzz));
        if dir.dot(rec.normal) > 0 {
            Some((self.albedo, Ray { orig: rec.p, dir }))
        } else {
            None
        }
    }

    /// The mirror of colour `a` and blur `f`; the blur is held between zero
    /// and one.
    pub fn new(a: &Color, f: Fixed) -> (r: Metal)
        ensures
            r.albedo == *a,
            r.fuzz == (if f < 0 {
                0
            } else if f < ONE {
                f
            } else {
                ONE
            }),
    {
        Metal {
            albedo: Color { x: a.x, y: a.y, z: a.z },
            fuzz: if f < 0 {
                0
            } else if f < ONE {
                f
            } else {
                ONE
            },
        }
    }

    /// Scatters for the drawn point `ball`.
    #[verifier::when_used_as_spec(spec_scatter)]
    pub fn scatter_with(&self, r_in: &Ray, rec: &HitRecord, ball: Vec3) -> (r: Option<
        (Color, Ray),
    >)
        ensures
            r == self.spec_scatter(r_in, rec, ball),
    {
        let reflected = reflect(&r_in.dir.unit(), &rec.normal);
        let scattered = Ray::new(rec.p, reflected.plus(ball.scale(self.fuzz)));
        let attenuation = self.albedo;
        if scattered.dir.dot(rec.normal) > 0 {
            Some((attenuation, scattered))
        } else {
            None
        }
    }

    /// Mirrors the ray, with a random blur.
    pub fn scatter(&self, r_in: &Ray, rec: &HitRecord) -> (r: Option<(Color, Ray)>)
        ensures
            exists|ball: Vec3| in_unit_ball(ball) && r == self.spec_scatter(r_in, rec, ball),
    {
        let ball = random_in_unit_sphere();
        self.scatter_with(r_in, rec, ball)
    }

    /// No light: black.
    pub fn emitted(&self, _u: Fixed, _v: Fixed, _p: &Point3) -> (c: Color)
        ensures
            c == Color::zero(),
    {
        Color::zero()
    }
}

impl Dielectric {
    /// The ratio of the refractive indices that the ray crosses: the inverse
    /// of the solid's index where it enters, the index where it leaves.
    pub open spec fn ratio(&self, rec: &HitRecord) -> Fixed {
        if rec.front_face {
            fx_quot(ONE, self.ref_idx)
        } else {
            self.ref_idx
        }
    }

    /// The cosine of the angle of incidence, held at one at most.
    pub open spec fn cos_theta(r_in: &Ray, rec: &HitRecord) -> Fixed {
        fx_min(r_in.dir.unit().negate().dot(rec.normal), ONE)
    }

    /// Whether the ray is mirrored when `coin` is the random fraction drawn:
    /// it is where Snell's law has no solution, and else with the
    /// probability that Schlick's approximation gives.
    pub open spec fn reflects(&self, r_in: &Ray, rec: &HitRecord, coin: Fixed) -> bool {
        let cos_theta = Self::cos_theta(r_in, rec);
        let sin_theta = fx_root(fx_diff(ONE, fx_prod(cos_theta, cos_theta)));
        fx_prod(self.ratio(rec), sin_theta) > ONE || coin < schlick(cos_theta, self.ratio(rec))
    }

    /// What the surface makes of a hit when `coin` is the random fraction
    /// drawn: the ray goes on from the hit, mirrored or refracted, and keeps
    /// all of its light.
    pub open spec fn spec_scatter(&self, r_in: &Ray, rec: &HitRecord, coin: Fixed) -> Option<
        (Color, Ray),
    > {
        let unit_direction = r_in.dir.unit();
        let dir = if self.reflects(r_in, rec, coin) {
            reflect(&unit_direction, &rec.normal)
        } else {
            refract(&unit_direction, &rec.normal, self.ratio(rec))
        };
        Some((Color::ones(), Ray { orig: rec.p, dir }))
    }

    /// The clear solid of refractive index `ri`.
    pub fn new(ri: Fixed) -> (r: Dielectric)
        ensures
            r.ref_idx == ri,
    {
        Dielectric { ref_idx: ri }
    }

    /// Scatters for the drawn fraction `coin`.
    #[verifier::when_used_as_spec(spec_scatter)]
    pub fn scatter_with(&self, r_in: &Ray, rec: &HitRecord, coin: Fixed) -> (r: Option<
        (Color, Ray),
    >)
        ensures
            r == self.spec_scatter(r_in, rec, coin),
    {
        let attenuation = Color::ones();
        let etai_over_etat = if rec.front_face {
            quot(ONE, self.ref_idx)
        } else {
            self.ref_idx
        };
        let unit_direction = r_in.dir.unit();
        let cos_theta = min(unit_direction.negate().dot(rec.normal), ONE);
        let sin_theta = root(diff(ONE, prod(cos_theta, cos_theta)));
        if prod(etai_over_etat, sin_theta) > ONE {
            let reflected = reflect(&unit_direction, &rec.normal);
            let scattered = Ray::new(rec.p, reflected);
            return Some((attenuation, scattered));
        }
        let reflect_prob = schlick(cos_theta, etai_over_etat);
        if coin < reflect_prob {
            let reflected = reflect(&unit_direction, &rec.normal);
            let scattered = Ray::new(rec.p, reflected);
            return Some((attenuation, scattered));
        }
        let refracted = refract(&unit_direction, &rec.normal, etai_over_etat);
        let scattered = Ray::new(rec.p, refracted);
        Some((attenuation, scattered))
    }

    /// Mirrors or refracts the ray, at random by the reflectance.
    pub fn scatter(&self, r_in: &Ray, rec: &HitRecord) -> (r: Option<(Color, Ray)>)
        ensures
            exists|coin: Fixed| is_fraction(coin) && r == self.spec_scatter(r_in, rec, coin),
    {
        let coin = random_double();
        self.scatter_with(r_in, rec, coin)
    }

    /// No light: black.
    pub fn emitted(&self, _u: Fixed, _v: Fixed, _p: &Point3) -> (c: Color)
        ensures
            c == Color::zero(),
    {
        Color::zero()
    }
}

impl DiffuseLight {
    /// The light of the texture `a`.
    pub fn new(a: Arc<Texture>) -> (r: DiffuseLight)
        ensures
            r.emit == a,
    {
        DiffuseLight { emit: a }
    }

    /// The light of the colour `c`.
    pub fn new_color(c: &Color) -> (r: DiffuseLight)
        ensures
            *r.emit == Texture::Solid(SolidColor { color_value: *c }),
    {
        DiffuseLight { emit: Arc::new(Texture::Solid(SolidColor::new(c))) }
    }

    /// A light scatters nothing.
    pub fn scatter(&self, _r_in: &Ray, _rec: &HitRecord) -> (r: Option<(Color, Ray)>)
        ensures
            r is None,
    {
        None
    }

    /// The light given off: the texture's colour at the hit.
    pub fn emitted(&self, u: Fixed, v: Fixed, p: &Point3) -> (c: Color)
        ensures
            c == self.emit.value(u, v, p),
    {
        self.emit.value(u, v, p)
    }
}

impl Material {
    /// What the material makes of the ray `r_in` at the hit `rec`, when
    /// `ball` is the random point drawn inside the unit sphere and `coin`
    /// the random fraction drawn: the tint and the scattered ray, or nothing
    /// where the ray is absorbed.
    pub open spec fn spec_scatter(&self, r_in: &Ray, rec: &HitRecord, ball: Vec3, coin: Fixed) -> Option<
        (Color, Ray),
    > {
        match self {
            Material::Lambertian(m) => m.spec_scatter(rec, ball),
            Material::Metal(m) => m.spec_scatter(r_in, rec, ball),
            Material::Dielectric(m) => m.spec_scatter(r_in, rec, coin),
            Material::DiffuseLight(_) => None,
        }
    }

    /// The light that the material gives off at the surface coordinates
    /// `(u, v)` and the point `p`.
    pub open spec fn spec_emitted(&self, u: Fixed, v: Fixed, p: &Point3) -> Color {
        match self {
            Material::DiffuseLight(m) => m.emit.value(u, v, p),
            _ => Color::zero(),
        }
    }

    /// Whether `outcome` is something that `scatter` may return for the ray
    /// `r_in` at the hit `rec`.
    #[verifier::opaque]
    pub open spec fn may_scatter(&self, r_in: &Ray, rec: &HitRecord, outcome: Option<(Color, Ray)>) -> bool {
        exists|ball: Vec3, coin: Fixed|
            in_unit_ball(ball) && is_fraction(coin) && outcome == self.spec_scatter(
                r_in,
                rec,
                ball,
                coin,
            )
    }

    /// Scatters for the drawn point `ball` and the drawn fraction `coin`.
    #[verifier::when_used_as_spec(spec_scatter)]
    pub fn scatter_with(&self, r_in: &Ray, rec: &HitRecord, ball: Vec3, coin: Fixed) -> (r: Option<
        (Color, Ray),
    >)
        ensures
            r == self.spec_scatter(r_in, rec, ball, coin),
    {
        match self {
            Material::Lambertian(m) => m.scatter_with(rec, ball),
            Material::Metal(m) => m.scatter_with(r_in, rec, ball),
            Material::Dielectric(m) => m.scatter_with(r_in, rec, coin),
            Material::DiffuseLight(m) => m.scatter(r_in, rec),
        }
    }

    /// Scatters the ray `r_in` at the hit `rec`: the tint and the scattered
    /// ray, or nothing where the ray is absorbed.
    pub fn scatter(&self, r_in: &Ray, rec: &HitRecord) -> (r: Option<(Color, Ray)>)
        ensures
            self.may_scatter(r_in, rec, r),
    {
        reveal(Material::may_scatter);
        match self {
            Material::Lambertian(m) => {
                let r = m.scatter(r_in, rec);
                proof {
                    let ball = choose|ball: Vec3| in_unit_ball(ball) && r == m.spec_scatter(rec, ball);
                    assert(in_unit_ball(ball) && is_fraction(0) && r == self.spec_scatter(
                        r_in,
                        rec,
                        ball,
                        0,
                    ));
                }
                r
            },
            Material::Metal(m) => {
                let r = m.scatter(r_in, rec);
                proof {
                    let ball = choose|ball: Vec3|
                        in_unit_ball(ball) && r == m.spec_scatter(r_in, rec, ball);
                    assert(in_unit_ball(ball) && is_fraction(0) && r == self.spec_scatter(
                        r_in,
                        rec,
                        ball,
                        0,
                    ));
                }
                r
            },
            Material::Dielectric(m) => {
                let r = m.scatter(r_in, rec);
                proof {
                    let coin = choose|coin: Fixed|
                        is_fraction(coin) && r == m.spec_scatter(r_in, rec, coin);
                    assert(in_unit_ball(Vec3::zero()) && is_fraction(coin) && r
                        == self.spec_scatter(r_in, rec, Vec3::zero(), coin));
                }
                r
            },
            Material::DiffuseLight(m) => {
                let r = m.scatter(r_in, rec);
                proof {
                    assert(in_unit_ball(Vec3::zero()) && is_fraction(0) && r == self.spec_scatter(
                        r_in,
                        rec,
                        Vec3::zero(),
                        0,
                    ));
                }
                r
            },
        }
    }

    /// The light that the material gives off at the surface coordinates
    /// `(u, v)` and the point `p`.
    #[verifier::when_used_as_spec(spec_emitted)]
    pub fn emitted(&self, u: Fixed, v: Fixed, p: &Point3) -> (c: Color)
        ensures
            c == self.spec_emitted(u, v, p),
    {
        match self {
            Material::Lambertian(m) => m.emitted(u, v, p),
            Material::Metal(m) => m.emitted(u, v, p),
            Material::Dielectric(m) => m.emitted(u, v, p),
            Material::DiffuseLight(m) => m.emitted(u, v, p),
        }
    }
}

/// Glass of the refractive index one lets a ray through unchanged that
/// meets it head on: whatever is drawn, a ray along an axis, of the
/// length one, that meets a surface whose normal is the reverse of its
/// direction goes on from the hit in its own direction with all of its
/// light.
pub proof fn lemma_index_one_passes_straight(
    glass: &Dielectric,
    r_in: &Ray,
    rec: &HitRecord,
    axis: usize,
    outcome: Option<(Color, Ray)>,
)
    requires
        glass.ref_idx == ONE,
        r_in.dir == Vec3::along(axis, ONE) || r_in.dir == Vec3::along(axis, MINUS_ONE),
        rec.normal == r_in.dir.negate(),
        (Material::Dielectric(*glass)).may_scatter(r_in, rec, outcome),
    ensures
        outcome == Some((Color::ones(), Ray { orig: rec.p, dir: r_in.dir })),
{
    reveal(Material::may_scatter);
    let (ball, coin) = choose|ball: Vec3, coin: Fixed|
        in_unit_ball(ball) && is_fraction(coin) && outcome == (Material::Dielectric(
            *glass,
        )).spec_scatter(r_in, rec, ball, coin);
    lemma_prod_by_unit(0);
    lemma_prod_by_unit(ONE);
    lemma_prod_by_unit(MINUS_ONE);
    lemma_quot_by_unit(0);
    lemma_quot_by_unit(ONE);
    lemma_quot_by_unit(MINUS_ONE);
    lemma_root_of_square(ONE);
    let dir = r_in.dir;
    let normal = rec.normal;
    assert(dir.squared_length() == ONE);
    assert(dir.unit() == dir);
    assert(dir.negate().dot(normal) == ONE);
    assert(Dielectric::cos_theta(r_in, rec) == ONE);
    assert(fx_root(fx_diff(ONE, fx_prod(ONE, ONE))) == 0) by {
        lemma_root_bounds(0);
    }
    assert(glass.ratio(rec) == ONE);
    assert(fx_quot(0, fx_sum(ONE, ONE)) == 0);
    assert(spec_schlick(ONE, ONE) == 0);
    assert(!glass.reflects(r_in, rec, coin));
    let across = dir.plus(normal.scale(ONE)).scale(ONE);
    assert(across == Vec3::zero());
    assert(across.squared_length() == 0);
    assert(fx_root(fx_diff(ONE, 0)) == ONE);
    assert(normal.scale(fx_neg(ONE)) == dir);
    assert(refract(&dir, &normal, ONE) == dir);
}

} // verus!
