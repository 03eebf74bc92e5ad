//! Two ready-made scenes with their cameras.

use vstd::prelude::*;
use std::sync::Arc;
use crate::bvh::{all_boxed, is_hierarchy_over};
use crate::camera::Camera;
use crate::fixed::{Fixed, ONE, from_int, fx_int, fx_prod, fx_sum, lemma_prod_with_fraction, lemma_ratio_is, prod, ratio, sum};
use crate::material::{Dielectric, DiffuseLight, Lambertian, Material, Metal};
use crate::object::{BvhNode, HittableList, Object};
use crate::random::{is_fraction, random_double, random_double_in};
use crate::sphere::Sphere;
use crate::texture::{CheckerTexture, SolidColor, Texture};
use crate::vec3::{Color, Point3, Vec3};

verus! {

/// Whether the object is a sphere.
pub open spec fn is_sphere(ob: &Object) -> bool {
    ob is Sphere
}

/// The radius of an object that is a sphere.
pub open spec fn radius_of(ob: &Object) -> Fixed {
    ob->Sphere_0.radius
}

/// The centre of an object that is a sphere.
pub open spec fn centre_of(ob: &Object) -> Point3 {
    ob->Sphere_0.center
}

/// The material of an object that is a sphere.
pub open spec fn material_of(ob: &Object) -> Material {
    *ob->Sphere_0.mat_ptr
}

/// Every object of the sequence is a sphere.
pub open spec fn all_spheres(objects: Seq<Arc<Object>>) -> bool {
    forall|i: int| 0 <= i < objects.len() ==> is_sphere(&#[trigger] objects[i])
}

/// The ground of both scenes: a sphere of the radius 1000 that touches the
/// origin from below, matte, a checkerboard of dark green and light grey.
pub open spec fn is_ground(ob: &Object) -> bool {
    ob matches Object::Sphere(s) && {
        &&& s.center == (Point3 { x: 0, y: fx_int((-1000) as i64), z: 0 })
        &&& s.radius == fx_int(1000)
        &&& *s.mat_ptr matches Material::Lambertian(matte) && *matte.albedo matches Texture::Checker(
            checker,
        ) && {
            &&& *checker.odd == Texture::Solid(
                SolidColor { color_value: Color { x: ratio(2, 10), y: ratio(3, 10), z: ratio(1, 10) } },
            )
            &&& *checker.even == Texture::Solid(
                SolidColor { color_value: Color { x: ratio(9, 10), y: ratio(9, 10), z: ratio(9, 10) } },
            )
        }
    }
}

/// Whether the object is a sphere about `center` with the radius `radius`.
pub open spec fn is_sphere_at(ob: &Object, center: Point3, radius: Fixed) -> bool {
    ob matches Object::Sphere(s) && s.center == center && s.radius == radius
}

/// A small sphere of the first scene: it has the radius 0.2, rests on the
/// ground, and keeps more than 0.9 away from the point `(4, 0.2, 0)`.
pub open spec fn is_small_sphere(ob: &Object) -> bool {
    ob matches Object::Sphere(s) && {
        &&& s.radius == ratio(2, 10)
        &&& s.center.y == ratio(2, 10)
        &&& s.center.minus(Point3 { x: fx_int(4), y: ratio(2, 10), z: 0 }).length() > ratio(9, 10)
        &&& *s.mat_ptr is Lambertian || *s.mat_ptr is Metal || *s.mat_ptr == Material::Dielectric(
            Dielectric { ref_idx: ratio(15, 10) },
        )
    }
}

/// Whether `world` is a scene that `random_scene` may build: under a sky,
/// the ground, then up to 484 small spheres, then three large spheres of
/// the radius one in a row: glass at the origin, matte brown behind it and
/// polished metal before it.
pub open spec fn is_random_scene(world: &HittableList) -> bool {
    let n = world.objects@.len() as int;
    &&& !world.if_dark
    &&& 4 <= n <= 488
    &&& all_spheres(world.objects@)
    &&& is_ground(&world.objects@[0])
    &&& forall|i: int| 1 <= i < n - 3 ==> is_small_sphere(&#[trigger] world.objects@[i])
    &&& is_sphere_at(&world.objects@[n - 3], Point3 { x: 0, y: ONE, z: 0 }, ONE)
    &&& material_of(&world.objects@[n - 3]) == Material::Dielectric(
        Dielectric { ref_idx: ratio(15, 10) },
    )
    &&& is_sphere_at(&world.objects@[n - 2], Point3 { x: fx_int((-4) as i64), y: ONE, z: 0 }, ONE)
    &&& material_of(&world.objects@[n - 2]) is Lambertian
    &&& is_sphere_at(&world.objects@[n - 1], Point3 { x: fx_int(4), y: ONE, z: 0 }, ONE)
    &&& material_of(&world.objects@[n - 1]) == Material::Metal(
        Metal { albedo: Color { x: ratio(7, 10), y: ratio(6, 10), z: ratio(5, 10) }, fuzz: 0 },
    )
}

/// Whether the sphere about `c1` with the radius `r1` and the sphere about
/// `c2` with the radius `r2` lie apart: the square of the distance of the
/// centres is more than the square of the sum of the radii.
pub open spec fn spheres_apart(c1: Point3, r1: Fixed, c2: Point3, r2: Fixed) -> bool {
    c1.minus(c2).squared_length() > fx_prod(fx_sum(r1, r2), fx_sum(r1, r2))
}

/// Whether the object, a sphere, lies apart from the sphere about `c` with
/// the radius `r`.
pub open spec fn lies_apart(ob: &Object, c: Point3, r: Fixed) -> bool {
    spheres_apart(centre_of(ob), radius_of(ob), c, r)
}

/// Whether the sphere number `i` of the second scene is the matte core of
/// the glass sphere before it: it has that sphere's centre and nine tenths
/// of its radius.
pub open spec fn is_core(objects: Seq<Arc<Object>>, i: int) -> bool {
    &&& 4 <= i < objects.len()
    &&& centre_of(&objects[i]) == centre_of(&objects[i - 1])
    &&& radius_of(&objects[i]) == fx_prod(radius_of(&objects[i - 1]), ratio(9, 10))
    &&& material_of(&objects[i - 1]) == Material::Dielectric(Dielectric { ref_idx: ratio(15, 10) })
    &&& material_of(&objects[i]) is Lambertian
}

/// Whether the sphere number `i` of the second scene was placed as the
/// scene places a sphere of its field: its radius is between 0.02 and 0.3,
/// it rests on the ground, and it lies apart from the glass ball and from
/// every sphere of the field before it that is not a core.
pub open spec fn is_placed_well(objects: Seq<Arc<Object>>, i: int) -> bool {
    let c = centre_of(&objects[i]);
    let r = radius_of(&objects[i]);
    &&& ratio(2, 100) <= r <= ratio(3, 10)
    &&& c.y == r
    &&& spheres_apart(Point3 { x: 0, y: ratio(6, 10), z: 0 }, ratio(6, 10), c, r)
    &&& forall|j: int|
        3 <= j < i && !is_core(objects, j) ==> lies_apart(&#[trigger] objects[j], c, r)
}

/// Whether the sphere number `i` of the second scene is a core or was
/// placed well.
pub open spec fn is_well_made(objects: Seq<Arc<Object>>, i: int) -> bool {
    is_core(objects, i) || is_placed_well(objects, i)
}

/// Whether `world` is a scene that `light_world` may build: in the dark,
/// the ground, a glass ball of the radius 0.6 with a lamp of the radius 0.4
/// inside it, and up to 968 spheres of a field, each of them placed well or
/// the core of the glass sphere before it.
pub open spec fn is_light_world(world: &HittableList) -> bool {
    let n = world.objects@.len() as int;
    &&& world.if_dark
    &&& 3 <= n <= 971
    &&& all_spheres(world.objects@)
    &&& is_ground(&world.objects@[0])
    &&& is_sphere_at(&world.objects@[1], Point3 { x: 0, y: ratio(6, 10), z: 0 }, ratio(6, 10))
    &&& material_of(&world.objects@[1]) == Material::Dielectric(
        Dielectric { ref_idx: ratio(15, 10) },
    )
    &&& is_sphere_at(&world.objects@[2], Point3 { x: 0, y: ratio(6, 10), z: 0 }, ratio(4, 10))
    &&& material_of(&world.objects@[2]) is DiffuseLight
    &&& forall|i: int| 3 <= i < n ==> #[trigger] is_well_made(world.objects@, i)
}

/// A sphere of a list stays a core, or well placed, when objects are added
/// behind it.
pub proof fn lemma_well_made_stays(old: Seq<Arc<Object>>, new: Seq<Arc<Object>>, i: int)
    requires
        old.len() <= new.len(),
        forall|k: int| 0 <= k < old.len() ==> #[trigger] new[k] == old[k],
        3 <= i < old.len(),
    ensures
        is_core(new, i) == is_core(old, i),
        is_placed_well(new, i) == is_placed_well(old, i),
        is_well_made(new, i) == is_well_made(old, i),
{
    assert(new[i] == old[i]);
    assert(new[i - 1] == old[i - 1]);
    assert forall|j: int| 3 <= j < i implies is_core(new, j) == is_core(old, j) && new[j] == old[j] by {
        assert(new[j] == old[j]);
        assert(new[j - 1] == old[j - 1]);
    }
    let c = centre_of(&old[i]);
    let r = radius_of(&old[i]);
    if is_placed_well(old, i) {
        assert forall|j: int| 3 <= j < i && !is_core(new, j) implies lies_apart(
            &#[trigger] new[j],
            c,
            r,
        ) by {
            assert(lies_apart(&old[j], c, r));
        }
    }
    if is_placed_well(new, i) {
        assert forall|j: int| 3 <= j < i && !is_core(old, j) implies lies_apart(
            &#[trigger] old[j],
            c,
            r,
        ) by {
            assert(lies_apart(&new[j], c, r));
        }
    }
}

/// Spheres have boxes.
pub proof fn lemma_spheres_are_boxed(objects: Seq<Arc<Object>>)
    requires
        all_spheres(objects),
    ensures
        all_boxed(objects),
{
    assert forall|i: int| 0 <= i < objects.len() implies (#[trigger] objects[i]).spec_bounding_box() is Some by {
        assert(is_sphere(&objects[i]));
    }
}

/// The ground of both scenes.
fn ground() -> (ob: Arc<Object>)
    ensures
        is_ground(&ob),
{
    let checker_texture = Arc::new(
        Texture::Checker(
            CheckerTexture::new(
                &Color::new(ratio(2, 10), ratio(3, 10), ratio(1, 10)),
                &Color::new(ratio(9, 10), ratio(9, 10), ratio(9, 10)),
            ),
        ),
    );
    Arc::new(
        Object::Sphere(
            Sphere::new(
                Point3::new(0, from_int(-1000), 0),
                from_int(1000),
                Arc::new(Material::Lambertian(Lambertian::new_arc(checker_texture))),
            ),
        ),
    )
}

/// The sphere about `center` with the radius `radius` and the material
/// `material`, as an object.
fn sphere_of(center: Point3, radius: Fixed, material: Material) -> (ob: Arc<Object>)
    ensures
        is_sphere_at(&ob, center, radius),
        material_of(&ob) == material,
{
    Arc::new(Object::Sphere(Sphere::new(center, radius, Arc::new(material))))
}

/// The product of two random colours.
fn random_tint() -> (c: Color)
    ensures
        may_be_tint(c),
        is_fraction(c.x),
        is_fraction(c.y),
        is_fraction(c.z),
{
    let a = Color::random_unit();
    let b = Color::random_unit();
    proof {
        lemma_fractions_multiply(a.x, b.x);
        lemma_fractions_multiply(a.y, b.y);
        lemma_fractions_multiply(a.z, b.z);
    }
    Vec3::elemul(a, b)
}

/// Whether `c` is a colour that `random_tint` may return: the product,
/// channel by channel, of two colours whose channels are fractions.
pub open spec fn may_be_tint(c: Color) -> bool {
    exists|a: Color, b: Color|
        {
            &&& #[trigger] Vec3::elemul(a, b) == c
            &&& is_fraction(a.x) && is_fraction(a.y) && is_fraction(a.z)
            &&& is_fraction(b.x) && is_fraction(b.y) && is_fraction(b.z)
        }
}

/// The product of two fractions is a fraction.
proof fn lemma_fractions_multiply(a: Fixed, b: Fixed)
    requires
        is_fraction(a),
        is_fraction(b),
    ensures
        is_fraction(fx_prod(a, b)),
{
    let p = a * b;
    assert(0 <= p <= 0xffff_ffff * 0xffff_ffff) by (nonlinear_arith)
        requires
            0 <= a < 0x1_0000_0000,
            0 <= b < 0x1_0000_0000,
            p == a * b,
    ;
    assert(0 <= (2 * p + 0x1_0000_0000) / 0x2_0000_0000 < 0x1_0000_0000);
}

/// The material of a small sphere of the first scene, by the random
/// fraction `choose_mat`: matte below 0.65, metal below 0.9, else glass.
fn first_scene_material(choose_mat: Fixed) -> (m: Material)
    ensures
        if choose_mat < ratio(65, 100) {
            m is Lambertian
        } else if choose_mat < ratio(9, 10) {
            m is Metal
        } else {
            m == Material::Dielectric(Dielectric { ref_idx: ratio(15, 10) })
        },
{
    if choose_mat < ratio(65, 100) {
        let albedo = random_tint();
        Material::Lambertian(Lambertian::new(&albedo))
    } else if choose_mat < ratio(9, 10) {
        let albedo = Color::random(ratio(5, 10), ONE);
        let fuzz = random_double_in(0, ratio(5, 10));
        Material::Metal(Metal::new(&albedo, fuzz))
    } else {
        Material::Dielectric(Dielectric::new(ratio(15, 10)))
    }
}

/// The first scene: the ground under a sky, a field of small spheres of
/// random materials at random places around the whole numbers from -11 to
/// 10 in `x` and `z`, and three large spheres.
pub fn random_scene() -> (world: HittableList)
    ensures
        is_random_scene(&world),
{
    let mut world = HittableList::new(false);
    world.push(ground());

    let mut a: i64 = -11;
    while a < 11
        invariant
            -11 <= a <= 11,
            !world.if_dark,
            1 <= world.objects@.len() <= 1 + (a + 11) * 22,
            all_spheres(world.objects@),
            is_ground(&world.objects@[0]),
            forall|i: int|
                1 <= i < world.objects@.len() ==> is_small_sphere(&#[trigger] world.objects@[i]),
        decreases 11 - a,
    {
        let mut b: i64 = -11;
        while b < 11
            invariant
                -11 <= a < 11,
                -11 <= b <= 11,
                !world.if_dark,
                1 <= world.objects@.len() <= 1 + (a + 11) * 22 + (b + 11),
                all_spheres(world.objects@),
                is_ground(&world.objects@[0]),
                forall|i: int|
                    1 <= i < world.objects@.len() ==> is_small_sphere(
                        &#[trigger] world.objects@[i],
                    ),
            decreases 11 - b,
        {
            let choose_mat = random_double();
            let center = Point3::new(
                sum(from_int(a), prod(ratio(9, 10), random_double())),
                ratio(2, 10),
                sum(from_int(b), prod(ratio(9, 10), random_double())),
            );
            if center.minus(Point3::new(from_int(4), ratio(2, 10), 0)).length() > ratio(9, 10) {
                let material = first_scene_material(choose_mat);
                let ghost before = world.objects@;
                world.push(sphere_of(center, ratio(2, 10), material));
                proof {
                    assert forall|i: int| 0 <= i < world.objects@.len() implies is_sphere(
                        &#[trigger] world.objects@[i],
                    ) by {
                        if i < before.len() {
                            assert(world.objects@[i] == before[i]);
                        }
                    }
                    assert forall|i: int| 1 <= i < world.objects@.len() implies is_small_sphere(
                        &#[trigger] world.objects@[i],
                    ) by {
                        if i < before.len() {
                            assert(world.objects@[i] == before[i]);
                        }
                    }
                    assert(world.objects@[0] == before[0]);
                }
            }
            b += 1;
        }
        a += 1;
    }
    let ghost small = world.objects@;
    world.push(sphere_of(Point3::new(0, ONE, 0), ONE, Material::Dielectric(Dielectric::new(ratio(15, 10)))));
    world.push(
        sphere_of(
            Point3::new(from_int(-4), ONE, 0),
            ONE,
            Material::Lambertian(Lambertian::new(&Color::new(ratio(4, 10), ratio(2, 10), ratio(1, 10)))),
        ),
    );
    world.push(
        sphere_of(
            Point3::new(from_int(4), ONE, 0),
            ONE,
            Material::Metal(Metal::new(&Color::new(ratio(7, 10), ratio(6, 10), ratio(5, 10)), 0)),
        ),
    );
    proof {
        let n = world.objects@.len() as int;
        assert(n == small.len() + 3);
        assert forall|i: int| 0 <= i < n implies is_sphere(&#[trigger] world.objects@[i]) by {
            if i < small.len() {
                assert(world.objects@[i] == small[i]);
            }
        }
        assert forall|i: int| 1 <= i < n - 3 implies is_small_sphere(
            &#[trigger] world.objects@[i],
        ) by {
            assert(world.objects@[i] == small[i]);
        }
        assert(world.objects@[0] == small[0]);
    }
    world
}

/// Whether a sphere about `center` with the radius `radius` keeps clear of
/// all the spheres of `placed`: the square of the distance of the centres is
/// more than the square of the sum of the radii.
pub open spec fn keeps_clear(placed: Seq<(Vec3, Fixed)>, center: Point3, radius: Fixed) -> bool {
    forall|i: int|
        0 <= i < placed.len() ==> spheres_apart(
            (#[trigger] placed[i]).0,
            placed[i].1,
            center,
            radius,
        )
}

/// Whether a sphere about `center` with the radius `radius` keeps clear of
/// all the spheres of `placed`.
pub fn is_clear(placed: &Vec<(Vec3, Fixed)>, center: Point3, radius: Fixed) -> (r: bool)
    ensures
        r == keeps_clear(placed@, center, radius),
{
    let mut i: usize = 0;
    while i < placed.len()
        invariant
            i <= placed.len(),
            forall|k: int|
                0 <= k < i ==> spheres_apart(
                    (#[trigger] placed@[k]).0,
                    placed@[k].1,
                    center,
                    radius,
                ),
        decreases placed.len() - i,
    {
        let reach = sum(placed[i].1, radius);
        if !(placed[i].0.minus(center).squared_length() > prod(reach, reach)) {
            return false;
        }
        i += 1;
    }
    true
}

/// Seven tenths of a radius of at least 0.02 is a smaller radius.
proof fn lemma_radius_shrinks(radius: Fixed)
    requires
        ratio(2, 100) <= radius,
    ensures
        0 < fx_prod(radius, ratio(7, 10)) < radius,
{
    let c = ratio(7, 10);
    lemma_ratio_is(7, 10, 3006477107);
    lemma_ratio_is(2, 100, 85899346);
    let p = radius * c;
    assert(0x1_0000_0000 <= p && 2 * p + 0x1_0000_0000 < 0x2_0000_0000 * radius)
        by (nonlinear_arith)
        requires
            85899346 <= radius,
            c == 3006477107,
            p == radius * c,
    ;
    assert(0 < (2 * p + 0x1_0000_0000) / 0x2_0000_0000 < radius);
}

/// What holds of the second scene while it is built: the glass ball stands
/// first among the spheres `placed` to keep clear of, every sphere of the
/// field is a core or placed well, and each that is not a core stands at
/// its `slot` among `placed`.
pub open spec fn field_is_well_made(
    objects: Seq<Arc<Object>>,
    placed: Seq<(Vec3, Fixed)>,
    slot: Seq<int>,
) -> bool {
    &&& placed.len() >= 1
    &&& placed[0] == (Point3 { x: 0, y: ratio(6, 10), z: 0 }, ratio(6, 10))
    &&& slot.len() == objects.len()
    &&& forall|i: int| 3 <= i < objects.len() ==> #[trigger] is_well_made(objects, i)
    &&& forall|i: int|
        3 <= i < objects.len() && !is_core(objects, i) ==> 0 <= (#[trigger] slot[i]) < placed.len()
            && placed[slot[i]] == (centre_of(&objects[i]), radius_of(&objects[i]))
}

/// The second scene: in the dark, the ground, a glass ball with a lamp in
/// it, and a field of small spheres, some of them lamps, that are made
/// smaller until they keep clear of the spheres placed before them, and
/// left out if that takes a radius below 0.02.
pub fn light_world() -> (world: HittableList)
    ensures
        is_light_world(&world),
{
    let mut world = HittableList::new(true);
    let mut sphere_pos: Vec<(Vec3, Fixed)> = Vec::new();
    world.push(ground());

    let center = Point3::new(0, ratio(6, 10), 0);
    let albedo1 = random_tint().scale(ratio(17, 10));
    let albedo2 = albedo1.scale(ratio(14, 10));
    let checker_texture2 = Arc::new(Texture::Checker(CheckerTexture::new(&albedo1, &albedo2)));
    let tex = Material::DiffuseLight(DiffuseLight::new(checker_texture2));
    let glass_material = Material::Dielectric(Dielectric::new(ratio(15, 10)));
    world.push(sphere_of(center, ratio(6, 10), glass_material));
    world.push(sphere_of(center, ratio(4, 10), tex));
    sphere_pos.push((center, ratio(6, 10)));
    proof {
        lemma_ratio_is(3, 10, 1288490189);
        lemma_ratio_is(25, 100, 0x4000_0000);
        lemma_ratio_is(5, 100, 214748365);
        lemma_ratio_is(2, 100, 85899346);
    }
    // where among `sphere_pos` each sphere of the field stands
    let ghost mut slot: Seq<int> = seq![0int, 0int, 0int];

    let mut a: i64 = -11;
    while a < 11
        invariant
            -11 <= a <= 11,
            world.if_dark,
            3 <= world.objects@.len() <= 3 + (a + 11) * 44,
            all_spheres(world.objects@),
            is_ground(&world.objects@[0]),
            is_sphere_at(&world.objects@[1], Point3 { x: 0, y: ratio(6, 10), z: 0 }, ratio(6, 10)),
            material_of(&world.objects@[1]) == Material::Dielectric(
                Dielectric { ref_idx: ratio(15, 10) },
            ),
            is_sphere_at(&world.objects@[2], Point3 { x: 0, y: ratio(6, 10), z: 0 }, ratio(4, 10)),
            material_of(&world.objects@[2]) is DiffuseLight,
            field_is_well_made(world.objects@, sphere_pos@, slot),
        decreases 11 - a,
    {
        let mut b: i64 = -11;
        while b < 11
            invariant
                -11 <= a < 11,
                -11 <= b <= 11,
                world.if_dark,
                3 <= world.objects@.len() <= 3 + (a + 11) * 44 + (b + 11) * 2,
                all_spheres(world.objects@),
                is_ground(&world.objects@[0]),
                is_sphere_at(
                    &world.objects@[1],
                    Point3 { x: 0, y: ratio(6, 10), z: 0 },
                    ratio(6, 10),
                ),
                material_of(&world.objects@[1]) == Material::Dielectric(
                    Dielectric { ref_idx: ratio(15, 10) },
                ),
                is_sphere_at(
                    &world.objects@[2],
                    Point3 { x: 0, y: ratio(6, 10), z: 0 },
                    ratio(4, 10),
                ),
                material_of(&world.objects@[2]) is DiffuseLight,
                field_is_well_made(world.objects@, sphere_pos@, slot),
            decreases 11 - b,
        {
            let grow = random_double();
            proof {
                lemma_prod_with_fraction(ratio(25, 100), grow);
                lemma_ratio_is(3, 10, 1288490189);
                lemma_ratio_is(25, 100, 0x4000_0000);
                lemma_ratio_is(5, 100, 214748365);
                lemma_ratio_is(2, 100, 85899346);
            }
            let mut radius = sum(ratio(5, 100), prod(ratio(25, 100), grow));
            let choose_mat = random_double();
            let mut center = Point3::new(
                prod(sum(from_int(a), prod(ratio(9, 10), random_double())), ratio(5, 10)),
                radius,
                prod(sum(from_int(b), prod(ratio(9, 10), random_double())), ratio(5, 10)),
            );
            let ghost placed = sphere_pos@;

            let mut flag = true;
            loop
                invariant_except_break
                    flag,
                    ratio(2, 100) <= radius <= ratio(3, 10),
                    center.y == radius,
                    sphere_pos@ == placed,
                ensures
                    flag ==> ratio(2, 100) <= radius <= ratio(3, 10) && center.y == radius
                        && keeps_clear(placed, center, radius) && sphere_pos@ == placed.push(
                        (center, radius),
                    ),
                    !flag ==> sphere_pos@ == placed,
                decreases radius,
            {
                let check = is_clear(&sphere_pos, center, radius);
                if check {
                    sphere_pos.push((center, radius));
                    break ;
                } else {
                    proof {
                        lemma_radius_shrinks(radius);
                    }
                    radius = prod(radius, ratio(7, 10));
                    center.y = radius;
                    if radius < ratio(2, 100) {
                        flag = false;
                        break ;
                    }
                }
            }
            if flag {
                let ghost before = world.objects@;
                let ghost slot_before = slot;
                let mut with_core = false;
                if choose_mat < ratio(25, 100) {
                    let albedo = random_tint().scale(from_int(4));
                    let difflight = Material::DiffuseLight(DiffuseLight::new_color(&albedo));
                    world.push(sphere_of(center, radius, difflight));
                } else if choose_mat < ratio(5, 10) {
                    let albedo = random_tint();
                    let sphere_material = Material::Lambertian(Lambertian::new(&albedo));
                    world.push(sphere_of(center, radius, sphere_material));
                } else if choose_mat < ratio(75, 100) {
                    let albedo = Color::random(ratio(5, 10), ONE);
                    let fuzz = random_double_in(0, ratio(5, 10));
                    let sphere_material = Material::Metal(Metal::new(&albedo, fuzz));
                    world.push(sphere_of(center, radius, sphere_material));
                } else {
                    let sphere_material = Material::Dielectric(Dielectric::new(ratio(15, 10)));
                    world.push(sphere_of(center, radius, sphere_material));
                    if choose_mat < ratio(85, 100) {
                        let albedo_extra = random_tint();
                        let sphere_material = Material::Lambertian(Lambertian::new(&albedo_extra));
                        world.push(sphere_of(center, prod(radius, ratio(9, 10)), sphere_material));
                        with_core = true;
                    }
                }
                proof {
                    let n0 = before.len() as int;
                    let now = world.objects@;
                    let n = now.len() as int;
                    slot = if with_core {
                        slot_before.push(placed.len() as int).push(0int)
                    } else {
                        slot_before.push(placed.len() as int)
                    };
                    assert(n == (if with_core {
                        n0 + 2
                    } else {
                        n0 + 1
                    }));
                    assert forall|k: int| 0 <= k < n0 implies #[trigger] now[k] == before[k] by {}
                    assert forall|i: int| 0 <= i < n implies is_sphere(&#[trigger] now[i]) by {
                        if i < n0 {
                            assert(now[i] == before[i]);
                        }
                    }
                    assert(now[0] == before[0]);
                    assert(now[1] == before[1]);
                    assert(now[2] == before[2]);
                    // the new sphere is placed well
                    assert(centre_of(&now[n0]) == center && radius_of(&now[n0]) == radius);
                    assert(placed[0] == (Point3 { x: 0, y: ratio(6, 10), z: 0 }, ratio(6, 10)));
                    assert forall|j: int| 3 <= j < n0 && !is_core(now, j) implies lies_apart(
                        &#[trigger] now[j],
                        center,
                        radius,
                    ) by {
                        lemma_well_made_stays(before, now, j);
                        assert(now[j] == before[j]);
                        let k = slot_before[j];
                        assert(placed[k] == (centre_of(&before[j]), radius_of(&before[j])));
                    }
                    assert(is_placed_well(now, n0));
                    if with_core {
                        assert(is_core(now, n0 + 1));
                    }
                    assert forall|i: int| 3 <= i < n implies #[trigger] is_well_made(now, i) by {
                        if i < n0 {
                            lemma_well_made_stays(before, now, i);
                            assert(is_well_made(before, i));
                        }
                    }
                    assert forall|i: int| 3 <= i < n && !is_core(now, i) implies 0 <= (
                    #[trigger] slot[i]) < sphere_pos@.len() && sphere_pos@[slot[i]] == (
                        centre_of(&now[i]),
                        radius_of(&now[i]),
                    ) by {
                        if i < n0 {
                            lemma_well_made_stays(before, now, i);
                            assert(now[i] == before[i]);
                            assert(slot[i] == slot_before[i]);
                            assert(sphere_pos@[slot_before[i]] == placed[slot_before[i]]);
                        }
                    }
                }
            }
            b += 1;
        }
        a += 1;
    }
    world
}

/// Whether `tree` is a hierarchy that may be built over the objects of
/// `list`.
pub open spec fn is_built_from(tree: &Object, list: &HittableList) -> bool {
    is_hierarchy_over(tree, list.objects@, list.if_dark)
}

/// The camera of the scene `index`: the first scene is seen from
/// `(13, 2, 3)` toward the origin at an angle of 20 degrees with a lens of
/// the width 0.1; the second from `(9, 4, 4)` toward `(2.5, 1, 1)` at 27
/// degrees with a lens of the width 0.06. Both pictures are 16 wide to 9
/// high and in focus at the distance 10.
pub open spec fn spec_scene_camera(index: u32) -> Camera {
    if index == 1 {
        Camera::new(
            Point3 { x: fx_int(13), y: fx_int(2), z: fx_int(3) },
            Point3 { x: 0, y: 0, z: 0 },
            Vec3 { x: 0, y: ONE, z: 0 },
            fx_int(20),
            ratio(16, 9),
            ratio(1, 10),
            fx_int(10),
        )
    } else {
        Camera::new(
            Point3 { x: fx_int(9), y: fx_int(4), z: fx_int(4) },
            Point3 { x: ratio(25, 10), y: ONE, z: ONE },
            Vec3 { x: 0, y: ONE, z: 0 },
            fx_int(27),
            ratio(16, 9),
            ratio(6, 100),
            fx_int(10),
        )
    }
}

/// The scene number `index`, as a hierarchy, with its camera: 1 for the
/// field of spheres under the sky, 2 for the lamps in the dark.
pub fn init_sence(index: u32) -> (r: (Arc<Object>, Camera))
    requires
        index == 1 || index == 2,
    ensures
        r.1 == spec_scene_camera(index),
        exists|list: HittableList|
            {
                &&& index == 1 ==> is_random_scene(&list)
                &&& index == 2 ==> is_light_world(&list)
                &&& #[trigger] is_built_from(&r.0, &list)
            },
{
    if index == 1 {
        let world_sence = random_scene();
        proof {
            lemma_spheres_are_boxed(world_sence.objects@);
        }
        let ghost list = world_sence;
        let world = BvhNode::new_boxed(world_sence, 0, ratio(1, 1000));
        let look_from = Point3::new(from_int(13), from_int(2), from_int(3));
        let look_at = Point3::new(0, 0, 0);
        let vup = Vec3::new(0, ONE, 0);
        let vfov = from_int(20);
        let aspect_ratio = ratio(16, 9);
        let dist_to_focus = from_int(10);
        let aperture = ratio(1, 10);
        let cam = Camera::new(
            look_from,
            look_at,
            vup,
            vfov,
            aspect_ratio,
            aperture,
            dist_to_focus,
        );
        proof {
            assert(is_random_scene(&list) && is_built_from(&world, &list));
        }
        let r = (world, cam);
        proof {
            assert(is_built_from(&r.0, &list));
        }
        r
    } else {
        let world_sence = light_world();
        proof {
            lemma_spheres_are_boxed(world_sence.objects@);
        }
        let ghost list = world_sence;
        let world = BvhNode::new_boxed(world_sence, 0, ratio(1, 1000));
        let look_from = Point3::new(from_int(9), from_int(4), from_int(4));
        let look_at = Point3::new(ratio(25, 10), ONE, ONE);
        let vup = Vec3::new(0, ONE, 0);
        let vfov = from_int(27);
        let dist_to_focus = from_int(10);
        let aperture = ratio(6, 100);
        let aspect_ratio = ratio(16, 9);
        let cam = Camera::new(
            look_from,
            look_at,
            vup,
            vfov,
            aspect_ratio,
            aperture,
            dist_to_focus,
        );
        proof {
            assert(is_light_world(&list) && is_built_from(&world, &list));
        }
        let r = (world, cam);
        proof {
            assert(is_built_from(&r.0, &list));
        }
        r
    }
}

} // verus!
