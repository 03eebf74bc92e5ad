//! Random numbers and vectors. The numbers come from the `rand` crate; what
//! is made of them is computed here.

use vstd::prelude::*;
use rand::Rng;
use crate::fixed::{Fixed, MINUS_ONE, ONE, diff, fx_diff, fx_prod, fx_sum, lemma_prod_by_unit, prod, sum, round_div};
use crate::vec3::Vec3;

verus! {

/// How many points `random_in_unit_sphere` and `random_in_unit_disk` draw
/// before they settle for the centre.
pub const MAX_TRIES: usize = 64;

/// A random whole number below `n`, from `rand::Rng::gen_range(0, n)` on
/// `rand::thread_rng()`. The contract claims that the call returns a number
/// from zero up to, but not including, `n`. `gen_range` panics when its range
/// is empty, which `n > 0` rules out; it draws until a draw is accepted,
/// which each draw is with a probability of at least one half.
/// `thread_rng` panics if the system gives the generator no seed.
#[verifier::external_body]
fn random_below(n: u64) -> (r: u64)
    requires
        n > 0,
    ensures
        r < n,
{
    rand::thread_rng().gen_range(0, n)
}

/// The number at the fraction `u` of the way from `min` to `max`.
pub open spec fn spec_lerp(min: Fixed, max: Fixed, u: Fixed) -> Fixed {
    fx_sum(min, fx_prod(fx_diff(max, min), u))
}

/// The point of the cube from -1 to 1 at the fractions `u` of its edges.
pub open spec fn spec_cube_point(u: Vec3) -> Vec3 {
    Vec3 {
        x: spec_lerp(MINUS_ONE, ONE, u.x),
        y: spec_lerp(MINUS_ONE, ONE, u.y),
        z: spec_lerp(MINUS_ONE, ONE, u.z),
    }
}

/// Whether `u` is a fraction: at least zero and less than one.
pub open spec fn is_fraction(u: Fixed) -> bool {
    0 <= u < ONE
}

/// Whether `p` lies in the cube from -1 to 1 and strictly inside the sphere
/// of radius one about the origin.
pub open spec fn in_unit_ball(p: Vec3) -> bool {
    &&& -ONE <= p.x < ONE
    &&& -ONE <= p.y < ONE
    &&& -ONE <= p.z < ONE
    &&& p.squared_length() < ONE
}

/// A fraction `u` of the way from -1 to 1 is the number `2 u - 1`.
pub proof fn lemma_lerp_across_unit(u: Fixed)
    requires
        is_fraction(u),
    ensures
        spec_lerp(MINUS_ONE, ONE, u) == 2 * u - ONE,
{
    let w = fx_diff(ONE, MINUS_ONE);
    assert(w * u == 0x2_0000_0000 * u) by (nonlinear_arith)
        requires
            w == 0x2_0000_0000,
    ;
    assert(round_div(0x2_0000_0000 * u, ONE as int) == 2 * u);
}

/// The number at the fraction `u` of the way from `min` to `max`.
#[verifier::when_used_as_spec(spec_lerp)]
pub fn lerp(min: Fixed, max: Fixed, u: Fixed) -> (r: Fixed)
    ensures
        r == spec_lerp(min, max, u),
{
    sum(min, prod(diff(max, min), u))
}

/// The point of the cube from -1 to 1 at the fractions `u` of its edges.
#[verifier::when_used_as_spec(spec_cube_point)]
pub fn cube_point(u: Vec3) -> (p: Vec3)
    ensures
        p == spec_cube_point(u),
        is_fraction(u.x) ==> -ONE <= p.x < ONE,
        is_fraction(u.y) ==> -ONE <= p.y < ONE,
        is_fraction(u.z) ==> -ONE <= p.z < ONE,
{
    proof {
        if is_fraction(u.x) {
            lemma_lerp_across_unit(u.x);
        }
        if is_fraction(u.y) {
            lemma_lerp_across_unit(u.y);
        }
        if is_fraction(u.z) {
            lemma_lerp_across_unit(u.z);
        }
    }
    Vec3 { x: lerp(MINUS_ONE, ONE, u.x), y: lerp(MINUS_ONE, ONE, u.y), z: lerp(MINUS_ONE, ONE, u.z) }
}

/// A random number that is at least zero and less than one.
pub fn random_double() -> (r: Fixed)
    ensures
        is_fraction(r),
{
    random_below(ONE as u64) as i64
}

/// A random number between `min` and `max`: the number at a random fraction
/// of the way from the one to the other.
pub fn random_double_in(min: Fixed, max: Fixed) -> (r: Fixed)
    ensures
        exists|u: Fixed| is_fraction(u) && r == spec_lerp(min, max, u),
{
    let u = random_double();
    lerp(min, max, u)
}

/// A random axis: 0, 1 or 2.
pub fn random_axis() -> (axis: usize)
    ensures
        axis < 3,
{
    random_below(3) as usize
}

impl Vec3 {
    /// A vector of three random fractions.
    pub fn random_unit() -> (u: Vec3)
        ensures
            is_fraction(u.x),
            is_fraction(u.y),
            is_fraction(u.z),
    {
        let x = random_double();
        let y = random_double();
        let z = random_double();
        Vec3 { x, y, z }
    }

    /// A vector of three random numbers between `min` and `max`.
    pub fn random(min: Fixed, max: Fixed) -> (r: Vec3)
        ensures
            exists|u: Vec3|
                is_fraction(u.x) && is_fraction(u.y) && is_fraction(u.z) && r == (Vec3 {
                    x: spec_lerp(min, max, u.x),
                    y: spec_lerp(min, max, u.y),
                    z: spec_lerp(min, max, u.z),
                }),
    {
        let u = Vec3::random_unit();
        Vec3 { x: lerp(min, max, u.x), y: lerp(min, max, u.y), z: lerp(min, max, u.z) }
    }
}

/// Whether `u` is a vector of three fractions.
pub open spec fn is_fractions(u: Vec3) -> bool {
    is_fraction(u.x) && is_fraction(u.y) && is_fraction(u.z)
}

/// Whether `p` is a point that `random_in_unit_sphere` may return: a point
/// inside the unit sphere that is the centre or the point of the cube at
/// three drawn fractions.
pub open spec fn may_be_ball_point(p: Vec3) -> bool {
    in_unit_ball(p) && (p == Vec3::zero() || exists|u: Vec3|
        is_fractions(u) && p == #[trigger] spec_cube_point(u))
}

/// The point of the square from -1 to 1 in the plane `z = 0` at the first
/// two of the fractions `u`.
pub open spec fn spec_square_point(u: Vec3) -> Vec3 {
    Vec3 { x: spec_cube_point(u).x, y: spec_cube_point(u).y, z: 0 }
}

/// Whether `p` is a point that `random_in_unit_disk` may return: a point
/// inside the unit circle of the plane `z = 0` that is the centre or the
/// point of the square at drawn fractions.
pub open spec fn may_be_disk_point(p: Vec3) -> bool {
    in_unit_ball(p) && p.z == 0 && (p == Vec3::zero() || exists|u: Vec3|
        is_fractions(u) && p == #[trigger] spec_square_point(u))
}

/// The centre lies inside the unit sphere.
pub proof fn lemma_centre_is_inside()
    ensures
        in_unit_ball(Vec3::zero()),
{
    lemma_prod_by_unit(0);
}

/// A random point inside the sphere of radius one: points of the cube from
/// -1 to 1 are drawn until one lies inside the sphere; after `MAX_TRIES`
/// draws outside it the centre is returned.
pub fn random_in_unit_sphere() -> (p: Vec3)
    ensures
        may_be_ball_point(p),
        in_unit_ball(p),
{
    proof {
        lemma_centre_is_inside();
    }
    let mut tries: usize = 0;
    while tries < MAX_TRIES
        invariant
            tries <= MAX_TRIES,
        decreases MAX_TRIES - tries,
    {
        let u = Vec3::random_unit();
        let p = cube_point(u);
        if p.squared_length() < ONE {
            assert(is_fractions(u) && p == spec_cube_point(u));
            return p;
        }
        tries += 1;
    }
    Vec3::zero()
}

/// A random direction: a random point inside the unit sphere, scaled to
/// length one.
pub fn random_unit_vector() -> (v: Vec3)
    ensures
        exists|p: Vec3| may_be_ball_point(p) && in_unit_ball(p) && v == p.unit(),
{
    let p = random_in_unit_sphere();
    p.unit()
}

/// A random point inside the circle of radius one in the plane `z = 0`,
/// drawn as in `random_in_unit_sphere`.
pub fn random_in_unit_disk() -> (p: Vec3)
    ensures
        may_be_disk_point(p),
        in_unit_ball(p),
        p.z == 0,
{
    proof {
        lemma_centre_is_inside();
    }
    let mut tries: usize = 0;
    while tries < MAX_TRIES
        invariant
            tries <= MAX_TRIES,
        decreases MAX_TRIES - tries,
    {
        let u = Vec3::random_unit();
        let q = cube_point(u);
        let p = Vec3 { x: q.x, y: q.y, z: 0 };
        if p.squared_length() < ONE {
            assert(is_fractions(u) && p == spec_square_point(u));
            return p;
        }
        tries += 1;
    }
    Vec3::zero()
}

} // verus!
