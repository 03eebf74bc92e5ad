//! Three-component vectors of fixed-point numbers, used for points,
//! directions and colours alike.

use vstd::prelude::*;
use crate::fixed::{Fixed, ONE, lemma_root_bounds, diff, fx_diff, fx_neg, fx_prod, fx_quot, fx_root, fx_sum, neg, prod, quot, root, sum};

verus! {

/// A vector `(x, y, z)`.
#[derive(Clone, Copy, Debug, PartialEq, Eq, Structural)]
pub struct Vec3 {
    pub x: Fixed,
    pub y: Fixed,
    pub z: Fixed,
}

/// A position in space.
pub type Point3 = Vec3;

/// A colour: red, green and blue in `x`, `y` and `z`.
pub type Color = Vec3;

/// The number two.
pub const TWO: Fixed = 0x2_0000_0000;

impl Vec3 {
    /// The vector `(ONE, ONE, ONE)`.
    pub open spec fn spec_ones() -> Vec3 {
        Vec3 { x: ONE, y: ONE, z: ONE }
    }

    /// The vector `(0, 0, 0)`.
    pub open spec fn spec_zero() -> Vec3 {
        Vec3 { x: 0, y: 0, z: 0 }
    }

    /// The component on `axis`: 0 for `x`, 1 for `y`, anything else for `z`.
    pub open spec fn spec_get(self, axis: usize) -> Fixed {
        if axis == 0 {
            self.x
        } else if axis == 1 {
            self.y
        } else {
            self.z
        }
    }

    /// The vector along `axis` (0 for `x`, 1 for `y`, anything else for `z`)
    /// with the coordinate `k`.
    pub open spec fn along(axis: usize, k: Fixed) -> Vec3 {
        Vec3 {
            x: if axis == 0 {
                k
            } else {
                0
            },
            y: if axis == 1 {
                k
            } else {
                0
            },
            z: if axis != 0 && axis != 1 {
                k
            } else {
                0
            },
        }
    }

    /// The component-wise sum.
    pub open spec fn spec_plus(self, o: Vec3) -> Vec3 {
        Vec3 { x: fx_sum(self.x, o.x), y: fx_sum(self.y, o.y), z: fx_sum(self.z, o.z) }
    }

    /// The component-wise difference.
    pub open spec fn spec_minus(self, o: Vec3) -> Vec3 {
        Vec3 { x: fx_diff(self.x, o.x), y: fx_diff(self.y, o.y), z: fx_diff(self.z, o.z) }
    }

    /// The opposite vector.
    pub open spec fn spec_negate(self) -> Vec3 {
        Vec3 { x: fx_neg(self.x), y: fx_neg(self.y), z: fx_neg(self.z) }
    }

    /// The vector with every component multiplied by `k`.
    pub open spec fn spec_scale(self, k: Fixed) -> Vec3 {
        Vec3 { x: fx_prod(self.x, k), y: fx_prod(self.y, k), z: fx_prod(self.z, k) }
    }

    /// The vector with every component divided by `k`.
    pub open spec fn spec_divide(self, k: Fixed) -> Vec3 {
        Vec3 { x: fx_quot(self.x, k), y: fx_quot(self.y, k), z: fx_quot(self.z, k) }
    }

    /// The component-wise product.
    pub open spec fn spec_elemul(a: Vec3, b: Vec3) -> Vec3 {
        Vec3 { x: fx_prod(a.x, b.x), y: fx_prod(a.y, b.y), z: fx_prod(a.z, b.z) }
    }

    /// The dot product, summed from `x` to `z`.
    pub open spec fn spec_dot(self, o: Vec3) -> Fixed {
        fx_sum(fx_sum(fx_prod(self.x, o.x), fx_prod(self.y, o.y)), fx_prod(self.z, o.z))
    }

    /// The cross product `a x b`.
    pub open spec fn spec_cross(a: Vec3, b: Vec3) -> Vec3 {
        Vec3 {
            x: fx_diff(fx_prod(a.y, b.z), fx_prod(a.z, b.y)),
            y: fx_diff(fx_prod(a.z, b.x), fx_prod(a.x, b.z)),
            z: fx_diff(fx_prod(a.x, b.y), fx_prod(a.y, b.x)),
        }
    }

    /// The dot product of the vector with itself.
    pub open spec fn spec_squared_length(self) -> Fixed {
        self.spec_dot(self)
    }

    /// The Euclidean length.
    pub open spec fn spec_length(self) -> Fixed {
        fx_root(self.spec_squared_length())
    }

    /// The vector divided by its length.
    pub open spec fn spec_unit(self) -> Vec3 {
        self.spec_divide(self.spec_length())
    }

    /// Builds a vector from its components.
    pub fn new(x: Fixed, y: Fixed, z: Fixed) -> (r: Vec3)
        ensures
            r == (Vec3 { x, y, z }),
    {
        Vec3 { x, y, z }
    }

    /// The vector `(0, 0, 0)`.
    #[verifier::when_used_as_spec(spec_zero)]
    pub fn zero() -> (r: Vec3)
        ensures
            r == Vec3::spec_zero(),
    {
        Vec3 { x: 0, y: 0, z: 0 }
    }

    /// The vector `(ONE, ONE, ONE)`.
    #[verifier::when_used_as_spec(spec_ones)]
    pub fn ones() -> (r: Vec3)
        ensures
            r == Vec3::spec_ones(),
    {
        Vec3 { x: ONE, y: ONE, z: ONE }
    }

    /// The component on `axis`: 0 for `x`, 1 for `y`, 2 for `z`.
    #[verifier::when_used_as_spec(spec_get)]
    pub fn get(self, axis: usize) -> (r: Fixed)
        requires
            axis < 3,
        ensures
            r == self.spec_get(axis),
    {
        if axis == 0 {
            self.x
        } else if axis == 1 {
            self.y
        } else {
            self.z
        }
    }

    /// Adds `o` to the vector.
    #[verifier::when_used_as_spec(spec_plus)]
    pub fn plus(self, o: Vec3) -> (r: Vec3)
        ensures
            r == self.spec_plus(o),
    {
        Vec3 { x: sum(self.x, o.x), y: sum(self.y, o.y), z: sum(self.z, o.z) }
    }

    /// Subtracts `o` from the vector.
    #[verifier::when_used_as_spec(spec_minus)]
    pub fn minus(self, o: Vec3) -> (r: Vec3)
        ensures
            r == self.spec_minus(o),
    {
        Vec3 { x: diff(self.x, o.x), y: diff(self.y, o.y), z: diff(self.z, o.z) }
    }

    /// Reverses the vector.
    #[verifier::when_used_as_spec(spec_negate)]
    pub fn negate(self) -> (r: Vec3)
        ensures
            r == self.spec_negate(),
    {
        Vec3 { x: neg(self.x), y: neg(self.y), z: neg(self.z) }
    }

    /// Multiplies the vector by the number `k`.
    #[verifier::when_used_as_spec(spec_scale)]
    pub fn scale(self, k: Fixed) -> (r: Vec3)
        ensures
            r == self.spec_scale(k),
    {
        Vec3 { x: prod(self.x, k), y: prod(self.y, k), z: prod(self.z, k) }
    }

    /// Divides the vector by the number `k`.
    #[verifier::when_used_as_spec(spec_divide)]
    pub fn divide(self, k: Fixed) -> (r: Vec3)
        ensures
            r == self.spec_divide(k),
    {
        Vec3 { x: quot(self.x, k), y: quot(self.y, k), z: quot(self.z, k) }
    }

    /// Multiplies two vectors component by component.
    #[verifier::when_used_as_spec(spec_elemul)]
    pub fn elemul(a: Vec3, b: Vec3) -> (r: Vec3)
        ensures
            r == Vec3::spec_elemul(a, b),
    {
        Vec3 { x: prod(a.x, b.x), y: prod(a.y, b.y), z: prod(a.z, b.z) }
    }

    /// The dot product with `o`.
    #[verifier::when_used_as_spec(spec_dot)]
    pub fn dot(self, o: Vec3) -> (r: Fixed)
        ensures
            r == self.spec_dot(o),
    {
        sum(sum(prod(self.x, o.x), prod(self.y, o.y)), prod(self.z, o.z))
    }

    /// The cross product `a x b`.
    #[verifier::when_used_as_spec(spec_cross)]
    pub fn cross(a: Vec3, b: Vec3) -> (r: Vec3)
        ensures
            r == Vec3::spec_cross(a, b),
    {
        Vec3 {
            x: diff(prod(a.y, b.z), prod(a.z, b.y)),
            y: diff(prod(a.z, b.x), prod(a.x, b.z)),
            z: diff(prod(a.x, b.y), prod(a.y, b.x)),
        }
    }

    /// The square of the vector's length.
    #[verifier::when_used_as_spec(spec_squared_length)]
    pub fn squared_length(self) -> (r: Fixed)
        ensures
            r == self.spec_squared_length(),
    {
        self.dot(self)
    }

    /// The vector's length.
    #[verifier::when_used_as_spec(spec_length)]
    pub fn length(self) -> (r: Fixed)
        ensures
            r == self.spec_length(),
    {
        root(self.squared_length())
    }

    /// The vector scaled to length one.
    #[verifier::when_used_as_spec(spec_unit)]
    pub fn unit(self) -> (r: Vec3)
        ensures
            r == self.spec_unit(),
    {
        self.divide(self.length())
    }
}

/// The mirror image of `v` in the plane with normal `n`: `v - 2 (v . n) n`.
pub open spec fn spec_reflect(v: &Vec3, n: &Vec3) -> Vec3 {
    v.minus(n.scale(fx_prod(TWO, v.dot(*n))))
}

/// The direction of the unit vector `uv` after it crosses a surface with
/// normal `n` between media whose refractive indices have the ratio
/// `etai_over_etat`, by Snell's law.
pub open spec fn spec_refract(uv: &Vec3, n: &Vec3, etai_over_etat: Fixed) -> Vec3 {
    let cos_theta = uv.negate().dot(*n);
    let across = uv.plus(n.scale(cos_theta)).scale(etai_over_etat);
    let along = n.scale(fx_neg(fx_root(fx_diff(ONE, across.squared_length()))));
    across.plus(along)
}

/// Reflects `v` off a surface with normal `n`.
#[verifier::when_used_as_spec(spec_reflect)]
pub fn reflect(v: &Vec3, n: &Vec3) -> (r: Vec3)
    ensures
        r == spec_reflect(v, n),
{
    v.minus(n.scale(prod(TWO, v.dot(*n))))
}

/// Refracts the unit vector `uv` through a surface with normal `n`.
#[verifier::when_used_as_spec(spec_refract)]
pub fn refract(uv: &Vec3, n: &Vec3, etai_over_etat: Fixed) -> (r: Vec3)
    ensures
        r == spec_refract(uv, n, etai_over_etat),
{
    let cos_theta = uv.negate().dot(*n);
    let across = uv.plus(n.scale(cos_theta)).scale(etai_over_etat);
    let along = n.scale(neg(root(diff(ONE, across.squared_length()))));
    across.plus(along)
}

/// For a quotient `m` of a number `a` that is not negative by a positive
/// number `l`, rounded to the nearest integer: the square of `m l` lies
/// between `a^2 - a l` and `a^2 + a l + l^2 / 4`.
proof fn lemma_quotient_squared(a: int, l: int, m: int)
    by (nonlinear_arith)
    requires
        0 <= a,
        0 < l,
        m == (2 * a + l) / (2 * l),
    ensures
        0 <= m,
        2 * (m * l) <= 2 * a + l,
        4 * ((m * m) * (l * l)) <= 4 * (a * a) + 4 * (a * l) + l * l,
        (m * m) * (l * l) >= a * a - a * l,
{
    let e = 2 * (m * l) - 2 * a;
    assert(-l < e <= l);
    assert(4 * ((m * m) * (l * l)) == (2 * a + e) * (2 * a + e));
    assert((2 * a + e) * (2 * a + e) == 4 * (a * a) + 4 * (a * e) + e * e);
    assert(e * e <= l * l);
    assert(a * e <= a * l && a * e >= -(a * l));
}

/// What one component `x` of a vector brings to the squared length of the
/// vector and of its unit vector, when the vector is `l` long.
struct ComponentShare {
    /// The size of `x`.
    size: int,
    /// The size of the component of the unit vector.
    unit_size: int,
}

/// The square of a component and of the matching component of the unit
/// vector, as fixed-point numbers, are the exact squares divided by `2^32`
/// and rounded; and the square of the latter times `l^2` is close to
/// `2^64 size^2`.
proof fn lemma_unit_component(x: Fixed, l: Fixed) -> (c: ComponentShare)
    requires
        -0x4000_0000_0000 <= x <= 0x4000_0000_0000,
        ONE <= l,
    ensures
        0 <= c.size <= 0x4000_0000_0000,
        0 <= c.unit_size <= 0x4000_0000_0000,
        2 * (fx_prod(x, x) * ONE) - ONE <= 2 * (c.size * c.size) <= 2 * (fx_prod(x, x) * ONE)
            + ONE,
        0 <= fx_prod(x, x) <= 0x1000_0000_0000_0000,
        2 * (fx_prod(fx_quot(x, l), fx_quot(x, l)) * ONE) - ONE <= 2 * (c.unit_size * c.unit_size)
            <= 2 * (fx_prod(fx_quot(x, l), fx_quot(x, l)) * ONE) + ONE,
        0 <= fx_prod(fx_quot(x, l), fx_quot(x, l)) <= 0x1000_0000_0000_0000,
        4 * ((c.unit_size * c.unit_size) * (l * l)) <= 0x4_0000_0000_0000_0000 * (c.size * c.size)
            + 0x4_0000_0000 * (c.size * l) + l * l,
        (c.unit_size * c.unit_size) * (l * l) >= 0x1_0000_0000_0000_0000 * (c.size * c.size)
            - 0x1_0000_0000 * (c.size * l),
{
    let ax: int = if x >= 0 {
        x as int
    } else {
        -x
    };
    let a = ax * 0x1_0000_0000;
    let m = (2 * a + l) / (2 * l);
    lemma_quotient_squared(a, l as int, m);
    assert(m <= ax) by (nonlinear_arith)
        requires
            2 * (m * l) <= 2 * (ax * 0x1_0000_0000) + l,
            l >= 0x1_0000_0000,
            0 <= m,
            0 <= ax,
    ;
    assert(x * ONE == (if x >= 0 {
        a
    } else {
        -a
    })) by (nonlinear_arith)
        requires
            a == ax * 0x1_0000_0000,
            ax == (if x >= 0 {
                x as int
            } else {
                -x
            }),
            ONE == 0x1_0000_0000,
    ;
    let u = fx_quot(x, l);
    assert(u == m || u == -m);
    assert(u * u == m * m && 0 <= m * m <= 0x4000_0000_0000 * 0x4000_0000_0000)
        by (nonlinear_arith)
        requires
            u == m || u == -m,
            0 <= m <= 0x4000_0000_0000,
    ;
    assert(x * x == ax * ax && 0 <= ax * ax <= 0x4000_0000_0000 * 0x4000_0000_0000)
        by (nonlinear_arith)
        requires
            ax == x || ax == -x,
            0 <= ax <= 0x4000_0000_0000,
    ;
    assert(a * a == 0x1_0000_0000_0000_0000 * (ax * ax) && a * l == 0x1_0000_0000 * (ax * l))
        by (nonlinear_arith)
        requires
            a == ax * 0x1_0000_0000,
    ;
    let pu = (2 * (m * m) + 0x1_0000_0000) / 0x2_0000_0000;
    let px = (2 * (ax * ax) + 0x1_0000_0000) / 0x2_0000_0000;
    assert(fx_prod(u, u) == pu);
    assert(fx_prod(x, x) == px);
    assert(pu * ONE == pu * 0x1_0000_0000 && px * ONE == px * 0x1_0000_0000)
        by (nonlinear_arith)
        requires
            ONE == 0x1_0000_0000,
    ;
    ComponentShare { size: ax, unit_size: m }
}

/// The unit vector of a vector that is at least one long has the length
/// one, nearly: its squared length is within sixteen units in the last
/// place of one. The vector's components are at most `2^14` in size.
pub proof fn lemma_unit_is_one_long(v: Vec3)
    requires
        -0x4000_0000_0000 <= v.x <= 0x4000_0000_0000,
        -0x4000_0000_0000 <= v.y <= 0x4000_0000_0000,
        -0x4000_0000_0000 <= v.z <= 0x4000_0000_0000,
        v.length() >= ONE,
    ensures
        ONE - 16 <= v.unit().squared_length() <= ONE + 16,
{
    let l = v.length();
    let cx = lemma_unit_component(v.x, l);
    let cy = lemma_unit_component(v.y, l);
    let cz = lemma_unit_component(v.z, l);
    let s: int = 0x1_0000_0000;
    let l2 = v.squared_length();
    assert(l2 == fx_prod(v.x, v.x) + fx_prod(v.y, v.y) + fx_prod(v.z, v.z));
    // the exact squared length, and the lengths that bracket it
    let n = cx.size * cx.size + cy.size * cy.size + cz.size * cz.size;
    assert(fx_prod(v.x, v.x) * ONE + fx_prod(v.y, v.y) * ONE + fx_prod(v.z, v.z) * ONE == l2 * s)
        by (nonlinear_arith)
        requires
            l2 == fx_prod(v.x, v.x) + fx_prod(v.y, v.y) + fx_prod(v.z, v.z),
            ONE == 0x1_0000_0000,
            s == 0x1_0000_0000,
    ;
    assert(2 * (l2 * s) - 3 * s <= 2 * n <= 2 * (l2 * s) + 3 * s);
    lemma_root_bounds(l2);
    assert(l2 > 0);
    assert(l2 * ONE == l2 * s) by (nonlinear_arith)
        requires
            ONE == 0x1_0000_0000,
            s == 0x1_0000_0000,
    ;
    assert(2 * (l * l) - 2 * l - 3 * s < 2 * n <= 2 * (l * l) + 2 * l + 3 * s);
    // the same for the unit vector, times the squared length
    let m = cx.unit_size * cx.unit_size + cy.unit_size * cy.unit_size + cz.unit_size
        * cz.unit_size;
    let a = cx.size + cy.size + cz.size;
    let px = (cx.unit_size * cx.unit_size) * (l * l);
    let py = (cy.unit_size * cy.unit_size) * (l * l);
    let pz = (cz.unit_size * cz.unit_size) * (l * l);
    assert(m * (l * l) == px + py + pz) by (nonlinear_arith)
        requires
            m == cx.unit_size * cx.unit_size + cy.unit_size * cy.unit_size + cz.unit_size
                * cz.unit_size,
            px == (cx.unit_size * cx.unit_size) * (l * l),
            py == (cy.unit_size * cy.unit_size) * (l * l),
            pz == (cz.unit_size * cz.unit_size) * (l * l),
    ;
    assert(a * l == cx.size * l + cy.size * l + cz.size * l) by (nonlinear_arith)
        requires
            a == cx.size + cy.size + cz.size,
    ;
    assert(4 * (m * (l * l)) <= 0x4_0000_0000_0000_0000 * n + 0x4_0000_0000 * (a * l) + 3 * (l
        * l));
    assert(m * (l * l) >= 0x1_0000_0000_0000_0000 * n - 0x1_0000_0000 * (a * l));
    assert(cx.size * cx.size >= 0 && cy.size * cy.size >= 0 && cz.size * cz.size >= 0)
        by (nonlinear_arith);
    // each component is less than twice the length
    assert(cx.size < 2 * l && cy.size < 2 * l && cz.size < 2 * l) by (nonlinear_arith)
        requires
            cx.size * cx.size <= n,
            cy.size * cy.size <= n,
            cz.size * cz.size <= n,
            0 <= cx.size,
            0 <= cy.size,
            0 <= cz.size,
            2 * n <= 2 * (l * l) + 2 * l + 3 * s,
            l >= s,
            s == 0x1_0000_0000,
    ;
    let ll = l * l;
    let al = a * l;
    assert(0 <= al < 6 * ll && ll >= s * l && s * l >= s * s) by (nonlinear_arith)
        requires
            0 <= a < 6 * l,
            al == a * l,
            ll == l * l,
            l >= s,
            s > 0,
    ;
    let ml = m * ll;
    // from above
    assert(m < s * s + 9 * s) by (nonlinear_arith)
        requires
            4 * ml <= 0x4_0000_0000_0000_0000 * n + 0x4_0000_0000 * al + 3 * ll,
            ml == m * ll,
            2 * n <= 2 * ll + 2 * l + 3 * s,
            0 <= al < 6 * ll,
            ll >= s * l,
            ll == l * l,
            l >= s,
            s == 0x1_0000_0000,
            m >= 0,
    ;
    // from below
    assert(m > s * s - 9 * s) by (nonlinear_arith)
        requires
            ml >= 0x1_0000_0000_0000_0000 * n - 0x1_0000_0000 * al,
            ml == m * ll,
            2 * n > 2 * ll - 2 * l - 3 * s,
            0 <= al < 6 * ll,
            ll >= s * l,
            ll == l * l,
            l >= s,
            s == 0x1_0000_0000,
    ;
    let u = v.unit();
    let u2 = u.squared_length();
    let ux = fx_prod(u.x, u.x);
    let uy = fx_prod(u.y, u.y);
    let uz = fx_prod(u.z, u.z);
    assert(u2 == ux + uy + uz);
    assert(ux * ONE + uy * ONE + uz * ONE == u2 * s) by (nonlinear_arith)
        requires
            u2 == ux + uy + uz,
            ONE == 0x1_0000_0000,
            s == 0x1_0000_0000,
    ;
    assert(2 * (u2 * s) - 3 * s <= 2 * m <= 2 * (u2 * s) + 3 * s);
}

} // verus!
