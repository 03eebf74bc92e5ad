//! Textures: colours looked up by surface coordinates and position.

use vstd::prelude::*;
use std::sync::Arc;
use crate::fixed::{Fixed, fx_neg, fx_prod, neg, prod};
use crate::trig::PI;
use crate::vec3::{Color, Point3};

verus! {

/// The number ten: the spatial frequency of the checker pattern.
pub const TEN: Fixed = 0xa_0000_0000;

/// The sign of the sine of `a`: the sine is taken to be positive on the
/// first half turn after zero, negative on the second, and so on in turn;
/// it is odd, and zero at zero.
pub open spec fn sine_sign(a: Fixed) -> int {
    if a == 0 {
        0
    } else if a > 0 {
        if (a / PI) % 2 == 0 {
            1
        } else {
            -1
        }
    } else {
        if (fx_neg(a) / PI) % 2 == 0 {
            -1
        } else {
            1
        }
    }
}

/// Whether `sin(10 x) * sin(10 y) * sin(10 z)` is negative at `p`.
pub open spec fn in_odd_cell(p: Point3) -> bool {
    sine_sign(fx_prod(TEN, p.x)) * sine_sign(fx_prod(TEN, p.y)) * sine_sign(fx_prod(TEN, p.z)) < 0
}

/// Whether the sine of `a` is negative.
fn sine_is_negative(a: Fixed) -> (r: bool)
    ensures
        r == (sine_sign(a) < 0),
        a != 0 && !r ==> sine_sign(a) == 1,
{
    if a == 0 {
        false
    } else if a > 0 {
        (a / PI) % 2 != 0
    } else {
        (neg(a) / PI) % 2 == 0
    }
}

/// A texture with the same colour everywhere.
#[derive(Clone, Copy, Debug, PartialEq, Eq, Structural)]
pub struct SolidColor {
    pub color_value: Color,
}

impl SolidColor {
    /// The texture of colour `c`.
    pub fn new(c: &Color) -> (r: SolidColor)
        ensures
            r.color_value == *c,
    {
        SolidColor { color_value: Color { x: c.x, y: c.y, z: c.z } }
    }

    /// The texture of the colour with the given components.
    pub fn new_rgb(red: Fixed, green: Fixed, blue: Fixed) -> (r: SolidColor)
        ensures
            r.color_value == (Color { x: red, y: green, z: blue }),
    {
        SolidColor { color_value: Color { x: red, y: green, z: blue } }
    }

    /// The colour, whatever the coordinates.
    pub fn value(&self, _u: Fixed, _v: Fixed, _p: &Point3) -> (c: Color)
        ensures
            c == self.color_value,
    {
        self.color_value
    }
}

/// A three-dimensional checkerboard of two textures.
#[derive(Clone)]
pub struct CheckerTexture {
    pub odd: Arc<Texture>,
    pub even: Arc<Texture>,
}

/// A surface texture.
pub enum Texture {
    Solid(SolidColor),
    Checker(CheckerTexture),
}

impl CheckerTexture {
    /// The checkerboard that shows `t0` in its odd cells and `t1` in the others.
    pub fn new_arc(t0: Arc<Texture>, t1: Arc<Texture>) -> (r: CheckerTexture)
        ensures
            r.odd == t0,
            r.even == t1,
    {
        CheckerTexture { odd: t0, even: t1 }
    }

    /// The checkerboard of the two colours: `c1` in the odd cells.
    pub fn new(c1: &Color, c2: &Color) -> (r: CheckerTexture)
        ensures
            *r.odd == Texture::Solid(SolidColor { color_value: *c1 }),
            *r.even == Texture::Solid(SolidColor { color_value: *c2 }),
    {
        CheckerTexture {
            odd: Arc::new(Texture::Solid(SolidColor::new(c1))),
            even: Arc::new(Texture::Solid(SolidColor::new(c2))),
        }
    }

    /// The colour at `p`: that of the odd texture where
    /// `sin(10 x) sin(10 y) sin(10 z)` is negative, of the even one elsewhere.
    pub fn value(&self, u: Fixed, v: Fixed, p: &Point3) -> (c: Color)
        ensures
            c == Texture::Checker(*self).spec_value(u, v, p),
        decreases self,
    {
        let sx = sine_is_negative(prod(TEN, p.x));
        let sy = sine_is_negative(prod(TEN, p.y));
        let sz = sine_is_negative(prod(TEN, p.z));
        let no_zero = prod(TEN, p.x) != 0 && prod(TEN, p.y) != 0 && prod(TEN, p.z) != 0;
        proof {
            let a = sine_sign(fx_prod(TEN, p.x));
            let b = sine_sign(fx_prod(TEN, p.y));
            let c = sine_sign(fx_prod(TEN, p.z));
            assert((a * b * c < 0) == (no_zero && (sx != (sy != sz)))) by (nonlinear_arith)
                requires
                    a == 0 || a == 1 || a == -1,
                    b == 0 || b == 1 || b == -1,
                    c == 0 || c == 1 || c == -1,
                    no_zero == (a != 0 && b != 0 && c != 0),
                    sx == (a < 0),
                    sy == (b < 0),
                    sz == (c < 0),
            ;
        }
        if no_zero && (sx != (sy != sz)) {
            self.odd.value(u, v, p)
        } else {
            self.even.value(u, v, p)
        }
    }
}

impl Texture {
    /// The colour of the texture at the surface coordinates `(u, v)` and the
    /// point `p`.
    pub open spec fn spec_value(&self, u: Fixed, v: Fixed, p: &Point3) -> Color
        decreases self,
    {
        match self {
            Texture::Solid(s) => s.color_value,
            Texture::Checker(c) => if in_odd_cell(*p) {
                c.odd.spec_value(u, v, p)
            } else {
                c.even.spec_value(u, v, p)
            },
        }
    }

    /// The colour of the texture at the surface coordinates `(u, v)` and the
    /// point `p`.
    #[verifier::when_used_as_spec(spec_value)]
    pub fn value(&self, u: Fixed, v: Fixed, p: &Point3) -> (c: Color)
        ensures
            c == self.spec_value(u, v, p),
        decreases self,
    {
        match self {
            Texture::Solid(s) => s.value(u, v, p),
            Texture::Checker(c) => c.value(u, v, p),
        }
    }
}

} // verus!
