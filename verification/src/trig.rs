//! Angles: the arctangent, the arcsine and the tangent, by short polynomial
//! formulas on fixed-point numbers.

use vstd::prelude::*;
use crate::fixed::{Fixed, INFINITY, ONE, lemma_prod_by_unit, lemma_prod_with_fraction, lemma_quot_by_unit, lemma_quot_of_zero, lemma_root_bounds, abs, diff, from_int, fx_abs, fx_diff, fx_int, fx_neg, fx_prod, fx_quot, fx_root, fx_sum, neg, prod, quot, root, sum};

verus! {

/// A quarter of pi, rounded to the nearest representable number.
pub const QUARTER_PI: Fixed = 0xc90f_daa2;

/// An eighth of pi: half of `QUARTER_PI`.
pub const EIGHTH_PI: Fixed = 0x6487_ed51;

/// Three eighths of pi: three times `EIGHTH_PI`.
pub const THREE_EIGHTHS_PI: Fixed = 0x1_2d97_c7f3;

/// Half of pi: twice `QUARTER_PI`.
pub const HALF_PI: Fixed = 0x1_921f_b544;

/// The number pi: four times `QUARTER_PI`, so that a quarter turn, a half
/// turn and a full turn are exact multiples of one another. It is half a
/// unit in the last place below pi.
pub const PI: Fixed = 0x3_243f_6a88;

/// The arctangent of one quarter.
pub const ATAN_QUARTER: Fixed = 0x3eb6_ebf2;

/// The arctangent of one half.
pub const ATAN_HALF: Fixed = 0x76b1_9c16;

/// The arctangent of three quarters.
pub const ATAN_THREE_QUARTERS: Fixed = 0xa4bc_7d19;

/// One third.
pub const THIRD: Fixed = 0x5555_5555;

/// One fifth.
pub const FIFTH: Fixed = 0x3333_3333;

/// One seventh.
pub const SEVENTH: Fixed = 0x2492_4925;

/// One ninth.
pub const NINTH: Fixed = 0x1c71_c71c;

/// The arctangent of a small `y` (an eighth at most in size) by its series
/// up to the ninth power: `y (1 - y^2 (1/3 - y^2 (1/5 - y^2 (1/7 - y^2 / 9))))`.
/// The next term of the series is less than `1e-11`.
pub open spec fn fx_atan_series(y: Fixed) -> Fixed {
    let y2 = fx_prod(y, y);
    let e3 = fx_diff(SEVENTH, fx_prod(y2, NINTH));
    let e2 = fx_diff(FIFTH, fx_prod(y2, e3));
    let e1 = fx_diff(THIRD, fx_prod(y2, e2));
    fx_prod(y, fx_diff(ONE, fx_prod(y2, e1)))
}

/// The quarter nearest to `a`, for `a` between zero and one.
pub open spec fn nearest_quarter(a: Fixed) -> Fixed {
    if a < 0x2000_0000 {
        0
    } else if a < 0x6000_0000 {
        0x4000_0000
    } else if a < 0xa000_0000 {
        0x8000_0000
    } else if a < 0xe000_0000 {
        0xc000_0000
    } else {
        ONE
    }
}

/// The arctangent of a quarter `c`.
pub open spec fn atan_of_quarter(c: Fixed) -> Fixed {
    if c == 0 {
        0
    } else if c == 0x4000_0000 {
        ATAN_QUARTER
    } else if c == 0x8000_0000 {
        ATAN_HALF
    } else if c == 0xc000_0000 {
        ATAN_THREE_QUARTERS
    } else {
        QUARTER_PI
    }
}

/// The arctangent of `a`, for `a` between zero and one: with `c` the
/// quarter nearest to `a`, the arctangent of `c` plus that of
/// `(a - c) / (1 + c a)`, which is an eighth at most in size, by its series.
pub open spec fn fx_atan_unit(a: Fixed) -> Fixed {
    let c = nearest_quarter(a);
    let y = fx_quot(fx_diff(a, c), fx_sum(ONE, fx_prod(c, a)));
    fx_sum(atan_of_quarter(c), fx_atan_series(y))
}

/// The angle of the point `(x, y)`, between minus pi and pi; zero at the origin.
pub open spec fn fx_atan2(y: Fixed, x: Fixed) -> Fixed {
    let ax = fx_abs(x);
    let ay = fx_abs(y);
    let first = if ay <= ax {
        fx_atan_unit(fx_quot(ay, ax))
    } else {
        fx_diff(HALF_PI, fx_atan_unit(fx_quot(ax, ay)))
    };
    let upper = if x < 0 {
        fx_diff(PI, first)
    } else {
        first
    };
    if y < 0 {
        fx_neg(upper)
    } else {
        upper
    }
}

/// The arcsine of `y`: the angle of the point `(sqrt(1 - y * y), y)`.
pub open spec fn fx_asin(y: Fixed) -> Fixed {
    fx_atan2(y, fx_root(fx_diff(ONE, fx_prod(y, y))))
}

/// The sine of `a` by its series up to the ninth power, for a small `a`.
pub open spec fn fx_sin_series(a: Fixed) -> Fixed {
    let a2 = fx_prod(a, a);
    let t9 = fx_diff(ONE, fx_quot(a2, fx_int(72)));
    let t7 = fx_diff(ONE, fx_prod(fx_quot(a2, fx_int(42)), t9));
    let t5 = fx_diff(ONE, fx_prod(fx_quot(a2, fx_int(20)), t7));
    let t3 = fx_diff(ONE, fx_prod(fx_quot(a2, fx_int(6)), t5));
    fx_prod(a, t3)
}

/// The cosine of `a` by its series up to the tenth power, for a small `a`.
pub open spec fn fx_cos_series(a: Fixed) -> Fixed {
    let a2 = fx_prod(a, a);
    let t10 = fx_diff(ONE, fx_quot(a2, fx_int(90)));
    let t8 = fx_diff(ONE, fx_prod(fx_quot(a2, fx_int(56)), t10));
    let t6 = fx_diff(ONE, fx_prod(fx_quot(a2, fx_int(30)), t8));
    let t4 = fx_diff(ONE, fx_prod(fx_quot(a2, fx_int(12)), t6));
    fx_diff(ONE, fx_prod(fx_quot(a2, fx_int(2)), t4))
}

/// The tangent of a small `a` (an eighth of pi at most in size): the
/// quotient of the two series.
pub open spec fn fx_tan_small(a: Fixed) -> Fixed {
    fx_quot(fx_sin_series(a), fx_cos_series(a))
}

/// The tangent of `a`, meant for `a` between zero and half of pi. Up to an
/// eighth of pi it is the quotient of the two series; up to three eighths it
/// is `(1 + t) / (1 - t)` for the tangent `t` of `a - pi / 4`, so that the
/// tangent of `QUARTER_PI` is one exactly; beyond, it is the inverse of the
/// tangent of the complementary angle.
pub open spec fn fx_tan(a: Fixed) -> Fixed {
    if a <= EIGHTH_PI {
        fx_tan_small(a)
    } else if a <= THREE_EIGHTHS_PI {
        let t = fx_tan_small(fx_diff(a, QUARTER_PI));
        fx_quot(fx_sum(ONE, t), fx_diff(ONE, t))
    } else {
        let b = fx_diff(HALF_PI, a);
        fx_quot(fx_cos_series(b), fx_sin_series(b))
    }
}

/// The series of the arctangent brings a number no farther from zero and
/// does not change its sign, for a number that is an eighth at most in size.
pub proof fn lemma_atan_series_range(y: Fixed)
    requires
        -0x2000_0000 <= y <= 0x2000_0000,
    ensures
        y >= 0 ==> 0 <= fx_atan_series(y) <= y,
        y <= 0 ==> y <= fx_atan_series(y) <= 0,
{
    let y2 = fx_prod(y, y);
    assert(0 <= y * y <= 0x2000_0000 * 0x2000_0000) by (nonlinear_arith)
        requires
            -0x2000_0000 <= y <= 0x2000_0000,
    ;
    assert(0 <= (2 * (y * y) + 0x1_0000_0000) / 0x2_0000_0000 <= 0x400_0000);
    assert(0 <= y2 <= 0x400_0000);
    lemma_prod_with_fraction(NINTH, y2);
    let e3 = fx_diff(SEVENTH, fx_prod(y2, NINTH));
    lemma_prod_with_fraction(e3, y2);
    let e2 = fx_diff(FIFTH, fx_prod(y2, e3));
    lemma_prod_with_fraction(e2, y2);
    let e1 = fx_diff(THIRD, fx_prod(y2, e2));
    lemma_prod_with_fraction(e1, y2);
    let w = fx_diff(ONE, fx_prod(y2, e1));
    assert(0 <= w <= ONE);
    lemma_prod_with_fraction(y, w);
}

/// For `a` between zero and one the arctangent lies between zero and a
/// quarter of pi.
pub proof fn lemma_atan_unit_range(a: Fixed)
    requires
        0 <= a <= ONE,
    ensures
        0 <= fx_atan_unit(a) <= QUARTER_PI,
{
    let c = nearest_quarter(a);
    let over = fx_diff(a, c);
    lemma_prod_with_fraction(c, a);
    let under = fx_sum(ONE, fx_prod(c, a));
    assert(ONE <= under <= 2 * ONE);
    let y = fx_quot(over, under);
    let m: int = if over >= 0 {
        over as int
    } else {
        -over
    };
    assert(0 <= (2 * (m * ONE) + under) / (2 * under) <= m) by (nonlinear_arith)
        requires
            m >= 0,
            under >= ONE,
            ONE == 0x1_0000_0000,
    ;
    assert(over * ONE == (if over >= 0 {
        m * ONE
    } else {
        -(m * ONE)
    }) && m * ONE >= 0) by (nonlinear_arith)
        requires
            m == (if over >= 0 {
                over as int
            } else {
                -over
            }),
            ONE == 0x1_0000_0000,
    ;
    assert(y == (2 * (m * ONE) + under) / (2 * under) || y == -((2 * (m * ONE) + under) / (2
        * under)));
    assert(over >= 0 ==> 0 <= y <= over);
    assert(over <= 0 ==> over <= y <= 0);
    lemma_atan_series_range(y);
}

/// The quotient of a number that is not negative by one that is not
/// smaller lies between zero and one.
proof fn lemma_quot_of_smaller(a: Fixed, b: Fixed)
    requires
        0 <= a <= b,
    ensures
        0 <= fx_quot(a, b) <= ONE,
{
    if b != 0 {
        assert(0 <= a * ONE && 0 <= (2 * (a * ONE) + b) / (2 * b) <= ONE) by (nonlinear_arith)
            requires
                0 <= a <= b,
                0 < b,
                ONE == 0x1_0000_0000,
        ;
    }
}

/// The angle of a point lies between minus pi and pi, and between minus
/// and plus half of pi for a point whose `x` is not negative.
pub proof fn lemma_atan2_range(y: Fixed, x: Fixed)
    ensures
        -PI <= fx_atan2(y, x) <= PI,
        x >= 0 ==> -HALF_PI <= fx_atan2(y, x) <= HALF_PI,
{
    let ax = fx_abs(x);
    let ay = fx_abs(y);
    if ay <= ax {
        lemma_quot_of_smaller(ay, ax);
        lemma_atan_unit_range(fx_quot(ay, ax));
    } else {
        lemma_quot_of_smaller(ax, ay);
        lemma_atan_unit_range(fx_quot(ax, ay));
    }
}

/// The arcsine lies between minus and plus half of pi.
pub proof fn lemma_asin_range(y: Fixed)
    ensures
        -HALF_PI <= fx_asin(y) <= HALF_PI,
{
    lemma_root_bounds(fx_diff(ONE, fx_prod(y, y)));
    lemma_atan2_range(y, fx_root(fx_diff(ONE, fx_prod(y, y))));
}

/// The arctangent of a small number by its series.
fn atan_series(y: Fixed) -> (r: Fixed)
    ensures
        r == fx_atan_series(y),
{
    let y2 = prod(y, y);
    let e3 = diff(SEVENTH, prod(y2, NINTH));
    let e2 = diff(FIFTH, prod(y2, e3));
    let e1 = diff(THIRD, prod(y2, e2));
    prod(y, diff(ONE, prod(y2, e1)))
}

/// The arctangent of a number between zero and one.
fn atan_unit(a: Fixed) -> (r: Fixed)
    ensures
        r == fx_atan_unit(a),
{
    let (c, base): (Fixed, Fixed) = if a < 0x2000_0000 {
        (0, 0)
    } else if a < 0x6000_0000 {
        (0x4000_0000, ATAN_QUARTER)
    } else if a < 0xa000_0000 {
        (0x8000_0000, ATAN_HALF)
    } else if a < 0xe000_0000 {
        (0xc000_0000, ATAN_THREE_QUARTERS)
    } else {
        (ONE, QUARTER_PI)
    };
    let y = quot(diff(a, c), sum(ONE, prod(c, a)));
    sum(base, atan_series(y))
}

/// The angle of the point `(x, y)`.
#[verifier::when_used_as_spec(fx_atan2)]
pub fn atan2(y: Fixed, x: Fixed) -> (r: Fixed)
    ensures
        r == fx_atan2(y, x),
        -PI <= r <= PI,
{
    proof {
        lemma_atan2_range(y, x);
    }
    let ax = abs(x);
    let ay = abs(y);
    let first = if ay <= ax {
        atan_unit(quot(ay, ax))
    } else {
        diff(HALF_PI, atan_unit(quot(ax, ay)))
    };
    let upper = if x < 0 {
        diff(PI, first)
    } else {
        first
    };
    if y < 0 {
        neg(upper)
    } else {
        upper
    }
}

/// The arcsine of `y`.
#[verifier::when_used_as_spec(fx_asin)]
pub fn asin(y: Fixed) -> (r: Fixed)
    ensures
        r == fx_asin(y),
        -HALF_PI <= r <= HALF_PI,
{
    proof {
        lemma_asin_range(y);
    }
    atan2(y, root(diff(ONE, prod(y, y))))
}

/// The sine of a small `a` by its series.
fn sin_series(a: Fixed) -> (r: Fixed)
    ensures
        r == fx_sin_series(a),
{
    let a2 = prod(a, a);
    let t9 = diff(ONE, quot(a2, from_int(72)));
    let t7 = diff(ONE, prod(quot(a2, from_int(42)), t9));
    let t5 = diff(ONE, prod(quot(a2, from_int(20)), t7));
    let t3 = diff(ONE, prod(quot(a2, from_int(6)), t5));
    prod(a, t3)
}

/// The cosine of a small `a` by its series.
fn cos_series(a: Fixed) -> (r: Fixed)
    ensures
        r == fx_cos_series(a),
{
    let a2 = prod(a, a);
    let t10 = diff(ONE, quot(a2, from_int(90)));
    let t8 = diff(ONE, prod(quot(a2, from_int(56)), t10));
    let t6 = diff(ONE, prod(quot(a2, from_int(30)), t8));
    let t4 = diff(ONE, prod(quot(a2, from_int(12)), t6));
    diff(ONE, prod(quot(a2, from_int(2)), t4))
}

/// At zero the sine is zero and the cosine is one, exactly.
pub proof fn lemma_series_at_zero()
    ensures
        fx_sin_series(0) == 0,
        fx_cos_series(0) == ONE,
{
    lemma_prod_by_unit(0);
    lemma_prod_by_unit(ONE);
    lemma_quot_of_zero(fx_int(2));
    lemma_quot_of_zero(fx_int(6));
    lemma_quot_of_zero(fx_int(12));
    lemma_quot_of_zero(fx_int(20));
    lemma_quot_of_zero(fx_int(30));
    lemma_quot_of_zero(fx_int(42));
    lemma_quot_of_zero(fx_int(56));
    lemma_quot_of_zero(fx_int(72));
    lemma_quot_of_zero(fx_int(90));
}

/// The tangent of a quarter of pi is one, and that of zero is zero.
pub proof fn lemma_tan_of_quarter_turn()
    ensures
        fx_tan(QUARTER_PI) == ONE,
        fx_tan(0) == 0,
{
    lemma_series_at_zero();
    lemma_quot_by_unit(0);
    lemma_quot_by_unit(ONE);
}

/// The angle of a point on the positive `x` axis is zero, and that of a
/// point on the positive `y` axis is half of pi.
pub proof fn lemma_atan2_on_the_axes(k: Fixed)
    requires
        0 < k < INFINITY,
    ensures
        fx_atan2(0, k) == 0,
        fx_atan2(k, 0) == HALF_PI,
        fx_atan2(0, fx_neg(k)) == PI,
        fx_atan2(fx_neg(k), 0) == -HALF_PI,
{
    lemma_quot_of_zero(k);
    lemma_prod_by_unit(0);
    lemma_prod_by_unit(ONE);
    lemma_quot_by_unit(0);
    assert(fx_atan_series(0) == 0);
    assert(fx_atan_unit(0) == 0);
}

/// The tangent of `a`, for `a` between zero and half of pi.
#[verifier::when_used_as_spec(fx_tan)]
pub fn tan(a: Fixed) -> (r: Fixed)
    ensures
        r == fx_tan(a),
        a == QUARTER_PI ==> r == ONE,
        a == 0 ==> r == 0,
{
    proof {
        lemma_tan_of_quarter_turn();
    }
    if a <= EIGHTH_PI {
        quot(sin_series(a), cos_series(a))
    } else if a <= THREE_EIGHTHS_PI {
        let d = diff(a, QUARTER_PI);
        let t = quot(sin_series(d), cos_series(d));
        quot(sum(ONE, t), diff(ONE, t))
    } else {
        let b = diff(HALF_PI, a);
        quot(cos_series(b), sin_series(b))
    }
}

} // verus!
