//! Real numbers in signed 32.32 fixed point.
//!
//! A [`Fixed`] holds the real number `raw / 2^32` in an `i64`. Every operation
//! is total: a result that leaves the representable range is clamped to
//! [`INFINITY`] or [`NEG_INFINITY`], and a quotient, product or square root
//! that falls between two representable numbers is rounded to the nearer
//! one, a tie away from zero.

use vstd::prelude::*;

verus! {

/// A real number, stored as the integer `value * 2^32`.
pub type Fixed = i64;

/// The number one.
pub const ONE: Fixed = 0x1_0000_0000;

/// The number minus one.
pub const MINUS_ONE: Fixed = -0x1_0000_0000;

/// The largest number; it stands for "no upper bound".
pub const INFINITY: Fixed = 0x7fff_ffff_ffff_ffff;

/// The smallest number; it stands for "no lower bound".
pub const NEG_INFINITY: Fixed = -0x7fff_ffff_ffff_ffff;

/// Whether `x` is small enough (at most `2^29` in size) for sums and
/// differences of two such numbers to be exact.
pub open spec fn bounded(x: Fixed) -> bool {
    -0x2000_0000_0000_0000 <= x <= 0x2000_0000_0000_0000
}

/// The nearest representable number to the integer `x`.
pub open spec fn clamp(x: int) -> Fixed {
    if x > INFINITY {
        INFINITY
    } else if x < NEG_INFINITY {
        NEG_INFINITY
    } else {
        x as i64
    }
}

/// The quotient `n / d` rounded to the nearest integer, a half away from
/// zero.
pub open spec fn round_div(n: int, d: int) -> int
    recommends
        d != 0,
{
    if d > 0 {
        if n >= 0 {
            (2 * n + d) / (2 * d)
        } else {
            -((2 * (-n) + d) / (2 * d))
        }
    } else {
        if n >= 0 {
            -((2 * n + (-d)) / (2 * (-d)))
        } else {
            (2 * (-n) + (-d)) / (2 * (-d))
        }
    }
}

/// The whole number `n`.
pub open spec fn fx_int(n: i64) -> Fixed {
    clamp(n * ONE)
}

/// The fraction `n / d` of two whole numbers.
pub open spec fn fx_ratio(n: i64, d: i64) -> Fixed {
    fx_quot(fx_int(n), fx_int(d))
}

/// The sum `a + b`.
pub open spec fn fx_sum(a: Fixed, b: Fixed) -> Fixed {
    clamp(a + b)
}

/// The difference `a - b`.
pub open spec fn fx_diff(a: Fixed, b: Fixed) -> Fixed {
    clamp(a - b)
}

/// The negation `-a`.
pub open spec fn fx_neg(a: Fixed) -> Fixed {
    clamp(-a)
}

/// The product `a * b`, rounded to the nearest number.
pub open spec fn fx_prod(a: Fixed, b: Fixed) -> Fixed {
    clamp(round_div(a * b, ONE as int))
}

/// The quotient `a / b`, rounded to the nearest number. Dividing by zero
/// gives the infinity of the sign of `a`, and zero for `0 / 0`.
pub open spec fn fx_quot(a: Fixed, b: Fixed) -> Fixed {
    if b == 0 {
        if a > 0 {
            INFINITY
        } else if a < 0 {
            NEG_INFINITY
        } else {
            0
        }
    } else {
        clamp(round_div(a * ONE, b as int))
    }
}

/// The smaller of `a` and `b`.
pub open spec fn fx_min(a: Fixed, b: Fixed) -> Fixed {
    if a < b {
        a
    } else {
        b
    }
}

/// The larger of `a` and `b`.
pub open spec fn fx_max(a: Fixed, b: Fixed) -> Fixed {
    if a > b {
        a
    } else {
        b
    }
}

/// The size of `a`.
pub open spec fn fx_abs(a: Fixed) -> Fixed {
    if a < 0 {
        fx_neg(a)
    } else {
        a
    }
}

/// The integer square root: the largest `r` with `r * r <= n`.
pub open spec fn isqrt(n: nat) -> nat
    decreases n,
{
    if n == 0 {
        0
    } else {
        let r = isqrt((n - 1) as nat);
        if (r + 1) * (r + 1) <= n {
            r + 1
        } else {
            r
        }
    }
}

/// The nearest integer to the square root of `n`.
pub open spec fn round_sqrt(n: nat) -> nat {
    if n - isqrt(n) * isqrt(n) > isqrt(n) {
        isqrt(n) + 1
    } else {
        isqrt(n)
    }
}

/// The square root of `a`, rounded to the nearest number; zero for a
/// negative `a`.
pub open spec fn fx_root(a: Fixed) -> Fixed {
    if a <= 0 {
        0
    } else {
        round_sqrt((a * ONE) as nat) as i64
    }
}

/// `isqrt(n)` squared is at most `n`, and the next integer squared exceeds `n`.
pub proof fn lemma_isqrt_bounds(n: nat)
    ensures
        isqrt(n) * isqrt(n) <= n < (isqrt(n) + 1) * (isqrt(n) + 1),
    decreases n,
{
    let s = isqrt(n);
    if n == 0 {
        assert(s * s == 0 && (s + 1) * (s + 1) == 1) by (nonlinear_arith)
            requires
                s == 0,
        ;
    } else {
        lemma_isqrt_bounds((n - 1) as nat);
        let r = isqrt((n - 1) as nat);
        if (r + 1) * (r + 1) <= n {
            assert(s * s == (r + 1) * (r + 1) && (s + 1) * (s + 1) > s * s) by (nonlinear_arith)
                requires
                    s == r + 1,
            ;
        } else {
            assert(s == r);
        }
    }
}

/// Only one natural number has the two bounds of the integer square root.
pub proof fn lemma_isqrt_unique(n: nat, r: nat)
    requires
        r * r <= n < (r + 1) * (r + 1),
    ensures
        isqrt(n) == r,
{
    lemma_isqrt_bounds(n);
    let s = isqrt(n);
    if s < r {
        assert((s + 1) * (s + 1) <= r * r) by (nonlinear_arith)
            requires
                s + 1 <= r,
        ;
    } else if r < s {
        assert((r + 1) * (r + 1) <= s * s) by (nonlinear_arith)
            requires
                r + 1 <= s,
        ;
    }
}

/// For a positive `a`, the square root lies between zero and `2^48` and is
/// the nearest number to the exact root: as fixed-point numbers,
/// `root^2 - root < a * 2^32 <= root^2 + root`.
pub proof fn lemma_root_bounds(a: Fixed)
    ensures
        0 <= fx_root(a) < 0x1_0000_0000_0000,
        a > 0 ==> 0 < fx_root(a) && fx_root(a) * fx_root(a) - fx_root(a) < a * ONE <= fx_root(a)
            * fx_root(a) + fx_root(a),
{
    if a > 0 {
        let n = (a * ONE) as nat;
        let r = isqrt(n);
        assert(0 < a * ONE < 0x8000_0000_0000_0000_0000_0000) by (nonlinear_arith)
            requires
                0 < a <= 0x7fff_ffff_ffff_ffff,
                ONE == 0x1_0000_0000,
        ;
        lemma_isqrt_bounds(n);
        assert(0 < r < 0xffff_ffff_ffff) by (nonlinear_arith)
            requires
                r * r <= n < (r + 1) * (r + 1),
                0 < n < 0x8000_0000_0000_0000_0000_0000,
                r >= 0,
        ;
        let s = round_sqrt(n);
        assert(s * s - s < n <= s * s + s) by (nonlinear_arith)
            requires
                r * r <= n < (r + 1) * (r + 1),
                r > 0,
                s == (if n - r * r > r {
                    r + 1
                } else {
                    r
                }),
        ;
    }
}

/// A product that is not clamped is the exact product rounded to the
/// nearest number: it is at most half a unit in the last place away.
pub proof fn lemma_prod_rounds_to_nearest(a: Fixed, b: Fixed)
    requires
        NEG_INFINITY < fx_prod(a, b) < INFINITY,
    ensures
        2 * (fx_prod(a, b) * ONE - a * b) <= ONE,
        2 * (a * b - fx_prod(a, b) * ONE) <= ONE,
{
    let n = a * b;
    let m: int = if n >= 0 {
        n
    } else {
        -n
    };
    let q = (2 * m + 0x1_0000_0000) / 0x2_0000_0000;
    assert(2 * m - 0x1_0000_0000 < q * 0x2_0000_0000 <= 2 * m + 0x1_0000_0000);
    assert(q * ONE == q * 0x1_0000_0000 && (-q) * ONE == -(q * 0x1_0000_0000))
        by (nonlinear_arith)
        requires
            ONE == 0x1_0000_0000,
    ;
}

/// A quotient that is not clamped is the exact quotient rounded to the
/// nearest number: times the divisor, it is at most half the divisor away
/// from the dividend.
pub proof fn lemma_quot_rounds_to_nearest(a: Fixed, b: Fixed)
    requires
        b > 0,
        NEG_INFINITY < fx_quot(a, b) < INFINITY,
    ensures
        2 * (fx_quot(a, b) * b - a * ONE) <= b,
        2 * (a * ONE - fx_quot(a, b) * b) <= b,
{
    let n = a * ONE;
    let m: int = if n >= 0 {
        n
    } else {
        -n
    };
    let q = (2 * m + b) / (2 * b);
    assert(2 * m - b < q * (2 * b) <= 2 * m + b) by (nonlinear_arith)
        requires
            m >= 0,
            b > 0,
            q == (2 * m + b) / (2 * b),
    ;
    assert(q * (2 * b) == 2 * (q * b) && (-q) * b == -(q * b)) by (nonlinear_arith);
}

/// The product of a small whole number with a number is exact.
pub proof fn lemma_prod_by_whole(k: i64, x: Fixed)
    requires
        0 <= k < 0x10_0000,
        -0x100_0000_0000 < x < 0x100_0000_0000,
    ensures
        fx_prod(fx_int(k), x) == k * x,
        fx_prod(x, fx_int(k)) == k * x,
{
    let whole = fx_int(k);
    assert(k * ONE == k * 0x1_0000_0000) by (nonlinear_arith)
        requires
            ONE == 0x1_0000_0000,
    ;
    let m = k * x;
    assert(whole * x == 0x1_0000_0000 * m && x * whole == 0x1_0000_0000 * m
        && -0x1000_0000_0000_0000 < m < 0x1000_0000_0000_0000) by (nonlinear_arith)
        requires
            whole == k * 0x1_0000_0000,
            m == k * x,
            0 <= k < 0x10_0000,
            -0x100_0000_0000 < x < 0x100_0000_0000,
    ;
    let size: int = if m >= 0 {
        m
    } else {
        -m
    };
    assert((2 * (0x1_0000_0000 * size) + 0x1_0000_0000) / 0x2_0000_0000 == size);
}

/// The quotient of `a`, not negative, by a positive `b` is the number `q`
/// if `q` is the nearest number to it: `(2 q - 1) b <= 2 a 2^32 < (2 q + 1) b`.
pub proof fn lemma_quot_is(a: Fixed, b: Fixed, q: Fixed)
    requires
        0 <= a,
        0 < b,
        0 <= q < INFINITY,
        (2 * q - 1) * b <= 2 * (a * 0x1_0000_0000) < (2 * q + 1) * b,
    ensures
        fx_quot(a, b) == q,
{
    let wide = a * ONE;
    assert(wide == a * 0x1_0000_0000 && wide >= 0) by (nonlinear_arith)
        requires
            wide == a * ONE,
            ONE == 0x1_0000_0000,
            a >= 0,
    ;
    assert((2 * wide + b) / (2 * b) == q) by (nonlinear_arith)
        requires
            b > 0,
            (2 * q - 1) * b <= 2 * wide < (2 * q + 1) * b,
    ;
}

/// The fraction `n / d` of two small whole numbers is the number `q` if
/// `q` is the nearest number to it: `(2 q - 1) d <= 2 n 2^32 < (2 q + 1) d`.
pub proof fn lemma_ratio_is(n: i64, d: i64, q: Fixed)
    requires
        0 <= n < 0x4000_0000,
        0 < d < 0x4000_0000,
        0 <= q < 0x4000_0000_0000_0000,
        (2 * q - 1) * d <= 2 * (n * 0x1_0000_0000) < (2 * q + 1) * d,
    ensures
        fx_ratio(n, d) == q,
{
    let top = fx_int(n);
    let bottom = fx_int(d);
    assert(n * ONE == n * 0x1_0000_0000 && d * ONE == d * 0x1_0000_0000) by (nonlinear_arith)
        requires
            ONE == 0x1_0000_0000,
    ;
    assert(top == n * 0x1_0000_0000 && bottom == d * 0x1_0000_0000);
    let wide = top * ONE;
    assert(wide == (n * 0x1_0000_0000) * 0x1_0000_0000 && wide >= 0) by (nonlinear_arith)
        requires
            wide == top * ONE,
            top == n * 0x1_0000_0000,
            ONE == 0x1_0000_0000,
            n >= 0,
    ;
    assert((2 * wide + bottom) / (2 * bottom) == q) by (nonlinear_arith)
        requires
            wide == (n * 0x1_0000_0000) * 0x1_0000_0000,
            bottom == d * 0x1_0000_0000,
            d > 0,
            (2 * q - 1) * d <= 2 * (n * 0x1_0000_0000) < (2 * q + 1) * d,
    ;
}

/// Zero divided by anything is zero.
pub proof fn lemma_quot_of_zero(b: Fixed)
    ensures
        fx_quot(0, b) == 0,
{
    if b != 0 {
        let m: int = if b > 0 {
            b as int
        } else {
            -b
        };
        assert(m / (2 * m) == 0 && 0 * ONE == 0) by (nonlinear_arith)
            requires
                m > 0,
        ;
    }
}

/// Multiplying by a number between zero and one brings a number no farther
/// from zero and does not change its sign.
pub proof fn lemma_prod_with_fraction(a: Fixed, b: Fixed)
    requires
        0 <= b <= ONE,
    ensures
        a >= 0 ==> 0 <= fx_prod(a, b) <= a && 0 <= fx_prod(b, a) <= a,
        a <= 0 ==> a <= fx_prod(a, b) <= 0 && a <= fx_prod(b, a) <= 0,
        a > NEG_INFINITY ==> fx_prod(fx_neg(a), b) == -fx_prod(a, b),
{
    let m: int = if a >= 0 {
        a as int
    } else {
        -a
    };
    let p = m * b;
    assert(0 <= p <= m * 0x1_0000_0000 && a * b == (if a >= 0 {
        p
    } else {
        -p
    }) && b * a == a * b && (-a) * b == -(a * b)) by (nonlinear_arith)
        requires
            0 <= b <= 0x1_0000_0000,
            m >= 0,
            m == (if a >= 0 {
                a as int
            } else {
                -a
            }),
            p == m * b,
    ;
    assert(0 <= (2 * p + 0x1_0000_0000) / 0x2_0000_0000 <= m);
    assert(p == 0 ==> (2 * p + 0x1_0000_0000) / 0x2_0000_0000 == 0);
}

/// Multiplying by zero gives zero, multiplying by one gives the number
/// itself, and multiplying by minus one gives its negation.
pub proof fn lemma_prod_by_unit(x: Fixed)
    ensures
        fx_prod(0, x) == 0,
        fx_prod(x, 0) == 0,
        fx_prod(ONE, x) == clamp(x as int),
        fx_prod(x, ONE) == clamp(x as int),
        fx_prod(MINUS_ONE, x) == fx_neg(x),
        fx_prod(x, MINUS_ONE) == fx_neg(x),
{
    assert(0 * x == 0 && x * 0 == 0 && ONE * x == 0x1_0000_0000 * x && x * ONE == 0x1_0000_0000
        * x && MINUS_ONE * x == -0x1_0000_0000 * x && x * MINUS_ONE == -0x1_0000_0000 * x)
        by (nonlinear_arith)
        requires
            ONE == 0x1_0000_0000,
            MINUS_ONE == -0x1_0000_0000,
    ;
    let m: int = if x >= 0 {
        x as int
    } else {
        -x
    };
    assert((2 * (0x1_0000_0000 * m) + 0x1_0000_0000) / 0x2_0000_0000 == m);
    assert(round_div(0x1_0000_0000 * x, ONE as int) == x);
    assert(round_div(-0x1_0000_0000 * x, ONE as int) == -x);
}

/// Dividing by one gives the number itself, and dividing by minus one gives
/// its negation.
pub proof fn lemma_quot_by_unit(x: Fixed)
    ensures
        fx_quot(x, ONE) == clamp(x as int),
        fx_quot(x, MINUS_ONE) == fx_neg(x),
{
    assert(x * ONE == 0x1_0000_0000 * x) by (nonlinear_arith)
        requires
            ONE == 0x1_0000_0000,
    ;
    let m: int = if x >= 0 {
        x as int
    } else {
        -x
    };
    assert((2 * (0x1_0000_0000 * m) + 0x1_0000_0000) / 0x2_0000_0000 == m);
    assert(round_div(0x1_0000_0000 * x, ONE as int) == x);
    assert(round_div(0x1_0000_0000 * x, MINUS_ONE as int) == -x);
}

/// A number that is not zero, divided by itself, gives one; its negation
/// divided by it gives minus one.
pub proof fn lemma_quot_by_self(x: Fixed)
    requires
        x != 0,
        bounded(x),
    ensures
        fx_quot(x, x) == ONE,
        fx_quot(fx_neg(x), x) == MINUS_ONE,
{
    let m: int = if x > 0 {
        x as int
    } else {
        -x
    };
    assert((2 * (m * ONE) + m) / (2 * m) == ONE) by (nonlinear_arith)
        requires
            m > 0,
            ONE == 0x1_0000_0000,
    ;
    assert(x * ONE == (if x > 0 {
        m * ONE
    } else {
        -(m * ONE)
    }) && (-x) * ONE == (if x > 0 {
        -(m * ONE)
    } else {
        m * ONE
    }) && m * ONE > 0) by (nonlinear_arith)
        requires
            m == (if x > 0 {
                x as int
            } else {
                -x
            }),
            x != 0,
            ONE == 0x1_0000_0000,
    ;
    assert(-(m * ONE) < 0);
    assert(-(-(m * ONE)) == m * ONE);
}

/// The square of a number of at most sixteen fractional bits is exact, and
/// its square root is the number again.
pub proof fn lemma_root_of_square(r: Fixed)
    requires
        0 <= r < 0x8000_0000_0000,
        r % 0x1_0000 == 0,
    ensures
        fx_prod(r, r) * ONE == r * r,
        fx_root(fx_prod(r, r)) == r,
        fx_prod(fx_neg(r), fx_neg(r)) == fx_prod(r, r),
{
    let k: int = r / 0x1_0000;
    assert(r == k * 0x1_0000);
    assert(r * r == (k * k) * ONE && 0 <= k * k < 0x4000_0000_0000_0000 && (-r) * (-r) == r * r)
        by (nonlinear_arith)
        requires
            r == k * 0x1_0000,
            0 <= k < 0x8000_0000,
            ONE == 0x1_0000_0000,
    ;
    assert((2 * ((k * k) * 0x1_0000_0000) + 0x1_0000_0000) / 0x2_0000_0000 == k * k);
    assert((k * k) * ONE == (k * k) * 0x1_0000_0000) by (nonlinear_arith)
        requires
            ONE == 0x1_0000_0000,
    ;
    assert(round_div((k * k) * ONE, ONE as int) == k * k);
    assert(fx_prod(r, r) == k * k);
    if r > 0 {
        assert(k * k > 0) by (nonlinear_arith)
            requires
                k > 0,
        ;
        assert((r + 1) * (r + 1) > r * r) by (nonlinear_arith)
            requires
                r >= 0,
        ;
        lemma_isqrt_unique((fx_prod(r, r) * ONE) as nat, r as nat);
        assert(r * r == isqrt((r * r) as nat) * isqrt((r * r) as nat));
    }
}

/// The nearest representable number to `x`.
fn clamp_wide(x: i128) -> (r: Fixed)
    ensures
        r == clamp(x as int),
{
    if x > INFINITY as i128 {
        INFINITY
    } else if x < NEG_INFINITY as i128 {
        NEG_INFINITY
    } else {
        x as i64
    }
}

/// The whole number `n` as a fixed-point number.
#[verifier::when_used_as_spec(fx_int)]
pub fn from_int(n: i64) -> (r: Fixed)
    ensures
        r == fx_int(n),
{
    assert(-0x8000_0000_0000_0000_0000_0000 <= n * ONE <= 0x8000_0000_0000_0000_0000_0000)
        by (nonlinear_arith)
        requires
            -0x8000_0000_0000_0000 <= n <= 0x7fff_ffff_ffff_ffff,
            ONE == 0x1_0000_0000,
    ;
    clamp_wide((n as i128) * (ONE as i128))
}

/// Adds two numbers.
pub fn sum(a: Fixed, b: Fixed) -> (r: Fixed)
    ensures
        r == fx_sum(a, b),
{
    clamp_wide(a as i128 + b as i128)
}

/// Subtracts `b` from `a`.
pub fn diff(a: Fixed, b: Fixed) -> (r: Fixed)
    ensures
        r == fx_diff(a, b),
{
    clamp_wide(a as i128 - b as i128)
}

/// Negates a number.
pub fn neg(a: Fixed) -> (r: Fixed)
    ensures
        r == fx_neg(a),
{
    clamp_wide(-(a as i128))
}

/// Multiplies two numbers.
pub fn prod(a: Fixed, b: Fixed) -> (r: Fixed)
    ensures
        r == fx_prod(a, b),
{
    assert(-0x4000_0000_0000_0000_0000_0000_0000_0000 <= a * b
        <= 0x4000_0000_0000_0000_0000_0000_0000_0000) by (nonlinear_arith)
        requires
            -0x8000_0000_0000_0000 <= a <= 0x7fff_ffff_ffff_ffff,
            -0x8000_0000_0000_0000 <= b <= 0x7fff_ffff_ffff_ffff,
    ;
    let wide: i128 = (a as i128) * (b as i128);
    if wide >= 0 {
        clamp_wide((wide + 0x8000_0000) / (ONE as i128))
    } else {
        clamp_wide(-((-wide + 0x8000_0000) / (ONE as i128)))
    }
}

/// Divides `a` by `b`.
pub fn quot(a: Fixed, b: Fixed) -> (r: Fixed)
    ensures
        r == fx_quot(a, b),
{
    if b == 0 {
        if a > 0 {
            INFINITY
        } else if a < 0 {
            NEG_INFINITY
        } else {
            0
        }
    } else {
        assert(-0x8000_0000_0000_0000_0000_0000 <= a * ONE <= 0x8000_0000_0000_0000_0000_0000)
            by (nonlinear_arith)
            requires
                -0x8000_0000_0000_0000 <= a <= 0x7fff_ffff_ffff_ffff,
                ONE == 0x1_0000_0000,
        ;
        let wide: i128 = (a as i128) * (ONE as i128);
        let size: i128 = if wide >= 0 {
            wide
        } else {
            -wide
        };
        let by: i128 = if b > 0 {
            b as i128
        } else {
            -(b as i128)
        };
        let nearest: i128 = (2 * size + by) / (2 * by);
        if (wide >= 0) == (b > 0) {
            clamp_wide(nearest)
        } else {
            clamp_wide(-nearest)
        }
    }
}

/// The fraction `n / d` of two whole numbers as a fixed-point number.
#[verifier::when_used_as_spec(fx_ratio)]
pub fn ratio(n: i64, d: i64) -> (r: Fixed)
    ensures
        r == fx_ratio(n, d),
{
    quot(from_int(n), from_int(d))
}

/// The smaller of two numbers.
pub fn min(a: Fixed, b: Fixed) -> (r: Fixed)
    ensures
        r == fx_min(a, b),
{
    if a < b {
        a
    } else {
        b
    }
}

/// The larger of two numbers.
pub fn max(a: Fixed, b: Fixed) -> (r: Fixed)
    ensures
        r == fx_max(a, b),
{
    if a > b {
        a
    } else {
        b
    }
}

/// The size of a number.
pub fn abs(a: Fixed) -> (r: Fixed)
    ensures
        r == fx_abs(a),
{
    if a < 0 {
        neg(a)
    } else {
        a
    }
}

/// The largest `r` whose square is at most `n`.
fn isqrt_wide(n: u128) -> (r: u128)
    requires
        n < 0x8000_0000_0000_0000_0000_0000,
    ensures
        r == isqrt(n as nat),
        r < 0x1_0000_0000_0000,
{
    let mut lo: u128 = 0;
    let mut hi: u128 = 0x1_0000_0000_0000;
    assert(hi * hi > n) by (nonlinear_arith)
        requires
            hi == 0x1_0000_0000_0000,
            n < 0x8000_0000_0000_0000_0000_0000,
    ;
    while hi - lo > 1
        invariant
            lo < hi <= 0x1_0000_0000_0000,
            lo * lo <= n < hi * hi,
        decreases hi - lo,
    {
        let mid: u128 = lo + (hi - lo) / 2;
        assert(mid * mid < 0x1_0000_0000_0000_0000_0000_0000) by (nonlinear_arith)
            requires
                mid < 0x1_0000_0000_0000,
        ;
        if mid * mid <= n {
            lo = mid;
        } else {
            hi = mid;
        }
    }
    proof {
        lemma_isqrt_unique(n as nat, lo as nat);
    }
    lo
}

/// The square root of a number.
pub fn root(a: Fixed) -> (r: Fixed)
    ensures
        r == fx_root(a),
{
    if a <= 0 {
        0
    } else {
        assert(0 < a * ONE < 0x8000_0000_0000_0000_0000_0000) by (nonlinear_arith)
            requires
                0 < a <= 0x7fff_ffff_ffff_ffff,
                ONE == 0x1_0000_0000,
        ;
        let wide: u128 = (a as u128) * (ONE as u128);
        let floor = isqrt_wide(wide);
        proof {
            lemma_isqrt_bounds(wide as nat);
            assert(floor * floor < 0x1_0000_0000_0000_0000_0000_0000) by (nonlinear_arith)
                requires
                    floor < 0x1_0000_0000_0000,
            ;
        }
        if wide - floor * floor > floor {
            (floor + 1) as i64
        } else {
            floor as i64
        }
    }
}

} // verus!
