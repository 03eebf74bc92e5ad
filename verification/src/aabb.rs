//! Axis-aligned bounding boxes and the slab test of a ray against one.

use vstd::prelude::*;
use vstd::arithmetic::div_mod::lemma_div_is_ordered;
use crate::fixed::{Fixed, INFINITY, MINUS_ONE, ONE, bounded, lemma_quot_by_unit, diff, fx_diff, fx_max, fx_min, fx_quot, max, min, quot, round_div};
use crate::ray::Ray;
use crate::vec3::Point3;

verus! {

/// The box of the points between the corners `min_p` and `max_p`.
#[derive(Clone, Copy, Debug, PartialEq, Eq, Structural)]
pub struct AABB {
    pub min_p: Point3,
    pub max_p: Point3,
}

/// The parameter at which a ray with origin coordinate `orig` and direction
/// coordinate `dir` (not zero) enters the slab between `lo` and `hi`.
pub open spec fn slab_entry(lo: Fixed, hi: Fixed, orig: Fixed, dir: Fixed) -> Fixed {
    if dir < 0 {
        fx_quot(fx_diff(hi, orig), dir)
    } else {
        fx_quot(fx_diff(lo, orig), dir)
    }
}

/// The parameter at which such a ray leaves the slab between `lo` and `hi`.
pub open spec fn slab_exit(lo: Fixed, hi: Fixed, orig: Fixed, dir: Fixed) -> Fixed {
    if dir < 0 {
        fx_quot(fx_diff(lo, orig), dir)
    } else {
        fx_quot(fx_diff(hi, orig), dir)
    }
}

/// What is left of the parameter interval from `t_min` to `t_max` after
/// clipping it to the slab between `lo` and `hi` on one axis. A ray that runs
/// parallel to the slab keeps the interval if its origin lies in the slab,
/// and loses it otherwise.
pub open spec fn clip_to_slab(
    lo: Fixed,
    hi: Fixed,
    orig: Fixed,
    dir: Fixed,
    t_min: Fixed,
    t_max: Fixed,
) -> (Fixed, Fixed) {
    if dir == 0 {
        if lo <= orig && orig <= hi {
            (t_min, t_max)
        } else {
            (t_min, t_min)
        }
    } else {
        (fx_max(slab_entry(lo, hi, orig, dir), t_min), fx_min(slab_exit(lo, hi, orig, dir), t_max))
    }
}

impl AABB {
    /// On every axis the minimum corner is not beyond the maximum corner.
    pub open spec fn wf(self) -> bool {
        &&& self.min_p.x <= self.max_p.x
        &&& self.min_p.y <= self.max_p.y
        &&& self.min_p.z <= self.max_p.z
    }

    /// `inner` lies inside this box.
    pub open spec fn contains(self, inner: AABB) -> bool {
        &&& self.min_p.x <= inner.min_p.x && inner.max_p.x <= self.max_p.x
        &&& self.min_p.y <= inner.min_p.y && inner.max_p.y <= self.max_p.y
        &&& self.min_p.z <= inner.min_p.z && inner.max_p.z <= self.max_p.z
    }

    /// The slab test: the interval from `tmin` to `tmax` is clipped to the
    /// box's slab on `x`, then on `y`, then on `z`, and must keep a positive
    /// length after each step.
    #[verifier::opaque]
    pub open spec fn spec_hit(&self, r: &Ray, tmin: Fixed, tmax: Fixed) -> bool {
        let ix = clip_to_slab(self.min_p.x, self.max_p.x, r.orig.x, r.dir.x, tmin, tmax);
        let iy = clip_to_slab(self.min_p.y, self.max_p.y, r.orig.y, r.dir.y, ix.0, ix.1);
        let iz = clip_to_slab(self.min_p.z, self.max_p.z, r.orig.z, r.dir.z, iy.0, iy.1);
        ix.0 < ix.1 && iy.0 < iy.1 && iz.0 < iz.1
    }

    /// The box with the corners `a` and `b`.
    pub fn new(a: Point3, b: Point3) -> (r: AABB)
        ensures
            r.min_p == a,
            r.max_p == b,
    {
        AABB {
            min_p: Point3 { x: a.x, y: a.y, z: a.z },
            max_p: Point3 { x: b.x, y: b.y, z: b.z },
        }
    }

    /// Whether the ray meets the box at a parameter between `tmin` and `tmax`.
    #[verifier::when_used_as_spec(spec_hit)]
    pub fn hit(&self, r: &Ray, tmin: Fixed, tmax: Fixed) -> (b: bool)
        ensures
            b == self.spec_hit(r, tmin, tmax),
    {
        reveal(AABB::spec_hit);
        let ix = clip(self.min_p.x, self.max_p.x, r.orig.x, r.dir.x, tmin, tmax);
        if ix.1 <= ix.0 {
            return false;
        }
        let iy = clip(self.min_p.y, self.max_p.y, r.orig.y, r.dir.y, ix.0, ix.1);
        if iy.1 <= iy.0 {
            return false;
        }
        let iz = clip(self.min_p.z, self.max_p.z, r.orig.z, r.dir.z, iy.0, iy.1);
        if iz.1 <= iz.0 {
            return false;
        }
        true
    }
}

/// Clips the interval from `t_min` to `t_max` to the slab between `lo` and
/// `hi` on one axis.
fn clip(lo: Fixed, hi: Fixed, orig: Fixed, dir: Fixed, t_min: Fixed, t_max: Fixed) -> (r: (
    Fixed,
    Fixed,
))
    ensures
        r == clip_to_slab(lo, hi, orig, dir, t_min, t_max),
{
    if dir == 0 {
        if lo <= orig && orig <= hi {
            (t_min, t_max)
        } else {
            (t_min, t_min)
        }
    } else {
        let mut t0 = quot(diff(lo, orig), dir);
        let mut t1 = quot(diff(hi, orig), dir);
        if dir < 0 {
            let t = t0;
            t0 = t1;
            t1 = t;
        }
        (max(t0, t_min), min(t1, t_max))
    }
}

/// The smallest box that holds both boxes.
pub open spec fn spec_surrounding_box(box0: AABB, box1: AABB) -> AABB {
    AABB {
        min_p: Point3 {
            x: fx_min(box0.min_p.x, box1.min_p.x),
            y: fx_min(box0.min_p.y, box1.min_p.y),
            z: fx_min(box0.min_p.z, box1.min_p.z),
        },
        max_p: Point3 {
            x: fx_max(box0.max_p.x, box1.max_p.x),
            y: fx_max(box0.max_p.y, box1.max_p.y),
            z: fx_max(box0.max_p.z, box1.max_p.z),
        },
    }
}

/// The union of two boxes: the smallest box that holds both.
#[verifier::when_used_as_spec(spec_surrounding_box)]
pub fn surrounding_box(box0: AABB, box1: AABB) -> (r: AABB)
    ensures
        r == spec_surrounding_box(box0, box1),
        r.contains(box0),
        r.contains(box1),
        box0.wf() || box1.wf() ==> r.wf(),
{
    let small = Point3::new(
        min(box0.min_p.x, box1.min_p.x),
        min(box0.min_p.y, box1.min_p.y),
        min(box0.min_p.z, box1.min_p.z),
    );
    let big = Point3::new(
        max(box0.max_p.x, box1.max_p.x),
        max(box0.max_p.y, box1.max_p.y),
        max(box0.max_p.z, box1.max_p.z),
    );
    AABB::new(small, big)
}

/// The union of two boxes holds each of them, and no smaller box does: a box
/// that holds both holds their union.
pub proof fn lemma_union_is_least_cover(a: AABB, b: AABB, c: AABB)
    ensures
        surrounding_box(a, b).contains(a),
        surrounding_box(a, b).contains(b),
        c.contains(a) && c.contains(b) ==> c.contains(surrounding_box(a, b)),
{
}

/// Rounded division by a positive number keeps the order of the numerators.
pub proof fn lemma_round_div_monotone(a: int, b: int, d: int)
    requires
        a <= b,
        d > 0,
    ensures
        round_div(a, d) <= round_div(b, d),
{
    if a >= 0 {
        lemma_div_is_ordered(2 * a + d, 2 * b + d, 2 * d);
    } else if b >= 0 {
        lemma_div_is_ordered(0, 2 * (-a) + d, 2 * d);
        lemma_div_is_ordered(0, 2 * b + d, 2 * d);
    } else {
        lemma_div_is_ordered(2 * (-b) + d, 2 * (-a) + d, 2 * d);
    }
}

/// Dividing by a positive number keeps the order of the dividends, and
/// dividing by a negative number reverses it.
pub proof fn lemma_quot_monotone(a: Fixed, b: Fixed, d: Fixed)
    requires
        a <= b,
        d != 0,
    ensures
        d > 0 ==> fx_quot(a, d) <= fx_quot(b, d),
        d < 0 ==> fx_quot(a, d) >= fx_quot(b, d),
{
    assert(a * ONE <= b * ONE) by (nonlinear_arith)
        requires
            a <= b,
            ONE > 0,
    ;
    if d > 0 {
        lemma_round_div_monotone(a * ONE, b * ONE, d as int);
    } else {
        lemma_round_div_monotone(a * ONE, b * ONE, -d as int);
        if a * ONE >= 0 {
            assert(round_div(a * ONE, d as int) == -round_div(a * ONE, -d as int));
        }
        if b * ONE >= 0 {
            assert(round_div(b * ONE, d as int) == -round_div(b * ONE, -d as int));
        }
    }
}

/// A larger slab is entered no later and left no earlier.
pub proof fn lemma_slab_widens(
    lo: Fixed,
    hi: Fixed,
    wide_lo: Fixed,
    wide_hi: Fixed,
    orig: Fixed,
    dir: Fixed,
)
    requires
        wide_lo <= lo,
        hi <= wide_hi,
        dir != 0,
    ensures
        slab_entry(wide_lo, wide_hi, orig, dir) <= slab_entry(lo, hi, orig, dir),
        slab_exit(lo, hi, orig, dir) <= slab_exit(wide_lo, wide_hi, orig, dir),
{
    lemma_quot_monotone(fx_diff(wide_lo, orig), fx_diff(lo, orig), dir);
    lemma_quot_monotone(fx_diff(hi, orig), fx_diff(wide_hi, orig), dir);
}

/// A ray that meets a box meets every box that contains it.
pub proof fn lemma_hit_is_monotone(inner: AABB, outer: AABB, r: Ray, tmin: Fixed, tmax: Fixed)
    requires
        outer.contains(inner),
        inner.hit(&r, tmin, tmax),
    ensures
        outer.hit(&r, tmin, tmax),
{
    reveal(AABB::spec_hit);
    if r.dir.x != 0 {
        lemma_slab_widens(inner.min_p.x, inner.max_p.x, outer.min_p.x, outer.max_p.x, r.orig.x, r.dir.x);
    }
    if r.dir.y != 0 {
        lemma_slab_widens(inner.min_p.y, inner.max_p.y, outer.min_p.y, outer.max_p.y, r.orig.y, r.dir.y);
    }
    if r.dir.z != 0 {
        lemma_slab_widens(inner.min_p.z, inner.max_p.z, outer.min_p.z, outer.max_p.z, r.orig.z, r.dir.z);
    }
}

/// Two numerators that lie at least one divisor apart have different
/// rounded quotients, and a numerator that is at least half the divisor has
/// a positive one.
proof fn lemma_round_div_gap(u: int, v: int, d: int)
    requires
        d > 0,
        v >= u + d,
    ensures
        round_div(v, d) >= round_div(u, d) + 1,
        2 * v >= d ==> round_div(v, d) >= 1,
{
    if u >= 0 {
        assert((2 * v + d) / (2 * d) >= (2 * u + d) / (2 * d) + 1) by (nonlinear_arith)
            requires
                d > 0,
                u >= 0,
                v >= u + d,
        ;
    } else if v >= 0 {
        assert((2 * v + d) / (2 * d) + (2 * (-u) + d) / (2 * d) >= 1) by (nonlinear_arith)
            requires
                d > 0,
                u < 0,
                v >= 0,
                v >= u + d,
        ;
    } else {
        assert((2 * (-u) + d) / (2 * d) >= (2 * (-v) + d) / (2 * d) + 1) by (nonlinear_arith)
            requires
                d > 0,
                v < 0,
                v >= u + d,
        ;
    }
    if 2 * v >= d {
        assert((2 * v + d) / (2 * d) >= 1) by (nonlinear_arith)
            requires
                2 * v >= d,
                d > 0,
        ;
    }
}

/// On the axis along which a ray moves toward the middle of a slab, clipping
/// the interval from zero to infinity leaves an interval of positive length.
proof fn lemma_clip_toward_middle(lo: Fixed, hi: Fixed, orig: Fixed, dir: Fixed)
    requires
        dir != 0,
        bounded(lo),
        bounded(hi),
        bounded(orig),
        dir > 0 ==> 2 * orig <= lo + hi,
        dir < 0 ==> 2 * orig >= lo + hi,
        dir > 0 ==> (hi - lo) * ONE >= dir,
        dir < 0 ==> (hi - lo) * ONE >= -dir,
        slab_entry(lo, hi, orig, dir) < INFINITY,
    ensures
        clip_to_slab(lo, hi, orig, dir, 0, INFINITY).0 < clip_to_slab(
            lo,
            hi,
            orig,
            dir,
            0,
            INFINITY,
        ).1,
{
    if dir > 0 {
        let u = (lo - orig) * ONE;
        let v = (hi - orig) * ONE;
        assert(v == u + (hi - lo) * ONE) by (nonlinear_arith)
            requires
                u == (lo - orig) * ONE,
                v == (hi - orig) * ONE,
        ;
        assert(2 * v >= (hi - lo) * ONE) by (nonlinear_arith)
            requires
                2 * (hi - orig) >= hi - lo,
                v == (hi - orig) * ONE,
                ONE > 0,
        ;
        lemma_round_div_gap(u, v, dir as int);
    } else {
        let u = (orig - hi) * ONE;
        let v = (orig - lo) * ONE;
        assert(v == u + (hi - lo) * ONE) by (nonlinear_arith)
            requires
                u == (orig - hi) * ONE,
                v == (orig - lo) * ONE,
        ;
        assert(2 * v >= (hi - lo) * ONE) by (nonlinear_arith)
            requires
                2 * (orig - lo) >= hi - lo,
                v == (orig - lo) * ONE,
                ONE > 0,
        ;
        lemma_round_div_gap(u, v, -dir as int);
        assert((hi - orig) * ONE == -u) by (nonlinear_arith)
            requires
                u == (orig - hi) * ONE,
        ;
        assert((lo - orig) * ONE == -v) by (nonlinear_arith)
            requires
                v == (orig - lo) * ONE,
        ;
        assert((-dir) / (2 * (-dir)) == 0) by (nonlinear_arith)
            requires
                dir < 0,
        ;
        assert(round_div(-u, dir as int) == round_div(u, -dir as int));
        assert(round_div(-v, dir as int) == round_div(v, -dir as int));
    }
}

/// A ray that runs along one axis toward the centre of a box, from zero to
/// infinity, meets the box. The ray's origin may lie anywhere within the
/// box's extent on the other two axes. Three conditions keep the arithmetic
/// exact: the coordinates are `bounded`, the box is at least one step of
/// the parameter deep along the ray (any box that is not flat is, for a
/// direction of the length one), and the ray enters it before infinity.
pub proof fn lemma_axis_ray_hits_box(b: AABB, r: Ray, axis: usize)
    requires
        axis < 3,
        r.dir.get(axis) != 0,
        axis != 0 ==> r.dir.x == 0 && b.min_p.x <= r.orig.x <= b.max_p.x,
        axis != 1 ==> r.dir.y == 0 && b.min_p.y <= r.orig.y <= b.max_p.y,
        axis != 2 ==> r.dir.z == 0 && b.min_p.z <= r.orig.z <= b.max_p.z,
        r.dir.get(axis) > 0 ==> 2 * r.orig.get(axis) <= b.min_p.get(axis) + b.max_p.get(axis),
        r.dir.get(axis) < 0 ==> 2 * r.orig.get(axis) >= b.min_p.get(axis) + b.max_p.get(axis),
        bounded(b.min_p.get(axis)),
        bounded(b.max_p.get(axis)),
        bounded(r.orig.get(axis)),
        r.dir.get(axis) > 0 ==> (b.max_p.get(axis) - b.min_p.get(axis)) * ONE >= r.dir.get(axis),
        r.dir.get(axis) < 0 ==> (b.max_p.get(axis) - b.min_p.get(axis)) * ONE >= -r.dir.get(axis),
        slab_entry(b.min_p.get(axis), b.max_p.get(axis), r.orig.get(axis), r.dir.get(axis))
            < INFINITY,
    ensures
        b.hit(&r, 0, INFINITY),
{
    reveal(AABB::spec_hit);
    lemma_clip_toward_middle(
        b.min_p.get(axis),
        b.max_p.get(axis),
        r.orig.get(axis),
        r.dir.get(axis),
    );
}

/// A ray of the length one that runs along one axis toward the centre of a
/// box that is not flat on that axis, from zero to infinity, meets the box,
/// wherever on its line it starts: nothing is asked but that the
/// coordinates on that axis are `bounded`.
pub proof fn lemma_unit_axis_ray_hits_box(b: AABB, r: Ray, axis: usize)
    requires
        axis < 3,
        r.dir.get(axis) == ONE || r.dir.get(axis) == MINUS_ONE,
        axis != 0 ==> r.dir.x == 0 && b.min_p.x <= r.orig.x <= b.max_p.x,
        axis != 1 ==> r.dir.y == 0 && b.min_p.y <= r.orig.y <= b.max_p.y,
        axis != 2 ==> r.dir.z == 0 && b.min_p.z <= r.orig.z <= b.max_p.z,
        b.min_p.get(axis) < b.max_p.get(axis),
        r.dir.get(axis) > 0 ==> 2 * r.orig.get(axis) <= b.min_p.get(axis) + b.max_p.get(axis),
        r.dir.get(axis) < 0 ==> 2 * r.orig.get(axis) >= b.min_p.get(axis) + b.max_p.get(axis),
        bounded(b.min_p.get(axis)),
        bounded(b.max_p.get(axis)),
        bounded(r.orig.get(axis)),
    ensures
        b.hit(&r, 0, INFINITY),
{
    let lo = b.min_p.get(axis);
    let hi = b.max_p.get(axis);
    let o = r.orig.get(axis);
    lemma_quot_by_unit(fx_diff(lo, o));
    lemma_quot_by_unit(fx_diff(hi, o));
    assert((hi - lo) * ONE >= ONE) by (nonlinear_arith)
        requires
            hi - lo >= 1,
            ONE > 0,
    ;
    lemma_axis_ray_hits_box(b, r, axis);
}

/// A ray misses the box when, on some axis along which it moves, it leaves
/// the box's slab no later than `tmin` or enters it no earlier than `tmax`.
pub proof fn lemma_hit_needs_overlap(b: AABB, r: Ray, tmin: Fixed, tmax: Fixed, axis: usize)
    requires
        axis < 3,
        r.dir.get(axis) != 0,
        slab_exit(b.min_p.get(axis), b.max_p.get(axis), r.orig.get(axis), r.dir.get(axis)) <= tmin
            || slab_entry(b.min_p.get(axis), b.max_p.get(axis), r.orig.get(axis), r.dir.get(axis))
            >= tmax,
    ensures
        !b.hit(&r, tmin, tmax),
{
    reveal(AABB::spec_hit);
}

} // verus!
