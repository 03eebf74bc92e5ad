//! The things a ray can meet: spheres, rectangles, lists of objects and the
//! nodes of a bounding-volume hierarchy.

use vstd::prelude::*;
use std::sync::Arc;
use crate::aabb::{AABB, surrounding_box};
use crate::aarect::XYrect;
use crate::fixed::{Fixed, ONE, diff, fx_diff, fx_prod, lemma_prod_by_unit, lemma_prod_with_fraction};
use crate::material::HitRecord;
use crate::ray::Ray;
use crate::sphere::Sphere;
use crate::vec3::{Color, Point3};

verus! {

/// The number one half.
pub const HALF: Fixed = 0x8000_0000;

/// The number seven tenths.
pub const SEVEN_TENTHS: Fixed = 0xb333_3333;

/// A list of objects, with the background of the scene that it stands for.
#[derive(Clone)]
pub struct HittableList {
    pub objects: Vec<Arc<Object>>,
    pub if_dark: bool,
}

/// A node of a bounding-volume hierarchy: two objects and a box around both.
pub struct BvhNode {
    pub left: Arc<Object>,
    pub right: Arc<Object>,
    pub cur_box: AABB,
    pub if_dark: bool,
}

/// Anything that a ray can meet.
pub enum Object {
    Sphere(Sphere),
    Rect(XYrect),
    List(HittableList),
    Node(BvhNode),
}

/// The colour of the sky at the height `t` between zero and one: white at
/// zero, the blue `(0.5, 0.7, 1)` at one, and their mixture between.
pub open spec fn spec_sky(t: Fixed) -> Color {
    Color::ones().scale(fx_diff(ONE, t)).plus((Color { x: HALF, y: SEVEN_TENTHS, z: ONE }).scale(t))
}

/// At a height between zero and one every channel of the sky lies between
/// one half and one, and blue is one.
pub proof fn lemma_sky_is_bright(t: Fixed)
    requires
        0 <= t <= ONE,
    ensures
        HALF <= spec_sky(t).x <= ONE,
        HALF <= spec_sky(t).y <= ONE,
        spec_sky(t).z == ONE,
{
    let rest = fx_diff(ONE, t);
    lemma_prod_by_unit(rest);
    lemma_prod_by_unit(t);
    lemma_prod_with_fraction(t, HALF);
    lemma_prod_with_fraction(t, SEVEN_TENTHS);
    assert(fx_prod(HALF, t) == (2 * (HALF * t) + ONE) / (2 * ONE) && HALF * t == 0x8000_0000 * t)
        by (nonlinear_arith)
        requires
            HALF == 0x8000_0000,
            0 <= t <= 0x1_0000_0000,
            fx_prod(HALF, t) == (2 * (HALF * t) + ONE) / (2 * ONE),
    ;
    let p = SEVEN_TENTHS * t;
    assert(p >= 0x8000_0000 * t - 0 && p >= 0 && 2 * p >= 0x1_0000_0000 * t) by (nonlinear_arith)
        requires
            p == SEVEN_TENTHS * t,
            SEVEN_TENTHS == 0xb333_3333,
            0 <= t,
    ;
    assert((2 * p + 0x1_0000_0000) / 0x2_0000_0000 >= (0x1_0000_0000 * t + 0x1_0000_0000)
        / 0x2_0000_0000);
}

/// The background of a scene at the height `t`: black in a dark scene, the
/// sky in any other.
pub open spec fn spec_background(if_dark: bool, t: Fixed) -> Color {
    if if_dark {
        Color::zero()
    } else {
        spec_sky(t)
    }
}

/// The nearer of two hits: the left one if its parameter is smaller, else
/// the right one; the only one, if there is only one.
pub open spec fn spec_nearer(left: Option<HitRecord>, right: Option<HitRecord>) -> Option<
    HitRecord,
> {
    match (left, right) {
        (Some(l), Some(r)) => if l.t < r.t {
            Some(l)
        } else {
            Some(r)
        },
        (Some(l), None) => Some(l),
        (None, Some(r)) => Some(r),
        (None, None) => None,
    }
}

/// The upper end of the interval in which a later object of a list is
/// tested: the parameter of the best hit so far, or `t_max` before any hit.
pub open spec fn closest_so_far(best: Option<HitRecord>, t_max: Fixed) -> Fixed {
    match best {
        Some(rec) => rec.t,
        None => t_max,
    }
}

/// The hit that a scan of the first `n` objects of `objects` ends with. Each
/// object is tested between `t_min` and the best hit so far, and a hit
/// replaces the best so far.
pub open spec fn scan_hits(
    objects: Seq<Arc<Object>>,
    n: nat,
    ray: &Ray,
    t_min: Fixed,
    t_max: Fixed,
) -> Option<HitRecord>
    decreases objects, n,
{
    if n == 0 || n > objects.len() {
        None
    } else {
        let best = scan_hits(objects, (n - 1) as nat, ray, t_min, t_max);
        match objects[n - 1].spec_hit(ray, t_min, closest_so_far(best, t_max)) {
            Some(rec) => Some(rec),
            None => best,
        }
    }
}

/// The box around the first `n` objects of `objects`: the union of their
/// boxes, or nothing if `n` is zero or one of them has no box.
pub open spec fn union_boxes(objects: Seq<Arc<Object>>, n: nat) -> Option<AABB>
    decreases objects, n,
{
    if n == 0 || n > objects.len() {
        None
    } else if n == 1 {
        objects[0].spec_bounding_box()
    } else {
        match (union_boxes(objects, (n - 1) as nat), objects[n - 1].spec_bounding_box()) {
            (Some(a), Some(b)) => Some(surrounding_box(a, b)),
            _ => None,
        }
    }
}

/// The first `n` objects have no box together if one of them has none.
pub proof fn lemma_union_needs_every_box(objects: Seq<Arc<Object>>, n: nat, i: int)
    requires
        0 <= i < n <= objects.len(),
        objects[i].spec_bounding_box() is None,
    ensures
        union_boxes(objects, n) is None,
    decreases n,
{
    if i < n - 1 {
        lemma_union_needs_every_box(objects, (n - 1) as nat, i);
    }
}

/// Whether the object has a box whose minimum corner is not beyond its
/// maximum corner on any axis.
pub open spec fn has_valid_box(ob: &Object) -> bool {
    ob.spec_bounding_box() matches Some(b) && b.wf()
}

/// The box around objects with valid boxes is valid.
pub proof fn lemma_union_of_valid_boxes(objects: Seq<Arc<Object>>, n: nat)
    requires
        0 < n <= objects.len(),
        forall|i: int| 0 <= i < n ==> has_valid_box(&#[trigger] objects[i]),
    ensures
        union_boxes(objects, n) matches Some(b) && b.wf(),
    decreases n,
{
    assert(has_valid_box(&objects[0]));
    if n > 1 {
        lemma_union_of_valid_boxes(objects, (n - 1) as nat);
        assert(has_valid_box(&objects[n - 1]));
    }
}

impl Object {
    /// Where the ray first meets the object between `t_min` and `t_max`.
    /// A list is scanned from its first object to its last. A node answers
    /// only if the ray meets its box, and then with the nearer of the hits
    /// of its two children.
    pub open spec fn spec_hit(&self, ray: &Ray, t_min: Fixed, t_max: Fixed) -> Option<HitRecord>
        decreases self,
    {
        match self {
            Object::Sphere(s) => s.spec_hit(ray, t_min, t_max),
            Object::Rect(r) => r.spec_hit(ray, t_min, t_max),
            Object::List(l) => scan_hits(l.objects@, l.objects@.len(), ray, t_min, t_max),
            Object::Node(n) => if n.cur_box.hit(ray, t_min, t_max) {
                spec_nearer(n.left.spec_hit(ray, t_min, t_max), n.right.spec_hit(ray, t_min, t_max))
            } else {
                None
            },
        }
    }

    /// The box around the object, if it has one.
    pub open spec fn spec_bounding_box(&self) -> Option<AABB>
        decreases self,
    {
        match self {
            Object::Sphere(s) => Some(s.spec_bounding_box()),
            Object::Rect(r) => Some(r.spec_bounding_box()),
            Object::List(l) => union_boxes(l.objects@, l.objects@.len()),
            Object::Node(n) => Some(n.cur_box),
        }
    }

    /// The colour that a ray sees which meets nothing, at the height `t`:
    /// that of the scene for a list or a node, black for a single shape.
    pub open spec fn spec_background(&self, t: Fixed) -> Color {
        match self {
            Object::Sphere(_) => Color::zero(),
            Object::Rect(_) => Color::zero(),
            Object::List(l) => spec_background(l.if_dark, t),
            Object::Node(n) => spec_background(n.if_dark, t),
        }
    }

    /// Where the ray first meets the object between `t_min` and `t_max`.
    #[verifier::when_used_as_spec(spec_hit)]
    pub fn hit(&self, ray: &Ray, t_min: Fixed, t_max: Fixed) -> (r: Option<HitRecord>)
        ensures
            r == self.spec_hit(ray, t_min, t_max),
        decreases self,
    {
        match self {
            Object::Sphere(s) => s.hit(ray, t_min, t_max),
            Object::Rect(r) => r.hit(ray, t_min, t_max),
            Object::List(l) => l.hit(ray, t_min, t_max),
            Object::Node(n) => n.hit(ray, t_min, t_max),
        }
    }

    /// The box around the object, if it has one. The two times are not used:
    /// nothing moves.
    pub fn bounding_box(&self, t0: Fixed, t1: Fixed) -> (b: Option<AABB>)
        ensures
            b == self.spec_bounding_box(),
        decreases self,
    {
        match self {
            Object::Sphere(s) => s.bounding_box(t0, t1),
            Object::Rect(r) => r.bounding_box(t0, t1),
            Object::List(l) => l.bounding_box(t0, t1),
            Object::Node(n) => n.bounding_box(t0, t1),
        }
    }

    /// The colour that a ray sees which meets nothing.
    #[verifier::when_used_as_spec(spec_background)]
    pub fn get_background(&self, t: Fixed) -> (c: Color)
        ensures
            c == self.spec_background(t),
    {
        match self {
            Object::Sphere(s) => s.get_background(t),
            Object::Rect(r) => r.get_background(t),
            Object::List(l) => l.get_background(t),
            Object::Node(n) => n.get_background(t),
        }
    }
}

/// The background of a scene at the height `t`.
fn background(if_dark: bool, t: Fixed) -> (c: Color)
    ensures
        c == spec_background(if_dark, t),
{
    if if_dark {
        Color::zero()
    } else {
        Color::ones().scale(diff(ONE, t)).plus(Color::new(HALF, SEVEN_TENTHS, ONE).scale(t))
    }
}

impl Default for HittableList {
    /// The empty list of a dark scene.
    fn default() -> (r: HittableList)
        ensures
            r.objects@.len() == 0,
            r.if_dark,
    {
        Self::new(true)
    }
}

impl HittableList {
    /// The empty list of a scene that is dark if `if_dark`.
    pub fn new(if_dark: bool) -> (r: HittableList)
        ensures
            r.objects@.len() == 0,
            r.if_dark == if_dark,
    {
        HittableList { objects: Vec::new(), if_dark }
    }

    /// Appends an object.
    pub fn push(&mut self, ob: Arc<Object>)
        ensures
            final(self).objects@ == old(self).objects@.push(ob),
            final(self).if_dark == old(self).if_dark,
    {
        self.objects.push(ob);
    }

    /// The nearest hit of the ray on the objects of the list between `t_min`
    /// and `t_max`, found in one scan.
    pub fn hit(&self, ray: &Ray, t_min: Fixed, t_max: Fixed) -> (r: Option<HitRecord>)
        ensures
            r == scan_hits(self.objects@, self.objects@.len(), ray, t_min, t_max),
        decreases self,
    {
        let mut closest = t_max;
        let mut cur_rec: Option<HitRecord> = None;
        let mut i: usize = 0;
        while i < self.objects.len()
            invariant
                i <= self.objects.len(),
                cur_rec == scan_hits(self.objects@, i as nat, ray, t_min, t_max),
                closest == closest_so_far(cur_rec, t_max),
            decreases self.objects.len() - i,
        {
            let this_rec = self.objects[i].hit(ray, t_min, closest);
            if let Some(cur) = this_rec {
                closest = cur.t;
                cur_rec = Some(cur);
            }
            i += 1;
        }
        cur_rec
    }

    /// The nearest hit of the ray on the objects of the list.
    pub fn ray_hit(&self, ray: &Ray, t_min: Fixed, t_max: Fixed) -> (r: Option<HitRecord>)
        ensures
            r == scan_hits(self.objects@, self.objects@.len(), ray, t_min, t_max),
    {
        self.hit(ray, t_min, t_max)
    }

    /// The box around all objects of the list; none for an empty list or a
    /// list with an object that has no box.
    pub fn bounding_box(&self, t0: Fixed, t1: Fixed) -> (b: Option<AABB>)
        ensures
            b == union_boxes(self.objects@, self.objects@.len()),
        decreases self,
    {
        if self.objects.is_empty() {
            return None;
        }
        let mut output_box = AABB::new(Point3::zero(), Point3::zero());
        let mut first_box = true;
        let mut i: usize = 0;
        while i < self.objects.len()
            invariant
                i <= self.objects.len(),
                first_box == (i == 0),
                i > 0 ==> union_boxes(self.objects@, i as nat) == Some(output_box),
            decreases self.objects.len() - i,
        {
            let res = self.objects[i].bounding_box(t0, t1);
            match res {
                Some(temp_box) => {
                    output_box = if first_box {
                        temp_box
                    } else {
                        surrounding_box(output_box, temp_box)
                    };
                    first_box = false;
                },
                None => {
                    proof {
                        lemma_union_needs_every_box(
                            self.objects@,
                            self.objects@.len(),
                            i as int,
                        );
                    }
                    return None;
                },
            }
            i += 1;
        }
        Some(output_box)
    }

    /// The scene's background at the height `t`.
    pub fn get_background(&self, t: Fixed) -> (c: Color)
        ensures
            c == spec_background(self.if_dark, t),
    {
        background(self.if_dark, t)
    }
}

impl BvhNode {
    /// The nearest hit of the ray below this node: none if the ray misses
    /// the node's box, else the nearer of the hits of the two children.
    pub fn hit(&self, ray: &Ray, t_min: Fixed, t_max: Fixed) -> (r: Option<HitRecord>)
        ensures
            r == (if self.cur_box.hit(ray, t_min, t_max) {
                spec_nearer(
                    self.left.spec_hit(ray, t_min, t_max),
                    self.right.spec_hit(ray, t_min, t_max),
                )
            } else {
                None
            }),
        decreases self,
    {
        match self.cur_box.hit(ray, t_min, t_max) {
            true => {
                let hit_left = self.left.hit(ray, t_min, t_max);
                let hit_right = self.right.hit(ray, t_min, t_max);
                match (hit_left, hit_right) {
                    (Some(hit_left), Some(hit_right)) => {
                        if hit_left.t < hit_right.t {
                            Some(hit_left)
                        } else {
                            Some(hit_right)
                        }
                    },
                    (Some(hit_left), None) => Some(hit_left),
                    (None, Some(hit_right)) => Some(hit_right),
                    (None, None) => None,
                }
            },
            false => None,
        }
    }

    /// The node's box.
    pub fn bounding_box(&self, _t0: Fixed, _t1: Fixed) -> (b: Option<AABB>)
        ensures
            b == Some(self.cur_box),
    {
        Some(self.cur_box)
    }

    /// The scene's background at the height `t`.
    pub fn get_background(&self, t: Fixed) -> (c: Color)
        ensures
            c == spec_background(self.if_dark, t),
    {
        background(self.if_dark, t)
    }
}

} // verus!
