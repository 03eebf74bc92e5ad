//! Building a bounding-volume hierarchy over a list of objects.

use vstd::prelude::*;
use vstd::seq_lib::{to_multiset_insert};
use std::sync::Arc;
use crate::aabb::{lemma_hit_is_monotone, surrounding_box};
use crate::aarect::lemma_rect_hit_is_steady;
use crate::sphere::lemma_sphere_hit_is_steady;
use crate::fixed::Fixed;
use crate::material::HitRecord;
use crate::object::{BvhNode, HittableList, Object, closest_so_far, has_valid_box, scan_hits, spec_nearer};
use crate::random::random_axis;
use crate::ray::Ray;

verus! {

/// The number by which an object is ordered along `axis`: the coordinate of
/// the minimum corner of its box.
pub open spec fn spec_key(ob: &Object, axis: usize) -> Fixed {
    match ob.spec_bounding_box() {
        Some(b) => b.min_p.get(axis),
        None => 0,
    }
}

/// Every object of the sequence has a box.
pub open spec fn all_boxed(objects: Seq<Arc<Object>>) -> bool {
    forall|i: int| 0 <= i < objects.len() ==> (#[trigger] objects[i]).spec_bounding_box() is Some
}

/// Where an object with the key `key` goes into the sorted sequence
/// `sorted`: behind the last object whose key is not greater.
pub open spec fn insertion_point(sorted: Seq<Arc<Object>>, key: Fixed, axis: usize) -> int
    decreases sorted.len(),
{
    if sorted.len() == 0 {
        0
    } else if spec_key(&sorted.last(), axis) <= key {
        sorted.len() as int
    } else {
        insertion_point(sorted.drop_last(), key, axis)
    }
}

/// The objects in the order of their keys along `axis`; objects with equal
/// keys keep the order that they had.
pub open spec fn sorted_by_axis(objects: Seq<Arc<Object>>, axis: usize) -> Seq<Arc<Object>>
    decreases objects.len(),
{
    if objects.len() == 0 {
        objects
    } else {
        let before = sorted_by_axis(objects.drop_last(), axis);
        before.insert(
            insertion_point(before, spec_key(&objects.last(), axis), axis),
            objects.last(),
        )
    }
}

/// The keys along `axis` do not decrease from the front of the sequence to
/// its back.
pub open spec fn ordered_by_axis(objects: Seq<Arc<Object>>, axis: usize) -> bool {
    forall|i: int, j: int|
        0 <= i <= j < objects.len() ==> spec_key(&objects[i], axis) <= spec_key(&objects[j], axis)
}

/// The insertion point lies within the sequence or at its end; the objects
/// before it have keys that are not greater than `key`, and in a sequence
/// that is in order the objects from it on have greater keys.
pub proof fn lemma_insertion_point(sorted: Seq<Arc<Object>>, key: Fixed, axis: usize)
    ensures
        0 <= insertion_point(sorted, key, axis) <= sorted.len(),
        ordered_by_axis(sorted, axis) ==> forall|i: int|
            0 <= i < insertion_point(sorted, key, axis) ==> spec_key(&sorted[i], axis) <= key,
        forall|i: int|
            insertion_point(sorted, key, axis) <= i < sorted.len() ==> spec_key(&sorted[i], axis)
                > key,
    decreases sorted.len(),
{
    if sorted.len() > 0 {
        lemma_insertion_point(sorted.drop_last(), key, axis);
        if spec_key(&sorted.last(), axis) <= key {
            if ordered_by_axis(sorted, axis) {
                assert forall|i: int| 0 <= i < sorted.len() implies spec_key(&sorted[i], axis)
                    <= key by {
                    assert(spec_key(&sorted[i], axis) <= spec_key(&sorted[sorted.len() - 1], axis));
                }
            }
        } else {
            let p = insertion_point(sorted.drop_last(), key, axis);
            if ordered_by_axis(sorted, axis) {
                assert forall|i: int, j: int| 0 <= i <= j < sorted.drop_last().len() implies spec_key(
                    &sorted.drop_last()[i],
                    axis,
                ) <= spec_key(&sorted.drop_last()[j], axis) by {
                    assert(sorted.drop_last()[i] == sorted[i]);
                    assert(sorted.drop_last()[j] == sorted[j]);
                }
                assert forall|i: int| 0 <= i < p implies spec_key(&sorted[i], axis) <= key by {
                    assert(sorted.drop_last()[i] == sorted[i]);
                }
            }
            assert forall|i: int| p <= i < sorted.len() implies spec_key(&sorted[i], axis)
                > key by {
                if i < sorted.len() - 1 {
                    assert(sorted.drop_last()[i] == sorted[i]);
                }
            }
        }
    }
}

/// Sorting keeps the objects, each as often as it occurred, and puts them in
/// the order of their keys.
pub proof fn lemma_sorted_by_axis(objects: Seq<Arc<Object>>, axis: usize)
    ensures
        sorted_by_axis(objects, axis).len() == objects.len(),
        sorted_by_axis(objects, axis).to_multiset() == objects.to_multiset(),
        ordered_by_axis(sorted_by_axis(objects, axis), axis),
    decreases objects.len(),
{
    if objects.len() > 0 {
        let before = sorted_by_axis(objects.drop_last(), axis);
        let x = objects.last();
        let key = spec_key(&x, axis);
        let p = insertion_point(before, key, axis);
        let after = before.insert(p, x);
        lemma_sorted_by_axis(objects.drop_last(), axis);
        lemma_insertion_point(before, key, axis);
        to_multiset_insert(before, p, x);
        assert(objects =~= objects.drop_last().push(x));
        objects.drop_last().to_multiset_ensures();
        assert(after.to_multiset() =~= objects.to_multiset());
        assert forall|i: int, j: int| 0 <= i <= j < after.len() implies spec_key(&after[i], axis)
            <= spec_key(&after[j], axis) by {
            let a = if i < p {
                before[i]
            } else if i == p {
                x
            } else {
                before[i - 1]
            };
            let b = if j < p {
                before[j]
            } else if j == p {
                x
            } else {
                before[j - 1]
            };
            assert(after[i] == a);
            assert(after[j] == b);
            if i < p && j > p {
                assert(spec_key(&before[i], axis) <= spec_key(&before[j - 1], axis));
            }
        }
    } else {
        assert(sorted_by_axis(objects, axis) =~= objects);
    }
}

/// A sequence with the same objects as one in which every object has a box
/// is one in which every object has a box.
pub proof fn lemma_all_boxed_permuted(a: Seq<Arc<Object>>, b: Seq<Arc<Object>>)
    requires
        all_boxed(a),
        a.to_multiset() == b.to_multiset(),
    ensures
        all_boxed(b),
{
    a.to_multiset_ensures();
    b.to_multiset_ensures();
    assert forall|i: int| 0 <= i < b.len() implies (#[trigger] b[i]).spec_bounding_box() is Some by {
        assert(b.contains(b[i]));
        assert(b.to_multiset().count(b[i]) > 0);
        assert(a.to_multiset().count(b[i]) > 0);
        assert(a.contains(b[i]));
        let k = choose|k: int| 0 <= k < a.len() && a[k] == b[i];
        assert(a[k].spec_bounding_box() is Some);
    }
}

/// The key of an object along `axis`.
fn key_of(ob: &Arc<Object>, axis: usize, time0: Fixed, time1: Fixed) -> (k: Fixed)
    requires
        axis < 3,
        ob.spec_bounding_box() is Some,
    ensures
        k == spec_key(ob, axis),
{
    ob.bounding_box(time0, time1).unwrap().min_p.get(axis)
}

/// Sorts the objects by the minimum corners of their boxes along `axis`.
/// Objects with equal keys keep their order.
pub fn sort_by_axis(objects: &mut Vec<Arc<Object>>, axis: usize, time0: Fixed, time1: Fixed)
    requires
        axis < 3,
        all_boxed(old(objects)@),
    ensures
        final(objects)@ == sorted_by_axis(old(objects)@, axis),
{
    let n = objects.len();
    let ghost orig = objects@;
    if n == 0 {
        return ;
    }
    assert(orig.subrange(0, 1).drop_last() =~= Seq::<Arc<Object>>::empty());
    assert(sorted_by_axis(orig.subrange(0, 1), axis) =~= orig.subrange(0, 1)) by {
        assert(sorted_by_axis(Seq::<Arc<Object>>::empty(), axis) =~= Seq::<Arc<Object>>::empty());
    }
    let mut i: usize = 1;
    while i < n
        invariant
            axis < 3,
            n == orig.len(),
            objects@.len() == n,
            1 <= i <= n,
            all_boxed(orig),
            objects@.subrange(0, i as int) == sorted_by_axis(orig.subrange(0, i as int), axis),
            objects@.subrange(i as int, n as int) == orig.subrange(i as int, n as int),
        decreases n - i,
    {
        let ghost cur = objects@;
        let ghost head = cur.subrange(0, i as int);
        proof {
            assert(cur[i as int] == cur.subrange(i as int, n as int)[0]);
            assert(orig[i as int] == orig.subrange(i as int, n as int)[0]);
            lemma_sorted_by_axis(orig.subrange(0, i as int), axis);
            orig.subrange(0, i as int).to_multiset_ensures();
            head.to_multiset_ensures();
            assert forall|k: int| 0 <= k < i implies (#[trigger] cur[k]).spec_bounding_box() is Some by {
                assert(head[k] == cur[k]);
                assert(head.contains(head[k]));
                assert(head.to_multiset().count(head[k]) > 0);
                assert(orig.subrange(0, i as int).to_multiset().count(head[k]) > 0);
                assert(orig.subrange(0, i as int).contains(head[k]));
                let m = choose|m: int|
                    0 <= m < i && orig.subrange(0, i as int)[m] == head[k];
                assert(orig[m] == head[k]);
            }
        }
        let key = key_of(&objects[i], axis, time0, time1);
        let mut p: usize = i;
        while p > 0 && key_of(&objects[p - 1], axis, time0, time1) > key
            invariant
                axis < 3,
                0 <= p <= i < n,
                objects@ == cur,
                cur.len() == n,
                head == cur.subrange(0, i as int),
                forall|k: int| 0 <= k < i ==> (#[trigger] cur[k]).spec_bounding_box() is Some,
                insertion_point(head, key, axis) == insertion_point(
                    cur.subrange(0, p as int),
                    key,
                    axis,
                ),
            decreases p,
        {
            proof {
                assert(cur.subrange(0, p as int).drop_last() =~= cur.subrange(0, p - 1));
                assert(cur.subrange(0, p as int).last() == cur[p - 1]);
            }
            p -= 1;
        }
        proof {
            if p > 0 {
                assert(cur.subrange(0, p as int).last() == cur[p - 1]);
            }
            assert(insertion_point(head, key, axis) == p);
        }
        let x = objects.remove(i);
        objects.insert(p, x);
        proof {
            let next = orig.subrange(0, i + 1);
            assert(next.drop_last() =~= orig.subrange(0, i as int));
            assert(next.last() == orig[i as int]);
            assert(objects@.subrange(0, i + 1) =~= head.insert(p as int, x));
            let tail = objects@.subrange(i + 1, n as int);
            assert(tail =~= orig.subrange(i + 1, n as int)) by {
                assert forall|k: int| 0 <= k < n - i - 1 implies #[trigger] tail[k] == orig[i + 1 + k] by {
                    assert(cur.subrange(i as int, n as int)[k + 1] == orig.subrange(
                        i as int,
                        n as int,
                    )[k + 1]);
                }
            }
        }
        i += 1;
    }
    proof {
        assert(objects@.subrange(0, n as int) =~= objects@);
        assert(orig.subrange(0, n as int) =~= orig);
    }
}

/// Whether `tree` is a hierarchy that `BvhNode::init` may build over
/// `objects` for a scene that is dark if `if_dark`. Over one object it is
/// that object. Over more it is a node: for one of the three axes, its left
/// child is such a hierarchy over the first half of the objects as sorted
/// along that axis (the smaller half, if their number is odd), its right
/// child one over the rest, and its box is the union of its children's boxes.
pub open spec fn is_hierarchy_over(tree: &Object, objects: Seq<Arc<Object>>, if_dark: bool) -> bool
    decreases tree,
{
    if objects.len() == 0 {
        false
    } else if objects.len() == 1 {
        *tree == *objects[0]
    } else {
        match tree {
            Object::Node(node) => {
                &&& node.if_dark == if_dark
                &&& node.left.spec_bounding_box() is Some
                &&& node.right.spec_bounding_box() is Some
                &&& node.cur_box == surrounding_box(
                    node.left.spec_bounding_box().unwrap(),
                    node.right.spec_bounding_box().unwrap(),
                )
                &&& exists|axis: usize|
                    {
                        &&& axis < 3
                        &&& is_hierarchy_over(
                            &node.left,
                            (#[trigger] sorted_by_axis(objects, axis)).subrange(
                                0,
                                objects.len() as int / 2,
                            ),
                            if_dark,
                        )
                        &&& is_hierarchy_over(
                            &node.right,
                            sorted_by_axis(objects, axis).subrange(
                                objects.len() as int / 2,
                                objects.len() as int,
                            ),
                            if_dark,
                        )
                    }
            },
            _ => false,
        }
    }
}

impl BvhNode {
    /// Builds the hierarchy over the objects of `list`.
    pub fn new_boxed(list: HittableList, time0: Fixed, time1: Fixed) -> (r: Arc<Object>)
        requires
            list.objects@.len() > 0,
            all_boxed(list.objects@),
        ensures
            is_hierarchy_over(&r, list.objects@, list.if_dark),
    {
        BvhNode::init(list.objects, time0, time1, list.if_dark)
    }

    /// Builds the hierarchy over `objects`: a single object stands for
    /// itself; more objects are sorted along an axis drawn at random, split
    /// in the middle, and put under a node whose children are the
    /// hierarchies over the two halves.
    pub fn init(mut objects: Vec<Arc<Object>>, time0: Fixed, time1: Fixed, if_dark: bool) -> (r:
        Arc<Object>)
        requires
            objects@.len() > 0,
            all_boxed(objects@),
        ensures
            is_hierarchy_over(&r, objects@, if_dark),
            r.spec_bounding_box() is Some,
        decreases objects@.len(),
    {
        let axis = random_axis();
        let ghost orig = objects@;
        if objects.len() == 1 {
            objects.remove(0)
        } else {
            sort_by_axis(&mut objects, axis, time0, time1);
            proof {
                lemma_sorted_by_axis(orig, axis);
                lemma_all_boxed_permuted(orig, objects@);
            }
            let ghost sorted = objects@;
            let mut left_objects = objects;
            let right_objects = left_objects.split_off(left_objects.len() / 2);
            let left = Self::init(left_objects, time0, time1, if_dark);
            let right = Self::init(right_objects, time0, time1, if_dark);
            let cur_box = surrounding_box(
                left.bounding_box(time0, time1).unwrap(),
                right.bounding_box(time0, time1).unwrap(),
            );
            let node = BvhNode { left, right, cur_box, if_dark };
            proof {
                assert(sorted == sorted_by_axis(orig, axis));
            }
            Arc::new(Object::Node(node))
        }
    }
}

/// Whether the box of the object catches the ray whenever the object does:
/// a ray that meets the object between `t_min` and `t_max` meets its box.
pub open spec fn box_catches(ob: &Object, ray: &Ray, t_min: Fixed, t_max: Fixed) -> bool {
    ob.spec_hit(ray, t_min, t_max) is Some ==> (ob.spec_bounding_box() matches Some(b) && b.hit(
        ray,
        t_min,
        t_max,
    ))
}

/// Whether the object answers alike when the interval is cut short: asked
/// for a hit between `t_min` and some `cut <= t_max`, it reports its hit
/// between `t_min` and `t_max` if that lies before `cut`, and none if it
/// lies beyond.
pub open spec fn answers_steadily(ob: &Object, ray: &Ray, t_min: Fixed, t_max: Fixed) -> bool {
    forall|cut: Fixed|
        cut <= t_max ==> match #[trigger] ob.spec_hit(ray, t_min, cut) {
            Some(rec) => ob.spec_hit(ray, t_min, t_max) == Some(rec) && rec.t <= cut,
            None => ob.spec_hit(ray, t_min, t_max) matches Some(rec) ==> rec.t >= cut,
        }
}

/// Whether `best` is a nearest hit of the ray on the first `n` objects: the
/// hit of one of them, with no hit of another at a smaller parameter; or
/// none, if the ray meets none of them.
pub open spec fn is_nearest_hit(
    objects: Seq<Arc<Object>>,
    n: int,
    ray: &Ray,
    t_min: Fixed,
    t_max: Fixed,
    best: Option<HitRecord>,
) -> bool {
    match best {
        None => forall|i: int|
            0 <= i < n ==> (#[trigger] objects[i]).spec_hit(ray, t_min, t_max) is None,
        Some(b) => {
            &&& exists|i: int|
                0 <= i < n && (#[trigger] objects[i]).spec_hit(ray, t_min, t_max) == Some(b)
            &&& forall|j: int|
                0 <= j < n ==> ((#[trigger] objects[j]).spec_hit(ray, t_min, t_max) matches Some(
                    rec,
                ) ==> b.t <= rec.t)
        },
    }
}

/// Whether no two of the objects are met by the ray at the same parameter
/// with different records.
pub open spec fn hits_do_not_tie(
    objects: Seq<Arc<Object>>,
    ray: &Ray,
    t_min: Fixed,
    t_max: Fixed,
) -> bool {
    forall|i: int, j: int|
        0 <= i < objects.len() && 0 <= j < objects.len() ==> match (
            (#[trigger] objects[i]).spec_hit(ray, t_min, t_max),
            (#[trigger] objects[j]).spec_hit(ray, t_min, t_max),
        ) {
            (Some(a), Some(b)) => a.t == b.t ==> a == b,
            _ => true,
        }
}

/// A scan of objects that answer steadily ends with a nearest hit.
pub proof fn lemma_scan_finds_nearest(
    objects: Seq<Arc<Object>>,
    n: nat,
    ray: &Ray,
    t_min: Fixed,
    t_max: Fixed,
)
    requires
        n <= objects.len(),
        forall|i: int|
            0 <= i < n ==> answers_steadily(&#[trigger] objects[i], ray, t_min, t_max),
    ensures
        is_nearest_hit(objects, n as int, ray, t_min, t_max, scan_hits(objects, n, ray, t_min, t_max)),
        scan_hits(objects, n, ray, t_min, t_max) matches Some(rec) ==> rec.t <= t_max,
    decreases n,
{
    if n > 0 {
        lemma_scan_finds_nearest(objects, (n - 1) as nat, ray, t_min, t_max);
        let before = scan_hits(objects, (n - 1) as nat, ray, t_min, t_max);
        let cut = closest_so_far(before, t_max);
        let last = objects[n - 1];
        let after = scan_hits(objects, n, ray, t_min, t_max);
        assert(answers_steadily(&last, ray, t_min, t_max));
        let cut_hit = last.spec_hit(ray, t_min, cut);
        let full_hit = last.spec_hit(ray, t_min, t_max);
        match cut_hit {
            Some(rec) => {
                assert(full_hit == Some(rec));
                assert(objects[n - 1].spec_hit(ray, t_min, t_max) == Some(rec));
                assert forall|j: int| 0 <= j < n implies ((#[trigger] objects[j]).spec_hit(
                    ray,
                    t_min,
                    t_max,
                ) matches Some(other) ==> rec.t <= other.t) by {
                    if j < n - 1 {
                        if before is None {
                            assert(objects[j].spec_hit(ray, t_min, t_max) is None);
                        }
                    }
                }
            },
            None => {
                match before {
                    Some(b) => {
                        let k = choose|k: int|
                            0 <= k < n - 1 && (#[trigger] objects[k]).spec_hit(ray, t_min, t_max)
                                == Some(b);
                        assert(objects[k].spec_hit(ray, t_min, t_max) == Some(b));
                    },
                    None => {
                        assert(cut == t_max);
                    },
                }
            },
        }
    }
}

/// A nearest hit on a sequence of objects is a nearest hit on any other
/// sequence of the same objects.
pub proof fn lemma_nearest_hit_permuted(
    a: Seq<Arc<Object>>,
    b: Seq<Arc<Object>>,
    ray: &Ray,
    t_min: Fixed,
    t_max: Fixed,
    best: Option<HitRecord>,
)
    requires
        a.to_multiset() == b.to_multiset(),
        is_nearest_hit(a, a.len() as int, ray, t_min, t_max, best),
    ensures
        is_nearest_hit(b, b.len() as int, ray, t_min, t_max, best),
{
    a.to_multiset_ensures();
    b.to_multiset_ensures();
    assert forall|j: int| 0 <= j < b.len() implies exists|k: int|
        0 <= k < a.len() && a[k] == #[trigger] b[j] by {
        assert(b.contains(b[j]));
        assert(b.to_multiset().count(b[j]) > 0);
        assert(a.to_multiset().count(b[j]) > 0);
        assert(a.contains(b[j]));
    }
    match best {
        None => {
            assert forall|j: int| 0 <= j < b.len() implies (#[trigger] b[j]).spec_hit(
                ray,
                t_min,
                t_max,
            ) is None by {
                let k = choose|k: int| 0 <= k < a.len() && a[k] == b[j];
                assert(a[k].spec_hit(ray, t_min, t_max) is None);
            }
        },
        Some(rec) => {
            let i = choose|i: int|
                0 <= i < a.len() && (#[trigger] a[i]).spec_hit(ray, t_min, t_max) == Some(rec);
            assert(a.contains(a[i]));
            assert(a.to_multiset().count(a[i]) > 0);
            assert(b.to_multiset().count(a[i]) > 0);
            assert(b.contains(a[i]));
            let m = choose|m: int| 0 <= m < b.len() && b[m] == a[i];
            assert(b[m].spec_hit(ray, t_min, t_max) == Some(rec));
            assert forall|j: int| 0 <= j < b.len() implies ((#[trigger] b[j]).spec_hit(
                ray,
                t_min,
                t_max,
            ) matches Some(other) ==> rec.t <= other.t) by {
                let k = choose|k: int| 0 <= k < a.len() && a[k] == b[j];
                assert(a[k].spec_hit(ray, t_min, t_max) == b[j].spec_hit(ray, t_min, t_max));
            }
        },
    }
}

/// The nearer of a nearest hit on the front part of a sequence and a
/// nearest hit on its back part is a nearest hit on the whole.
pub proof fn lemma_nearest_hit_joined(
    objects: Seq<Arc<Object>>,
    mid: int,
    ray: &Ray,
    t_min: Fixed,
    t_max: Fixed,
    front: Option<HitRecord>,
    back: Option<HitRecord>,
)
    requires
        0 <= mid <= objects.len(),
        is_nearest_hit(objects.subrange(0, mid), mid, ray, t_min, t_max, front),
        is_nearest_hit(
            objects.subrange(mid, objects.len() as int),
            objects.len() - mid,
            ray,
            t_min,
            t_max,
            back,
        ),
    ensures
        is_nearest_hit(
            objects,
            objects.len() as int,
            ray,
            t_min,
            t_max,
            spec_nearer(front, back),
        ),
{
    let n = objects.len() as int;
    let lo = objects.subrange(0, mid);
    let hi = objects.subrange(mid, n);
    assert forall|j: int| 0 <= j < n implies (#[trigger] objects[j]) == (if j < mid {
        lo[j]
    } else {
        hi[j - mid]
    }) by {}
    let best = spec_nearer(front, back);
    if front is Some {
        let i = choose|i: int|
            0 <= i < mid && (#[trigger] lo[i]).spec_hit(ray, t_min, t_max) == front;
        assert(objects[i].spec_hit(ray, t_min, t_max) == front);
    }
    if back is Some {
        let i = choose|i: int|
            0 <= i < n - mid && (#[trigger] hi[i]).spec_hit(ray, t_min, t_max) == back;
        assert(objects[i + mid].spec_hit(ray, t_min, t_max) == back);
    }
    match best {
        None => {
            assert forall|j: int| 0 <= j < n implies (#[trigger] objects[j]).spec_hit(
                ray,
                t_min,
                t_max,
            ) is None by {
                if j < mid {
                    assert(lo[j].spec_hit(ray, t_min, t_max) is None);
                } else {
                    assert(hi[j - mid].spec_hit(ray, t_min, t_max) is None);
                }
            }
        },
        Some(rec) => {
            assert forall|j: int| 0 <= j < n implies ((#[trigger] objects[j]).spec_hit(
                ray,
                t_min,
                t_max,
            ) matches Some(other) ==> rec.t <= other.t) by {
                if j < mid {
                    let h = lo[j].spec_hit(ray, t_min, t_max);
                    if h is Some {
                        assert(front is Some);
                    }
                } else {
                    let h = hi[j - mid].spec_hit(ray, t_min, t_max);
                    if h is Some {
                        assert(back is Some);
                    }
                }
            }
        },
    }
}

/// A hierarchy has a box, and that box contains the box of every object
/// that the hierarchy stands over.
pub proof fn lemma_hierarchy_box_covers(tree: &Object, objects: Seq<Arc<Object>>, if_dark: bool)
    requires
        is_hierarchy_over(tree, objects, if_dark),
        all_boxed(objects),
    ensures
        tree.spec_bounding_box() is Some,
        forall|i: int|
            0 <= i < objects.len() ==> tree.spec_bounding_box().unwrap().contains(
                (#[trigger] objects[i]).spec_bounding_box().unwrap(),
            ),
    decreases tree,
{
    if objects.len() == 1 {
        assert(objects[0].spec_bounding_box() is Some);
    } else {
        let node = tree->Node_0;
        let n = objects.len() as int;
        let mid = n / 2;
        let axis = choose|axis: usize|
            {
                &&& axis < 3
                &&& is_hierarchy_over(
                    &node.left,
                    (#[trigger] sorted_by_axis(objects, axis)).subrange(0, mid),
                    if_dark,
                )
                &&& is_hierarchy_over(
                    &node.right,
                    sorted_by_axis(objects, axis).subrange(mid, n),
                    if_dark,
                )
            };
        let sorted = sorted_by_axis(objects, axis);
        lemma_sorted_by_axis(objects, axis);
        lemma_all_boxed_permuted(objects, sorted);
        let lo = sorted.subrange(0, mid);
        let hi = sorted.subrange(mid, n);
        assert(all_boxed(lo)) by {
            assert forall|i: int| 0 <= i < lo.len() implies (#[trigger] lo[i]).spec_bounding_box() is Some by {
                assert(lo[i] == sorted[i]);
            }
        }
        assert(all_boxed(hi)) by {
            assert forall|i: int| 0 <= i < hi.len() implies (#[trigger] hi[i]).spec_bounding_box() is Some by {
                assert(hi[i] == sorted[i + mid]);
            }
        }
        lemma_hierarchy_box_covers(&node.left, lo, if_dark);
        lemma_hierarchy_box_covers(&node.right, hi, if_dark);
        let lb = node.left.spec_bounding_box().unwrap();
        let rb = node.right.spec_bounding_box().unwrap();
        sorted.to_multiset_ensures();
        objects.to_multiset_ensures();
        assert forall|i: int| 0 <= i < objects.len() implies node.cur_box.contains(
            (#[trigger] objects[i]).spec_bounding_box().unwrap(),
        ) by {
            assert(objects.contains(objects[i]));
            assert(objects.to_multiset().count(objects[i]) > 0);
            assert(sorted.to_multiset().count(objects[i]) > 0);
            assert(sorted.contains(objects[i]));
            let k = choose|k: int| 0 <= k < sorted.len() && sorted[k] == objects[i];
            if k < mid {
                assert(lo[k] == sorted[k]);
                assert(lb.contains(lo[k].spec_bounding_box().unwrap()));
            } else {
                assert(hi[k - mid] == sorted[k]);
                assert(rb.contains(hi[k - mid].spec_bounding_box().unwrap()));
            }
        }
    }
}

/// The box of a hierarchy over objects with valid boxes is valid.
pub proof fn lemma_hierarchy_box_is_valid(tree: &Object, objects: Seq<Arc<Object>>, if_dark: bool)
    requires
        is_hierarchy_over(tree, objects, if_dark),
        forall|i: int| 0 <= i < objects.len() ==> has_valid_box(&#[trigger] objects[i]),
    ensures
        has_valid_box(tree),
    decreases tree,
{
    if objects.len() == 1 {
        assert(has_valid_box(&objects[0]));
    } else {
        let node = tree->Node_0;
        let n = objects.len() as int;
        let mid = n / 2;
        let axis = choose|axis: usize|
            {
                &&& axis < 3
                &&& is_hierarchy_over(
                    &node.left,
                    (#[trigger] sorted_by_axis(objects, axis)).subrange(0, mid),
                    if_dark,
                )
                &&& is_hierarchy_over(
                    &node.right,
                    sorted_by_axis(objects, axis).subrange(mid, n),
                    if_dark,
                )
            };
        let sorted = sorted_by_axis(objects, axis);
        lemma_sorted_by_axis(objects, axis);
        let lo = sorted.subrange(0, mid);
        sorted.to_multiset_ensures();
        objects.to_multiset_ensures();
        assert forall|i: int| 0 <= i < lo.len() implies has_valid_box(&#[trigger] lo[i]) by {
            assert(lo[i] == sorted[i]);
            assert(sorted.contains(sorted[i]));
            assert(sorted.to_multiset().count(sorted[i]) > 0);
            assert(objects.to_multiset().count(sorted[i]) > 0);
            assert(objects.contains(sorted[i]));
            let k = choose|k: int| 0 <= k < objects.len() && objects[k] == sorted[i];
            assert(has_valid_box(&objects[k]));
        }
        lemma_hierarchy_box_is_valid(&node.left, lo, if_dark);
    }
}

/// Whether `found` is the hit of the ray on one of the objects.
pub open spec fn is_hit_of_one(
    objects: Seq<Arc<Object>>,
    ray: &Ray,
    t_min: Fixed,
    t_max: Fixed,
    found: HitRecord,
) -> bool {
    exists|i: int|
        0 <= i < objects.len() && (#[trigger] objects[i]).spec_hit(ray, t_min, t_max) == Some(found)
}

/// Whatever the boxes are like, a hit that a hierarchy reports is the hit
/// of one of the objects that it stands over.
pub proof fn lemma_hierarchy_reports_real_hits(
    tree: &Object,
    objects: Seq<Arc<Object>>,
    if_dark: bool,
    ray: &Ray,
    t_min: Fixed,
    t_max: Fixed,
)
    requires
        is_hierarchy_over(tree, objects, if_dark),
    ensures
        tree.spec_hit(ray, t_min, t_max) matches Some(rec) ==> is_hit_of_one(
            objects,
            ray,
            t_min,
            t_max,
            rec,
        ),
    decreases tree,
{
    if objects.len() == 1 {
        assert(objects[0].spec_hit(ray, t_min, t_max) == tree.spec_hit(ray, t_min, t_max));
    } else if tree.spec_hit(ray, t_min, t_max) is Some {
        let rec = tree.spec_hit(ray, t_min, t_max).unwrap();
        let node = tree->Node_0;
        let n = objects.len() as int;
        let mid = n / 2;
        let axis = choose|axis: usize|
            {
                &&& axis < 3
                &&& is_hierarchy_over(
                    &node.left,
                    (#[trigger] sorted_by_axis(objects, axis)).subrange(0, mid),
                    if_dark,
                )
                &&& is_hierarchy_over(
                    &node.right,
                    sorted_by_axis(objects, axis).subrange(mid, n),
                    if_dark,
                )
            };
        let sorted = sorted_by_axis(objects, axis);
        lemma_sorted_by_axis(objects, axis);
        let lo = sorted.subrange(0, mid);
        let hi = sorted.subrange(mid, n);
        lemma_hierarchy_reports_real_hits(&node.left, lo, if_dark, ray, t_min, t_max);
        lemma_hierarchy_reports_real_hits(&node.right, hi, if_dark, ray, t_min, t_max);
        // the hit is that of an object of one half, hence of the sorted objects
        let k: int = if node.left.spec_hit(ray, t_min, t_max) == Some(rec) {
            choose|i: int|
                0 <= i < lo.len() && (#[trigger] lo[i]).spec_hit(ray, t_min, t_max) == Some(rec)
        } else {
            mid + choose|i: int|
                0 <= i < hi.len() && (#[trigger] hi[i]).spec_hit(ray, t_min, t_max) == Some(rec)
        };
        assert(0 <= k < n && sorted[k].spec_hit(ray, t_min, t_max) == Some(rec)) by {
            if node.left.spec_hit(ray, t_min, t_max) == Some(rec) {
                assert(lo[k] == sorted[k]);
            } else {
                assert(hi[k - mid] == sorted[k]);
            }
        }
        sorted.to_multiset_ensures();
        objects.to_multiset_ensures();
        assert(sorted.contains(sorted[k]));
        assert(sorted.to_multiset().count(sorted[k]) > 0);
        assert(objects.to_multiset().count(sorted[k]) > 0);
        assert(objects.contains(sorted[k]));
        let i = choose|i: int| 0 <= i < objects.len() && objects[i] == sorted[k];
        assert(objects[i].spec_hit(ray, t_min, t_max) == Some(rec));
    }
}

/// A hierarchy answers with a nearest hit on the objects that it stands
/// over, for a ray that the box of each of them catches.
pub proof fn lemma_hierarchy_finds_nearest(
    tree: &Object,
    objects: Seq<Arc<Object>>,
    if_dark: bool,
    ray: &Ray,
    t_min: Fixed,
    t_max: Fixed,
)
    requires
        is_hierarchy_over(tree, objects, if_dark),
        all_boxed(objects),
        forall|i: int|
            0 <= i < objects.len() ==> box_catches(&#[trigger] objects[i], ray, t_min, t_max),
    ensures
        is_nearest_hit(
            objects,
            objects.len() as int,
            ray,
            t_min,
            t_max,
            tree.spec_hit(ray, t_min, t_max),
        ),
    decreases tree,
{
    if objects.len() == 1 {
        assert(objects[0].spec_hit(ray, t_min, t_max) == tree.spec_hit(ray, t_min, t_max));
    } else {
        let node = tree->Node_0;
        let n = objects.len() as int;
        let mid = n / 2;
        let axis = choose|axis: usize|
            {
                &&& axis < 3
                &&& is_hierarchy_over(
                    &node.left,
                    (#[trigger] sorted_by_axis(objects, axis)).subrange(0, mid),
                    if_dark,
                )
                &&& is_hierarchy_over(
                    &node.right,
                    sorted_by_axis(objects, axis).subrange(mid, n),
                    if_dark,
                )
            };
        let sorted = sorted_by_axis(objects, axis);
        lemma_sorted_by_axis(objects, axis);
        lemma_all_boxed_permuted(objects, sorted);
        lemma_hierarchy_box_covers(tree, objects, if_dark);
        if node.cur_box.hit(ray, t_min, t_max) {
            let lo = sorted.subrange(0, mid);
            let hi = sorted.subrange(mid, n);
            sorted.to_multiset_ensures();
            objects.to_multiset_ensures();
            assert forall|k: int| 0 <= k < sorted.len() implies box_catches(
                &#[trigger] sorted[k],
                ray,
                t_min,
                t_max,
            ) by {
                assert(sorted.contains(sorted[k]));
                assert(sorted.to_multiset().count(sorted[k]) > 0);
                assert(objects.to_multiset().count(sorted[k]) > 0);
                assert(objects.contains(sorted[k]));
                let i = choose|i: int| 0 <= i < objects.len() && objects[i] == sorted[k];
                assert(box_catches(&objects[i], ray, t_min, t_max));
            }
            assert(all_boxed(lo) && forall|i: int|
                0 <= i < lo.len() ==> box_catches(&#[trigger] lo[i], ray, t_min, t_max)) by {
                assert forall|i: int| 0 <= i < lo.len() implies (#[trigger] lo[i]).spec_bounding_box() is Some
                    && box_catches(&lo[i], ray, t_min, t_max) by {
                    assert(lo[i] == sorted[i]);
                }
            }
            assert(all_boxed(hi) && forall|i: int|
                0 <= i < hi.len() ==> box_catches(&#[trigger] hi[i], ray, t_min, t_max)) by {
                assert forall|i: int| 0 <= i < hi.len() implies (#[trigger] hi[i]).spec_bounding_box() is Some
                    && box_catches(&hi[i], ray, t_min, t_max) by {
                    assert(hi[i] == sorted[i + mid]);
                }
            }
            lemma_hierarchy_finds_nearest(&node.left, lo, if_dark, ray, t_min, t_max);
            lemma_hierarchy_finds_nearest(&node.right, hi, if_dark, ray, t_min, t_max);
            lemma_nearest_hit_joined(
                sorted,
                mid,
                ray,
                t_min,
                t_max,
                node.left.spec_hit(ray, t_min, t_max),
                node.right.spec_hit(ray, t_min, t_max),
            );
            lemma_nearest_hit_permuted(
                sorted,
                objects,
                ray,
                t_min,
                t_max,
                tree.spec_hit(ray, t_min, t_max),
            );
        } else {
            assert forall|i: int| 0 <= i < objects.len() implies (#[trigger] objects[i]).spec_hit(
                ray,
                t_min,
                t_max,
            ) is None by {
                let b = objects[i].spec_bounding_box().unwrap();
                assert(box_catches(&objects[i], ray, t_min, t_max));
                if b.hit(ray, t_min, t_max) {
                    lemma_hit_is_monotone(b, node.cur_box, *ray, t_min, t_max);
                }
            }
        }
    }
}

/// Whether the object is a single shape: a sphere or a rectangle.
pub open spec fn is_shape(ob: &Object) -> bool {
    ob is Sphere || ob is Rect
}

/// Spheres and rectangles answer steadily.
pub proof fn lemma_shapes_answer_steadily(ob: &Object, ray: &Ray, t_min: Fixed, t_max: Fixed)
    requires
        is_shape(ob),
    ensures
        answers_steadily(ob, ray, t_min, t_max),
{
    assert forall|cut: Fixed| cut <= t_max implies match #[trigger] ob.spec_hit(ray, t_min, cut) {
        Some(rec) => ob.spec_hit(ray, t_min, t_max) == Some(rec) && rec.t <= cut,
        None => ob.spec_hit(ray, t_min, t_max) matches Some(rec) ==> rec.t >= cut,
    } by {
        match ob {
            Object::Sphere(s) => lemma_sphere_hit_is_steady(s, ray, t_min, t_max, cut),
            Object::Rect(r) => lemma_rect_hit_is_steady(r, ray, t_min, t_max, cut),
            _ => {},
        }
    }
}

/// A hierarchy built over a set of objects answers as a scan of the list of
/// those objects does: for any ray and interval, both report no hit or both
/// report a hit at the same parameter, and the very same hit where no two
/// objects tie. This holds for a ray that the box of each object catches,
/// on objects that answer steadily.
pub proof fn lemma_hierarchy_matches_scan(
    tree: &Object,
    objects: Seq<Arc<Object>>,
    if_dark: bool,
    ray: &Ray,
    t_min: Fixed,
    t_max: Fixed,
)
    requires
        is_hierarchy_over(tree, objects, if_dark),
        all_boxed(objects),
        forall|i: int|
            0 <= i < objects.len() ==> box_catches(&#[trigger] objects[i], ray, t_min, t_max),
        forall|i: int|
            0 <= i < objects.len() ==> answers_steadily(&#[trigger] objects[i], ray, t_min, t_max),
    ensures
        tree.spec_hit(ray, t_min, t_max) is None <==> scan_hits(
            objects,
            objects.len(),
            ray,
            t_min,
            t_max,
        ) is None,
        tree.spec_hit(ray, t_min, t_max) is Some ==> tree.spec_hit(ray, t_min, t_max).unwrap().t
            == scan_hits(objects, objects.len(), ray, t_min, t_max).unwrap().t,
        hits_do_not_tie(objects, ray, t_min, t_max) ==> tree.spec_hit(ray, t_min, t_max)
            == scan_hits(objects, objects.len(), ray, t_min, t_max),
{
    let a = tree.spec_hit(ray, t_min, t_max);
    let b = scan_hits(objects, objects.len(), ray, t_min, t_max);
    lemma_hierarchy_finds_nearest(tree, objects, if_dark, ray, t_min, t_max);
    lemma_scan_finds_nearest(objects, objects.len(), ray, t_min, t_max);
    let n = objects.len() as int;
    if a is Some {
        let i = choose|i: int|
            0 <= i < n && (#[trigger] objects[i]).spec_hit(ray, t_min, t_max) == a;
        assert(objects[i].spec_hit(ray, t_min, t_max) is Some);
        assert(b is Some);
        let j = choose|j: int|
            0 <= j < n && (#[trigger] objects[j]).spec_hit(ray, t_min, t_max) == b;
        assert(a.unwrap().t <= b.unwrap().t);
        assert(b.unwrap().t <= a.unwrap().t);
    } else if b is Some {
        let j = choose|j: int|
            0 <= j < n && (#[trigger] objects[j]).spec_hit(ray, t_min, t_max) == b;
        assert(objects[j].spec_hit(ray, t_min, t_max) is None);
    }
}

/// Whatever the boxes are like, a hierarchy over spheres and rectangles
/// reports no hit that a scan of the list of them does not report as near
/// or nearer.
pub proof fn lemma_scan_is_never_farther(
    tree: &Object,
    objects: Seq<Arc<Object>>,
    if_dark: bool,
    ray: &Ray,
    t_min: Fixed,
    t_max: Fixed,
)
    requires
        is_hierarchy_over(tree, objects, if_dark),
        forall|i: int| 0 <= i < objects.len() ==> is_shape(&#[trigger] objects[i]),
    ensures
        tree.spec_hit(ray, t_min, t_max) matches Some(rec) ==> {
            &&& is_hit_of_one(objects, ray, t_min, t_max, rec)
            &&& scan_hits(objects, objects.len(), ray, t_min, t_max) matches Some(nearest)
                && nearest.t <= rec.t
        },
{
    lemma_hierarchy_reports_real_hits(tree, objects, if_dark, ray, t_min, t_max);
    assert forall|i: int| 0 <= i < objects.len() implies answers_steadily(
        &#[trigger] objects[i],
        ray,
        t_min,
        t_max,
    ) by {
        lemma_shapes_answer_steadily(&objects[i], ray, t_min, t_max);
    }
    lemma_scan_finds_nearest(objects, objects.len(), ray, t_min, t_max);
    if tree.spec_hit(ray, t_min, t_max) is Some {
        let rec = tree.spec_hit(ray, t_min, t_max).unwrap();
        let i = choose|i: int|
            0 <= i < objects.len() && (#[trigger] objects[i]).spec_hit(ray, t_min, t_max) == Some(
                rec,
            );
        assert(objects[i].spec_hit(ray, t_min, t_max) is Some);
    }
}

/// A hierarchy built over spheres and rectangles answers as a scan of the
/// list of them does, for a ray that the box of each of them catches.
pub proof fn lemma_hierarchy_of_shapes_matches_scan(
    tree: &Object,
    objects: Seq<Arc<Object>>,
    if_dark: bool,
    ray: &Ray,
    t_min: Fixed,
    t_max: Fixed,
)
    requires
        is_hierarchy_over(tree, objects, if_dark),
        forall|i: int|
            0 <= i < objects.len() ==> is_shape(&#[trigger] objects[i]),
        forall|i: int|
            0 <= i < objects.len() ==> box_catches(&#[trigger] objects[i], ray, t_min, t_max),
    ensures
        tree.spec_hit(ray, t_min, t_max) is None <==> scan_hits(
            objects,
            objects.len(),
            ray,
            t_min,
            t_max,
        ) is None,
        tree.spec_hit(ray, t_min, t_max) is Some ==> tree.spec_hit(ray, t_min, t_max).unwrap().t
            == scan_hits(objects, objects.len(), ray, t_min, t_max).unwrap().t,
        hits_do_not_tie(objects, ray, t_min, t_max) ==> tree.spec_hit(ray, t_min, t_max)
            == scan_hits(objects, objects.len(), ray, t_min, t_max),
{
    assert forall|i: int| 0 <= i < objects.len() implies answers_steadily(
        &#[trigger] objects[i],
        ray,
        t_min,
        t_max,
    ) && objects[i].spec_bounding_box() is Some by {
        lemma_shapes_answer_steadily(&objects[i], ray, t_min, t_max);
    }
    lemma_hierarchy_matches_scan(tree, objects, if_dark, ray, t_min, t_max);
}

} // verus!
