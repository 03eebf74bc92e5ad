use raytracer::aabb::surrounding_box;
use raytracer::aarect::XYrect;
use raytracer::bvh::sort_by_axis;
use raytracer::fixed::{Fixed, INFINITY, ONE};
use raytracer::material::{Dielectric, Lambertian, Material};
use raytracer::object::{BvhNode, HittableList, Object};
use raytracer::ray::Ray;
use raytracer::sphere::Sphere;
use raytracer::vec3::{Color, Point3, Vec3};
use std::sync::Arc;

fn fx(v: f64) -> Fixed {
    (v * 4294967296.0).round() as i64
}

fn point(x: f64, y: f64, z: f64) -> Point3 {
    Vec3::new(fx(x), fx(y), fx(z))
}

struct Numbers {
    state: u64,
}

impl Numbers {
    fn next(&mut self) -> f64 {
        self.state = self.state.wrapping_mul(6364136223846793005).wrapping_add(1442695040888963407);
        ((self.state >> 11) as f64) / ((1u64 << 53) as f64)
    }

    fn between(&mut self, lo: f64, hi: f64) -> f64 {
        lo + (hi - lo) * self.next()
    }
}

fn material(k: usize) -> Arc<Material> {
    if k % 2 == 0 {
        Arc::new(Material::Lambertian(Lambertian::new(&Color::new(ONE / 2, ONE / 3, ONE / 4))))
    } else {
        Arc::new(Material::Dielectric(Dielectric::new(fx(1.5))))
    }
}

fn scattered_spheres(n: usize, seed: u64) -> Vec<Arc<Object>> {
    let mut numbers = Numbers { state: seed };
    let mut out = Vec::new();
    for k in 0..n {
        let c = point(
            numbers.between(-10.0, 10.0),
            numbers.between(-10.0, 10.0),
            numbers.between(-10.0, 10.0),
        );
        let r = fx(numbers.between(0.2, 1.5));
        out.push(Arc::new(Object::Sphere(Sphere::new(c, r, material(k)))));
    }
    out
}

fn list_of(objects: &Vec<Arc<Object>>, if_dark: bool) -> HittableList {
    let mut list = HittableList::new(if_dark);
    for ob in objects.iter() {
        list.push(Arc::clone(ob));
    }
    list
}

fn leaves(tree: &Arc<Object>, out: &mut Vec<Arc<Object>>) {
    match &**tree {
        Object::Node(node) => {
            leaves(&node.left, out);
            leaves(&node.right, out);
        }
        _ => out.push(Arc::clone(tree)),
    }
}

fn check_node(tree: &Arc<Object>, if_dark: bool) -> usize {
    match &**tree {
        Object::Node(node) => {
            let l = check_node(&node.left, if_dark);
            let r = check_node(&node.right, if_dark);
            // the halves differ by one at most, the left one is the smaller
            assert!(l == r || l + 1 == r);
            assert_eq!(node.if_dark, if_dark);
            let lb = node.left.bounding_box(0, 0).unwrap();
            let rb = node.right.bounding_box(0, 0).unwrap();
            assert_eq!(node.cur_box, surrounding_box(lb, rb));
            assert_eq!(tree.bounding_box(0, 0).unwrap(), node.cur_box);
            // along one axis at least, everything left lies before everything right
            let mut left = Vec::new();
            let mut right = Vec::new();
            leaves(&node.left, &mut left);
            leaves(&node.right, &mut right);
            let mut split = false;
            for axis in 0..3 {
                let hi = left.iter().map(|o| o.bounding_box(0, 0).unwrap().min_p.get(axis)).max();
                let lo = right.iter().map(|o| o.bounding_box(0, 0).unwrap().min_p.get(axis)).min();
                if hi <= lo {
                    split = true;
                }
            }
            assert!(split);
            l + r
        }
        _ => 1,
    }
}

#[test]
fn hierarchy_over_one_object_is_that_object() {
    let objects = scattered_spheres(1, 7);
    let tree = BvhNode::new_boxed(list_of(&objects, true), 0, ONE);
    assert!(Arc::ptr_eq(&tree, &objects[0]));
    let tree = BvhNode::init(vec![Arc::clone(&objects[0])], 0, ONE, false);
    assert!(Arc::ptr_eq(&tree, &objects[0]));
}

#[test]
fn hierarchy_over_two_objects_is_one_node() {
    let objects = scattered_spheres(2, 11);
    let tree = BvhNode::new_boxed(list_of(&objects, false), 0, ONE);
    match &*tree {
        Object::Node(node) => {
            assert!(!node.if_dark);
            let same = Arc::ptr_eq(&node.left, &objects[0]) && Arc::ptr_eq(&node.right, &objects[1]);
            let swapped = Arc::ptr_eq(&node.left, &objects[1]) && Arc::ptr_eq(&node.right, &objects[0]);
            assert!(same || swapped);
        }
        _ => panic!("two objects need a node"),
    }
}

#[test]
fn hierarchy_keeps_every_object_once() {
    for n in [1usize, 2, 3, 4, 5, 8, 13, 64, 100] {
        let objects = scattered_spheres(n, 1000 + n as u64);
        let tree = BvhNode::new_boxed(list_of(&objects, true), 0, ONE);
        assert_eq!(check_node(&tree, true), n);
        let mut found = Vec::new();
        leaves(&tree, &mut found);
        assert_eq!(found.len(), n);
        for ob in objects.iter() {
            assert_eq!(found.iter().filter(|f| Arc::ptr_eq(f, ob)).count(), 1);
        }
    }
}

#[test]
fn hierarchy_box_is_the_box_of_the_list() {
    let objects = scattered_spheres(40, 5);
    let list = list_of(&objects, true);
    let whole = list.bounding_box(0, 0).unwrap();
    let tree = BvhNode::new_boxed(list, 0, ONE);
    assert_eq!(tree.bounding_box(0, 0).unwrap(), whole);
}

#[test]
fn hierarchy_answers_as_the_list_does() {
    let objects = scattered_spheres(60, 2024);
    let list = list_of(&objects, true);
    let tree = BvhNode::new_boxed(list_of(&objects, true), 0, ONE);
    let mut numbers = Numbers { state: 99 };
    let mut hits = 0;
    let mut misses = 0;
    for _ in 0..3000 {
        let origin = point(
            numbers.between(-15.0, 15.0),
            numbers.between(-15.0, 15.0),
            numbers.between(-15.0, 15.0),
        );
        let dir = point(
            numbers.between(-1.0, 1.0),
            numbers.between(-1.0, 1.0),
            numbers.between(-1.0, 1.0),
        );
        let ray = Ray::new(origin, dir);
        for (t_min, t_max) in [(fx(0.001), INFINITY), (0, fx(12.5)), (fx(3.0), fx(20.0))] {
            let a = tree.hit(&ray, t_min, t_max);
            let b = list.hit(&ray, t_min, t_max);
            match (a, b) {
                (Some(a), Some(b)) => {
                    assert_eq!(a.t, b.t);
                    assert_eq!(a.p, b.p);
                    assert_eq!(a.normal, b.normal);
                    assert_eq!(a.front_face, b.front_face);
                    assert!(Arc::ptr_eq(&a.mat_ptr, &b.mat_ptr));
                    hits += 1;
                }
                (None, None) => misses += 1,
                (a, b) => panic!(
                    "the hierarchy says {:?} and the list {:?}",
                    a.map(|r| r.t),
                    b.map(|r| r.t)
                ),
            }
        }
    }
    assert!(hits > 100);
    assert!(misses > 100);
}

#[test]
fn hierarchy_of_mixed_shapes_answers_as_the_list_does() {
    let mut objects = scattered_spheres(20, 77);
    let mut numbers = Numbers { state: 123 };
    for k in 0..20 {
        let x0 = numbers.between(-10.0, 8.0);
        let y0 = numbers.between(-10.0, 8.0);
        let rect = XYrect::new(
            fx(x0),
            fx(x0 + numbers.between(0.5, 3.0)),
            fx(y0),
            fx(y0 + numbers.between(0.5, 3.0)),
            fx(numbers.between(-10.0, 10.0)),
            material(k),
        );
        objects.push(Arc::new(Object::Rect(rect)));
    }
    let list = list_of(&objects, false);
    let tree = BvhNode::init(objects, 0, ONE, false);
    let mut hits = 0;
    for _ in 0..3000 {
        let origin = point(
            numbers.between(-12.0, 12.0),
            numbers.between(-12.0, 12.0),
            numbers.between(-12.0, 12.0),
        );
        let dir = point(
            numbers.between(-1.0, 1.0),
            numbers.between(-1.0, 1.0),
            numbers.between(-1.0, 1.0),
        );
        let ray = Ray::new(origin, dir);
        let a = tree.hit(&ray, fx(0.001), INFINITY);
        let b = list.hit(&ray, fx(0.001), INFINITY);
        assert_eq!(a.is_some(), b.is_some());
        if let (Some(a), Some(b)) = (a, b) {
            assert_eq!(a.t, b.t);
            assert_eq!(a.p, b.p);
            assert!(Arc::ptr_eq(&a.mat_ptr, &b.mat_ptr));
            hits += 1;
        }
    }
    assert!(hits > 100);
    assert_eq!(tree.get_background(0), Vec3::ones());
}

#[test]
fn sorting_orders_by_the_minimum_corner_and_keeps_ties_in_place() {
    let m = material(0);
    let at = |x: f64, y: f64, z: f64, r: f64| {
        Arc::new(Object::Sphere(Sphere::new(point(x, y, z), fx(r), Arc::clone(&m))))
    };
    let objects = vec![
        at(5.0, 0.0, 2.0, 1.0),
        at(1.0, 3.0, 2.0, 1.0),
        at(3.0, -2.0, 9.0, 1.0),
        at(1.0, 7.0, -4.0, 1.0),
        at(0.0, 3.0, 0.0, 2.0),
    ];
    let order = |sorted: &Vec<Arc<Object>>| -> Vec<usize> {
        sorted
            .iter()
            .map(|s| objects.iter().position(|o| Arc::ptr_eq(o, s)).unwrap())
            .collect()
    };
    let mut by_x = objects.clone();
    sort_by_axis(&mut by_x, 0, 0, ONE);
    // minimum corners on x: 4, 0, 2, 0, -2; the two zeros keep their order
    assert_eq!(order(&by_x), vec![4, 1, 3, 2, 0]);
    let mut by_y = objects.clone();
    sort_by_axis(&mut by_y, 1, 0, ONE);
    // on y: -1, 2, -3, 6, 1
    assert_eq!(order(&by_y), vec![2, 0, 4, 1, 3]);
    let mut by_z = objects.clone();
    sort_by_axis(&mut by_z, 2, 0, ONE);
    // on z: 1, 1, 8, -5, -2
    assert_eq!(order(&by_z), vec![3, 4, 0, 1, 2]);
    let mut none: Vec<Arc<Object>> = Vec::new();
    sort_by_axis(&mut none, 0, 0, ONE);
    assert!(none.is_empty());
}
