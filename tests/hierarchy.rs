use simple_rpt::aabb::{Aabb, Axis, Point3};
use simple_rpt::bvh::BvhNode;
use simple_rpt::interval::Interval;
use simple_rpt::order::{bits_of_key, key_of_bits};
use simple_rpt::scene::Scene;

fn k(x: f32) -> i32 {
    key_of_bits(x.to_bits())
}

fn f(key: i32) -> f32 {
    f32::from_bits(bits_of_key(key))
}

fn cube(c: [f32; 3], r: f32) -> Aabb {
    Aabb::new(
        Point3::new(k(c[0] - r), k(c[1] - r), k(c[2] - r)),
        Point3::new(k(c[0] + r), k(c[1] + r), k(c[2] + r)),
    )
}

fn longest_axis(b: Aabb) -> Axis {
    let dx = f(b.max.x) - f(b.min.x);
    let dy = f(b.max.y) - f(b.min.y);
    let dz = f(b.max.z) - f(b.min.z);
    if dx >= dy && dx >= dz {
        Axis::X
    } else if dy >= dz {
        Axis::Y
    } else {
        Axis::Z
    }
}

fn leaves(n: &BvhNode, out: &mut Vec<usize>) {
    match n {
        BvhNode::Leaf { object, .. } => out.push(*object),
        BvhNode::Node { left, right, .. } => {
            leaves(left, out);
            leaves(right, out);
        }
    }
}

fn count(n: &BvhNode) -> usize {
    let mut v = Vec::new();
    leaves(n, &mut v);
    v.len()
}

/// Checks the stored boxes and the halving of every inner node.
fn check_shape(n: &BvhNode, boxes: &[Aabb]) {
    match n {
        BvhNode::Leaf { object, bbox } => assert_eq!(*bbox, boxes[*object]),
        BvhNode::Node { left, right, bbox } => {
            assert_eq!(*bbox, Aabb::surrounding_box(&left.bbox(), &right.bbox()));
            let (l, r) = (count(left), count(right));
            assert_eq!(l, (l + r) / 2);
            check_shape(left, boxes);
            check_shape(right, boxes);
        }
    }
}

fn row_of_cubes(n: usize) -> Vec<Aabb> {
    // deliberately out of order along x
    (0..n).map(|i| cube([((i * 7) % n) as f32 * 2.0, 0.0, 0.0], 0.5)).collect()
}

#[test]
fn single_object_is_a_leaf() {
    let boxes = vec![cube([1.0, 2.0, 3.0], 1.0)];
    let t = BvhNode::build(&boxes, longest_axis);
    match t {
        BvhNode::Leaf { object, bbox } => {
            assert_eq!(object, 0);
            assert_eq!(bbox, boxes[0]);
        }
        _ => panic!("expected a leaf"),
    }
}

#[test]
fn two_objects_split_one_and_one_in_axis_order() {
    let boxes = vec![cube([5.0, 0.0, 0.0], 1.0), cube([-5.0, 0.0, 0.0], 1.0)];
    let t = BvhNode::build(&boxes, longest_axis);
    match &t {
        BvhNode::Node { left, right, bbox } => {
            let mut l = Vec::new();
            leaves(left, &mut l);
            let mut r = Vec::new();
            leaves(right, &mut r);
            assert_eq!(l, vec![1]);
            assert_eq!(r, vec![0]);
            assert_eq!(*bbox, Aabb::surrounding_box(&boxes[0], &boxes[1]));
        }
        _ => panic!("expected an inner node"),
    }
}

#[test]
fn leaves_hold_every_object_once() {
    let boxes = row_of_cubes(13);
    let t = BvhNode::build(&boxes, longest_axis);
    let mut l = Vec::new();
    leaves(&t, &mut l);
    // sorted along x, the leaves come out in x order
    let mut expect: Vec<usize> = (0..13).collect();
    expect.sort_by(|a, b| f(boxes[*a].min.x).partial_cmp(&f(boxes[*b].min.x)).unwrap());
    assert_eq!(l, expect);
    check_shape(&t, &boxes);
}

#[test]
fn root_box_is_union_of_all() {
    let boxes = vec![
        cube([0.0, 0.0, 0.0], 1.0),
        cube([3.0, -4.0, 2.0], 0.5),
        cube([-2.0, 6.0, 1.0], 2.0),
        cube([1.0, 1.0, -9.0], 0.25),
        cube([0.5, 0.5, 0.5], 0.1),
    ];
    let t = BvhNode::build(&boxes, longest_axis);
    let mut all = boxes[0];
    for b in &boxes[1..] {
        all = Aabb::surrounding_box(&all, b);
    }
    assert_eq!(t.bbox(), all);
    assert_eq!(all, Aabb::new(Point3::new(k(-4.0), k(-4.5), k(-9.25)), Point3::new(k(3.5), k(8.0), k(3.0))));
    check_shape(&t, &boxes);
}

#[test]
fn splits_along_longest_axis() {
    // spread along z: the root splits by z
    let boxes: Vec<Aabb> = (0..4).map(|i| cube([0.0, 0.0, (3 - i) as f32 * 10.0], 1.0)).collect();
    let t = BvhNode::build(&boxes, longest_axis);
    match &t {
        BvhNode::Node { left, right, .. } => {
            let mut l = Vec::new();
            leaves(left, &mut l);
            let mut r = Vec::new();
            leaves(right, &mut r);
            l.sort();
            r.sort();
            assert_eq!(l, vec![2, 3]);
            assert_eq!(r, vec![0, 1]);
        }
        _ => panic!("expected an inner node"),
    }
}

#[test]
fn rebuild_gives_same_leaves_and_box() {
    let objs: Vec<usize> = (0..9).collect();
    let boxes = row_of_cubes(9);
    let mut scene: Scene<usize> = Scene::new();
    scene.add_list(objs);
    scene.build_bvh(|o: &usize| boxes[*o], longest_axis);
    let mut first = Vec::new();
    leaves(scene.bvh().as_ref().unwrap(), &mut first);
    let first_box = scene.bvh().as_ref().unwrap().bbox();
    scene.build_bvh(|o: &usize| boxes[*o], longest_axis);
    let mut second = Vec::new();
    leaves(scene.bvh().as_ref().unwrap(), &mut second);
    assert_eq!(first, second);
    assert_eq!(first_box, scene.bvh().as_ref().unwrap().bbox());
    let mut sorted = second.clone();
    sorted.sort();
    assert_eq!(sorted, (0..9).collect::<Vec<usize>>());
}

#[test]
fn adding_drops_the_cached_hierarchy() {
    let boxes = row_of_cubes(3);
    let mut scene: Scene<usize> = Scene::new();
    assert!(scene.objects().is_empty());
    scene.add(0);
    scene.add(1);
    scene.build_bvh(|o: &usize| boxes[*o], longest_axis);
    assert!(scene.bvh().is_some());
    scene.add(2);
    assert!(scene.bvh().is_none());
    assert_eq!(scene.objects(), &vec![0, 1, 2]);
    scene.build_bvh(|o: &usize| boxes[*o], longest_axis);
    assert_eq!(count(scene.bvh().as_ref().unwrap()), 3);
    scene.add_list(vec![0]);
    assert!(scene.bvh().is_none());
    assert_eq!(scene.objects().len(), 4);
}

/// A ray from `origin` along `dir` against a box, by the slab test.
fn slab(b: &Aabb, origin: [f32; 3], dir: [f32; 3], iv: Interval) -> bool {
    let mut t_min = f(iv.min);
    let mut t_max = f(iv.max);
    let lo = [f(b.min.x), f(b.min.y), f(b.min.z)];
    let hi = [f(b.max.x), f(b.max.y), f(b.max.z)];
    for a in 0..3 {
        let inv = 1.0 / dir[a];
        let mut t0 = (lo[a] - origin[a]) * inv;
        let mut t1 = (hi[a] - origin[a]) * inv;
        if inv < 0.0 {
            std::mem::swap(&mut t0, &mut t1);
        }
        t_min = t_min.max(t0);
        t_max = t_max.min(t1);
        if t_max < t_min {
            return false;
        }
    }
    true
}

/// Entry parameter of a ray along +x from the origin into a cube, if in range.
fn cube_hit(b: &Aabb, iv: Interval) -> Option<(i32, usize)> {
    if f(b.min.y) > 0.0 || f(b.max.y) < 0.0 || f(b.min.z) > 0.0 || f(b.max.z) < 0.0 {
        return None;
    }
    let t = f(b.min.x);
    if iv.contains(k(t)) {
        Some((k(t), 0))
    } else {
        None
    }
}

#[test]
fn hierarchy_and_scan_find_the_same_nearest_hit() {
    let boxes: Vec<Aabb> = vec![
        cube([9.0, 0.0, 0.0], 0.5),
        cube([4.0, 0.0, 0.0], 0.5),
        cube([4.0, 3.0, 0.0], 0.5),
        cube([12.0, 0.0, 0.0], 0.5),
        cube([6.0, 0.0, 0.0], 0.5),
        cube([-3.0, 0.0, 0.0], 0.5),
    ];
    let objs: Vec<usize> = (0..boxes.len()).collect();
    let mut scene: Scene<usize> = Scene::new();
    scene.add_list(objs);
    let hit_box = |b: Aabb, iv: Interval| slab(&b, [0.0, 0.0, 0.0], [1.0, 1e-9, 1e-9], iv);
    let hit_object = |o: usize, iv: Interval| cube_hit(&boxes[o], iv).map(|(t, _)| (t, o));
    let ranges = [
        Interval::new(k(1e-3), k(f32::INFINITY)),
        Interval::new(k(4.0), k(100.0)),
        Interval::new(k(1e-3), k(3.0)),
        Interval::new(k(-10.0), k(100.0)),
    ];
    let mut scanned = Vec::new();
    for iv in ranges {
        scanned.push(scene.get_closest_intersect(&hit_box, &hit_object, iv));
    }
    scene.build_bvh(|o: &usize| boxes[*o], longest_axis);
    for (iv, s) in ranges.iter().zip(scanned.iter()) {
        let h = scene.get_closest_intersect(&hit_box, &hit_object, *iv);
        assert_eq!(&h, s);
    }
    assert_eq!(scanned[0], Some((k(3.5), 1)));
    assert_eq!(scanned[1], Some((k(5.5), 4)));
    assert_eq!(scanned[2], None);
    assert_eq!(scanned[3], Some((k(-3.5), 5)));
}

#[test]
fn traversal_skips_a_rejected_box() {
    let boxes = vec![cube([2.0, 0.0, 0.0], 0.5), cube([8.0, 0.0, 0.0], 0.5)];
    let t = BvhNode::build(&boxes, longest_axis);
    let hit_object = |o: usize, iv: Interval| cube_hit(&boxes[o], iv).map(|(t, _)| (t, o));
    let full = Interval::new(k(0.0), k(100.0));
    assert_eq!(t.intersect(&|_b: Aabb, _iv: Interval| true, &hit_object, full), Some((k(1.5), 0)));
    assert_eq!(t.intersect(&|_b: Aabb, _iv: Interval| false, &hit_object, full), None);
    let near = boxes[0];
    let only_far = |b: Aabb, _iv: Interval| b != near;
    assert_eq!(t.intersect(&only_far, &hit_object, full), Some((k(7.5), 1)));
}
