use raytracer::aabb::Aabb;
use raytracer::bvh::{box_compare, sort_span, BvhChild, BvhNode, KeyOrder};
use raytracer::scalar::Scalar;
use raytracer::vec3::Vec3;

fn s(x: f64) -> Scalar {
    Scalar::from_bits(x.to_bits())
}

fn f(x: Scalar) -> f64 {
    f64::from_bits(x.to_bits())
}

fn cube(x: f64, y: f64, z: f64, side: f64) -> Aabb {
    Aabb::from_corners(
        &Vec3::new(s(x), s(y), s(z)),
        &Vec3::new(s(x + side), s(y + side), s(z + side)),
    )
}

fn child_objects(c: &BvhChild, out: &mut Vec<usize>) {
    match c {
        BvhChild::Object(o) => out.push(*o),
        BvhChild::Node(n) => node_objects(n, out),
    }
}

fn is_single(n: &BvhNode) -> bool {
    matches!((&n.left, &n.right), (BvhChild::Object(a), BvhChild::Object(b)) if a == b)
}

fn node_objects(n: &BvhNode, out: &mut Vec<usize>) {
    if is_single(n) {
        child_objects(&n.left, out);
    } else {
        child_objects(&n.left, out);
        child_objects(&n.right, out);
    }
}

fn child_box(c: &BvhChild, boxes: &[Aabb]) -> Aabb {
    match c {
        BvhChild::Object(o) => boxes[*o],
        BvhChild::Node(n) => n.bbox,
    }
}

fn height(c: &BvhChild) -> usize {
    match c {
        BvhChild::Object(_) => 0,
        BvhChild::Node(n) => 1 + height(&n.left).max(height(&n.right)),
    }
}

fn check_node(n: &BvhNode, boxes: &[Aabb]) {
    let h = Aabb::new_box(&child_box(&n.left, boxes), &child_box(&n.right, boxes));
    assert_eq!(n.bbox.x.min.to_bits(), h.x.min.to_bits());
    assert_eq!(n.bbox.z.max.to_bits(), h.z.max.to_bits());
    let mut l = Vec::new();
    child_objects(&n.left, &mut l);
    let mut all = Vec::new();
    node_objects(n, &mut all);
    if !is_single(n) {
        assert_eq!(l.len(), all.len() / 2);
    }
    for c in [&n.left, &n.right] {
        if let BvhChild::Node(m) = c {
            check_node(m, boxes);
        }
    }
}

fn inside(outer: &Aabb, inner: &Aabb) -> bool {
    (0..3).all(|a| {
        f(outer.axis(a).min) <= f(inner.axis(a).min) && f(inner.axis(a).max) <= f(outer.axis(a).max)
    })
}

fn scene(n: usize) -> Vec<Aabb> {
    (0..n)
        .map(|i| {
            let k = i as f64;
            cube((k * 7.0) % 11.0, (k * 3.0) % 5.0 - 2.0, (k * 5.0) % 13.0, 0.5 + k / 10.0)
        })
        .collect()
}

#[test]
fn box_compare_orders_by_lower_bound() {
    let boxes = vec![cube(0.0, 5.0, 1.0, 1.0), cube(1.0, 2.0, 1.0, 1.0)];
    assert_eq!(box_compare(&boxes, 0, 1, 0), KeyOrder::Less);
    assert_eq!(box_compare(&boxes, 0, 1, 1), KeyOrder::Greater);
    assert_eq!(box_compare(&boxes, 0, 1, 2), KeyOrder::Equal);
}

#[test]
fn sort_span_is_stable_and_local() {
    let boxes = vec![
        cube(3.0, 0.0, 0.0, 1.0),
        cube(1.0, 0.0, 0.0, 1.0),
        cube(3.0, 0.0, 0.0, 2.0),
        cube(0.0, 0.0, 0.0, 1.0),
        cube(1.0, 0.0, 0.0, 3.0),
    ];
    let mut objects = vec![4, 0, 1, 2, 3, 4];
    sort_span(&mut objects, 1, 5, &boxes, 0);
    assert_eq!(objects, vec![4, 3, 1, 0, 2, 4]);
    let mut objects = vec![0, 1, 2, 3, 4];
    sort_span(&mut objects, 0, 5, &boxes, 0);
    assert_eq!(objects, vec![3, 1, 4, 0, 2]);
}

#[test]
fn one_object_stands_on_both_sides() {
    let boxes = vec![cube(1.0, 2.0, 3.0, 1.0)];
    let n = BvhNode::new(&boxes);
    assert!(matches!(n.left, BvhChild::Object(0)));
    assert!(matches!(n.right, BvhChild::Object(0)));
    assert_eq!(f(n.bounding_box().x.min), 1.0);
    assert_eq!(f(n.bounding_box().y.max), 3.0);
}

#[test]
fn two_objects_follow_the_axis() {
    let boxes = vec![cube(5.0, 5.0, 5.0, 1.0), cube(0.0, 0.0, 0.0, 1.0)];
    let n = BvhNode::new(&boxes);
    assert!(matches!(n.left, BvhChild::Object(1)));
    assert!(matches!(n.right, BvhChild::Object(0)));
    assert_eq!((f(n.bbox.x.min), f(n.bbox.x.max)), (0.0, 6.0));
}

#[test]
fn hierarchy_holds_every_object_once() {
    for count in 1..40 {
        let boxes = scene(count);
        let n = BvhNode::new(&boxes);
        let mut all = Vec::new();
        node_objects(&n, &mut all);
        all.sort();
        assert_eq!(all, (0..count).collect::<Vec<_>>());
        check_node(&n, &boxes);
        for b in boxes.iter() {
            assert!(inside(n.bounding_box(), b));
        }
        let h = 1 + height(&n.left).max(height(&n.right));
        if count >= 2 {
            assert!((1usize << (h - 1)) < count, "count {} height {}", count, h);
        } else {
            assert_eq!(h, 1);
        }
    }
}

#[test]
fn splits_separate_along_an_axis() {
    let boxes = scene(9);
    let n = BvhNode::new(&boxes);
    let mut l = Vec::new();
    child_objects(&n.left, &mut l);
    let mut r = Vec::new();
    child_objects(&n.right, &mut r);
    let separated = (0..3).any(|a| {
        l.iter().all(|&i| r.iter().all(|&j| f(boxes[i].axis(a).min) <= f(boxes[j].axis(a).min)))
    });
    assert!(separated);
    assert_eq!(l.len(), 4);
    assert_eq!(r.len(), 5);
}

#[test]
fn new_hitables_rearranges_only_its_range() {
    let boxes = scene(8);
    let mut objects: Vec<usize> = vec![7, 6, 5, 4, 3, 2, 1, 0];
    let n = BvhNode::new_hitables(&mut objects, 2, 7, &boxes);
    assert_eq!(objects[0], 7);
    assert_eq!(objects[1], 6);
    assert_eq!(objects[7], 0);
    let mut middle = objects[2..7].to_vec();
    middle.sort();
    assert_eq!(middle, vec![1, 2, 3, 4, 5]);
    let mut all = Vec::new();
    node_objects(&n, &mut all);
    all.sort();
    assert_eq!(all, vec![1, 2, 3, 4, 5]);
    check_node(&n, &boxes);
}

#[test]
fn new_vec_builds_the_same_kind_of_tree() {
    let boxes = scene(12);
    let n = BvhNode::new_vec(vec![11, 3, 5, 7, 0, 1, 2], &boxes);
    let mut all = Vec::new();
    node_objects(&n, &mut all);
    all.sort();
    assert_eq!(all, vec![0, 1, 2, 3, 5, 7, 11]);
    check_node(&n, &boxes);
    let two = BvhNode::new_vec(vec![4, 9], &boxes);
    let mut pair = Vec::new();
    node_objects(&two, &mut pair);
    pair.sort();
    assert_eq!(pair, vec![4, 9]);
}

#[test]
fn random_axis_varies_between_builds() {
    let boxes = vec![cube(0.0, 9.0, 4.0, 1.0), cube(9.0, 0.0, 4.0, 1.0)];
    let mut seen_first = false;
    let mut seen_second = false;
    for _ in 0..200 {
        let n = BvhNode::new(&boxes);
        match n.left {
            BvhChild::Object(0) => seen_first = true,
            BvhChild::Object(1) => seen_second = true,
            _ => panic!("two objects make object children"),
        }
    }
    assert!(seen_first && seen_second);
}

#[test]
fn two_objects_stay_in_place_and_smaller_goes_left() {
    let boxes = vec![cube(4.0, 4.0, 4.0, 2.0), cube(-1.0, -1.0, -1.0, 2.0)];
    let mut objects = vec![0, 1];
    let n = BvhNode::new_hitables(&mut objects, 0, 2, &boxes);
    assert_eq!(objects, vec![0, 1]);
    assert!(matches!(n.left, BvhChild::Object(1)));
    assert!(matches!(n.right, BvhChild::Object(0)));
    assert_eq!((f(n.bbox.y.min), f(n.bbox.y.max)), (-1.0, 6.0));
}

#[test]
fn two_tied_objects_put_the_second_first() {
    let boxes = vec![cube(1.0, 1.0, 1.0, 2.0), cube(1.0, 1.0, 1.0, 3.0)];
    let mut objects = vec![0, 1];
    let n = BvhNode::new_hitables(&mut objects, 0, 2, &boxes);
    assert_eq!(objects, vec![0, 1]);
    assert!(matches!(n.left, BvhChild::Object(1)));
    assert!(matches!(n.right, BvhChild::Object(0)));
    let v = BvhNode::new_vec(vec![0, 1], &boxes);
    assert!(matches!(v.left, BvhChild::Object(0)));
    assert!(matches!(v.right, BvhChild::Object(1)));
}

#[test]
fn ordered_range_keeps_its_order() {
    let boxes: Vec<Aabb> = [0.0, 2.0, 4.0, 6.0, 8.0].iter().map(|&k| cube(k - 0.5, k - 0.5, k - 0.5, 1.0)).collect();
    let mut objects = vec![0, 1, 2, 3, 4];
    let n = BvhNode::new_hitables(&mut objects, 0, 5, &boxes);
    assert_eq!(objects, vec![0, 1, 2, 3, 4]);
    assert_eq!((f(n.bbox.x.min), f(n.bbox.x.max)), (-0.5, 8.5));
    let mut l = Vec::new();
    child_objects(&n.left, &mut l);
    assert_eq!(l, vec![0, 1]);
    match &n.right {
        BvhChild::Node(r) => {
            match &r.left {
                BvhChild::Node(single) => {
                    assert!(matches!(single.left, BvhChild::Object(2)));
                    assert!(matches!(single.right, BvhChild::Object(2)));
                }
                _ => panic!("a lone object under a split gets a node of its own"),
            }
            let mut rr = Vec::new();
            child_objects(&r.right, &mut rr);
            assert_eq!(rr, vec![3, 4]);
        }
        _ => panic!("three objects make a node"),
    }
}
