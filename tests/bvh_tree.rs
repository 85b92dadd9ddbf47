use rand::Rng;
use raytrac::aabb::Coords;
use raytrac::aabb::AABB;
use raytrac::bvh::nearest_by_scan;
use raytrac::bvh::split_along;
use raytrac::bvh::BvhTree;
use raytrac::bvh::NodeKind;
use raytrac::scalar::Scalar;

fn s(x: f64) -> Scalar {
    Scalar::from_bits(x.to_bits())
}

fn to_f64(x: Scalar) -> f64 {
    f64::from_bits(x.to_bits())
}

/// A cube of the given center and half size.
fn cube(x: f64, y: f64, z: f64, h: f64) -> AABB {
    AABB::new(Coords::new(s(x - h), s(y - h), s(z - h)), Coords::new(s(x + h), s(y + h), s(z + h)))
}

/// A ray along +x from `(x0, y0, z0)`: meets a box when it lies on the box's
/// y/z extent and the box reaches beyond x0.
struct XRay {
    x0: f64,
    y0: f64,
    z0: f64,
}

impl XRay {
    fn meets(&self, b: &AABB) -> bool {
        let (ylo, yhi) = (to_f64(b.min.y), to_f64(b.max.y));
        let (zlo, zhi) = (to_f64(b.min.z), to_f64(b.max.z));
        ylo <= self.y0 && self.y0 <= yhi && zlo <= self.z0 && self.z0 <= zhi && to_f64(b.max.x) > self.x0
    }

    /// Distance to the entry face of a primitive's box, where the ray meets it
    /// ahead of its origin.
    fn distance(&self, b: &AABB) -> Option<f64> {
        if self.meets(b) && to_f64(b.min.x) > self.x0 {
            Some(to_f64(b.min.x) - self.x0)
        } else {
            None
        }
    }
}

fn nearest_both(boxes: &[AABB], tree: &BvhTree, ray: &XRay) -> (Option<(usize, Scalar, f64)>, Option<(usize, Scalar, f64)>) {
    let box_hit = |b: AABB| ray.meets(&b);
    let prim_hit = |j: usize| ray.distance(&boxes[j]).map(|t| (s(t), t));
    (tree.hits(&box_hit, &prim_hit), nearest_by_scan(boxes.len(), &prim_hit))
}

#[test]
fn single_primitive_tree() {
    let b = cube(3.0, 0.0, 0.0, 1.0);
    let tree = BvhTree::new(&vec![Some(b)]);
    assert_eq!(tree.number_hittables(), 1);
    assert_eq!(tree.bounding_box(), Some(b));
    let ray = XRay { x0: 0.0, y0: 0.0, z0: 0.0 };
    let (t, l) = nearest_both(&[b], &tree, &ray);
    assert_eq!(t.map(|h| (h.0, h.2)), Some((0, 2.0)));
    assert_eq!(l.map(|h| (h.0, h.2)), Some((0, 2.0)));
}

#[test]
fn root_box_encloses_everything() {
    let boxes = vec![cube(0.0, 0.0, 0.0, 1.0), cube(5.0, 2.0, -1.0, 0.5), cube(-3.0, 1.0, 4.0, 2.0)];
    let tree = BvhTree::new(&boxes.iter().map(|b| Some(*b)).collect());
    assert_eq!(tree.number_hittables(), 3);
    let expected = boxes[0].surrounding_box(&boxes[1]).surrounding_box(&boxes[2]);
    assert_eq!(tree.bounding_box(), Some(expected));
}

#[test]
fn nearest_of_a_row_of_cubes() {
    let boxes: Vec<AABB> = (0..9).map(|i| cube(10.0 - i as f64, 0.0, 0.0, 0.25)).collect();
    let tree = BvhTree::new(&boxes.iter().map(|b| Some(*b)).collect());
    assert_eq!(tree.number_hittables(), 9);
    let ray = XRay { x0: 0.0, y0: 0.0, z0: 0.0 };
    let (t, l) = nearest_both(&boxes, &tree, &ray);
    assert_eq!(t.map(|h| (h.0, h.2)), Some((8, 1.75)));
    assert_eq!(l.map(|h| (h.0, h.2)), Some((8, 1.75)));
    let miss = XRay { x0: 0.0, y0: 5.0, z0: 0.0 };
    let (t, l) = nearest_both(&boxes, &tree, &miss);
    assert!(t.is_none());
    assert!(l.is_none());
    let beyond = XRay { x0: 20.0, y0: 0.0, z0: 0.0 };
    let (t, l) = nearest_both(&boxes, &tree, &beyond);
    assert!(t.is_none() && l.is_none());
}

#[test]
fn pruned_subtrees_are_never_reported() {
    let boxes: Vec<AABB> = (0..6).map(|i| cube(2.0 * i as f64 + 1.0, 0.0, 0.0, 0.5)).collect();
    let tree = BvhTree::new(&boxes.iter().map(|b| Some(*b)).collect());
    // the primitive test claims a hit on every primitive, the box test on none
    let box_hit = |_b: AABB| false;
    let prim_hit = |j: usize| Some((s(j as f64), ()));
    assert!(tree.hits(&box_hit, &prim_hit).is_none());
}

#[test]
fn tree_matches_scan_on_random_scenes() {
    let mut rng = rand::thread_rng();
    for _scene in 0..40 {
        let n = rng.gen_range(1..60);
        let boxes: Vec<AABB> = (0..n)
            .map(|_| {
                cube(rng.gen_range(-10.0..10.0), rng.gen_range(-3.0..3.0), rng.gen_range(-3.0..3.0), rng.gen_range(0.1..2.0))
            })
            .collect();
        let tree = BvhTree::new(&boxes.iter().map(|b| Some(*b)).collect());
        assert_eq!(tree.number_hittables(), n);
        for _ray in 0..30 {
            let ray = XRay { x0: rng.gen_range(-12.0..12.0), y0: rng.gen_range(-3.0..3.0), z0: rng.gen_range(-3.0..3.0) };
            let (t, l) = nearest_both(&boxes, &tree, &ray);
            assert_eq!(t.map(|h| h.2), l.map(|h| h.2));
        }
    }
}

/// Primitives under `id`, checking on the way down that each inner node
/// gives half of them (rounded down) to its left child.
fn collect_balanced(tree: &BvhTree, id: raytrac::bvh::NodeId, out: &mut Vec<usize>) -> usize {
    match tree.node(id).kind {
        NodeKind::Leaf(j) => {
            out.push(j);
            1
        }
        NodeKind::Inner(l, r) => {
            let a = collect_balanced(tree, l, out);
            let b = collect_balanced(tree, r, out);
            assert_eq!(a, (a + b) / 2);
            assert!(l.index < id.index && r.index < id.index);
            a + b
        }
    }
}

#[test]
fn tree_is_balanced_and_holds_each_primitive_once() {
    for n in [1usize, 2, 3, 7, 16, 33] {
        let boxes: Vec<Option<AABB>> = (0..n).map(|i| Some(cube((i * 7 % 11) as f64, (i % 3) as f64, 0.0, 0.5))).collect();
        let tree = BvhTree::new(&boxes);
        assert_eq!(tree.node_count(), 2 * n - 1);
        assert_eq!(tree.root().index, 2 * n - 2);
        let mut seen = Vec::new();
        assert_eq!(collect_balanced(&tree, tree.root(), &mut seen), n);
        seen.sort();
        assert_eq!(seen, (0..n).collect::<Vec<usize>>());
    }
}

#[test]
fn equal_distances_go_to_the_right_child_and_the_earliest_primitive() {
    // two coincident cubes: the traversal keeps the right child's hit on a
    // tie, the scan keeps the earlier primitive
    let boxes = vec![cube(3.0, 0.0, 0.0, 1.0), cube(3.0, 0.0, 0.0, 1.0)];
    let tree = BvhTree::new(&boxes.iter().map(|b| Some(*b)).collect());
    let ray = XRay { x0: 0.0, y0: 0.0, z0: 0.0 };
    let (t, l) = nearest_both(&boxes, &tree, &ray);
    let right = match tree.node(tree.root()).kind {
        NodeKind::Inner(_, r) => match tree.node(r).kind {
            NodeKind::Leaf(j) => j,
            NodeKind::Inner(_, _) => panic!("a two-primitive tree has leaves under its root"),
        },
        NodeKind::Leaf(_) => panic!("a two-primitive tree has an inner root"),
    };
    assert_eq!(t.map(|h| (h.0, h.2)), Some((right, 2.0)));
    assert_eq!(l.map(|h| (h.0, h.2)), Some((0, 2.0)));
}

#[test]
fn split_cuts_sorted_items_at_the_midpoint() {
    let boxes: Vec<AABB> = [5.0, -1.0, 3.0, 8.0, 0.0].iter().map(|x| cube(*x, -*x, 0.0, 0.5)).collect();
    let items: Vec<usize> = (0..5).collect();
    let (left, right) = split_along(&items, &boxes, 0);
    let mut l = left.clone();
    l.sort();
    let mut r = right.clone();
    r.sort();
    assert_eq!(l, vec![1, 4]);
    assert_eq!(r, vec![0, 2, 3]);
    let (left, right) = split_along(&items, &boxes, 1);
    let mut l = left.clone();
    l.sort();
    let mut r = right.clone();
    r.sort();
    assert_eq!(l, vec![0, 3]);
    assert_eq!(r, vec![1, 2, 4]);
}
