use plrt::{
    bounding_box_of_points, code_bits, group_bounding_box, nearest_hit, order_code, surrounding_box, Aabb, BuildError,
    BvhTree, Point3,
};

fn code(x: f32) -> i32 {
    order_code(x.to_bits())
}

fn value(c: i32) -> f32 {
    f32::from_bits(code_bits(c))
}

fn boxed(min: [f32; 3], max: [f32; 3]) -> Aabb {
    Aabb {
        min: Point3::new(code(min[0]), code(min[1]), code(min[2])),
        max: Point3::new(code(max[0]), code(max[1]), code(max[2])),
    }
}

fn leaves_below(tree: &BvhTree, id: usize, out: &mut Vec<usize>) {
    let node = &tree.nodes[id];
    match node.item {
        Some(p) => out.push(p),
        None => {
            leaves_below(tree, node.left.unwrap().index, out);
            leaves_below(tree, node.right.unwrap().index, out);
        }
    }
}

#[test]
fn surrounding_box_contains_both_boxes() {
    let a = boxed([0.0, -1.0, 2.0], [1.0, 1.0, 3.0]);
    let b = boxed([-2.0, 0.5, 2.5], [0.5, 4.0, 2.75]);
    let u = surrounding_box(&a, &b);
    assert_eq!(u, boxed([-2.0, -1.0, 2.0], [1.0, 4.0, 3.0]));
    assert!(u.encloses(&a));
    assert!(u.encloses(&b));
    assert!(!a.encloses(&u));
}

#[test]
fn points_get_their_tightest_box() {
    assert_eq!(bounding_box_of_points(&vec![]), None);
    let pts = vec![
        Point3::new(code(1.0), code(-2.0), code(0.5)),
        Point3::new(code(-3.0), code(4.0), code(0.25)),
        Point3::new(code(2.0), code(0.0), code(-1.0)),
    ];
    assert_eq!(bounding_box_of_points(&pts), Some(boxed([-3.0, -2.0, -1.0], [2.0, 4.0, 0.5])));
    let single = vec![Point3::new(5, 6, 7)];
    assert_eq!(
        bounding_box_of_points(&single),
        Some(Aabb { min: Point3::new(5, 6, 7), max: Point3::new(5, 6, 7) })
    );
}

#[test]
fn order_codes_follow_float_order() {
    let xs = [-1000.5f32, -1.0, -0.001, -0.0, 0.0, 1e-30, 0.001, 1.0, 2.5, 1e30];
    for w in xs.windows(2) {
        if w[0] < w[1] {
            assert!(code(w[0]) < code(w[1]));
        } else {
            assert_eq!(code(w[0]), code(w[1]));
        }
    }
    assert_eq!(code(1.0), 0x3f80_0000);
    assert_eq!(code(-1.0), -0x3f80_0000);
    assert_eq!(code(-0.0), 0);
    for x in xs.iter() {
        assert_eq!(value(code(*x)), *x);
    }
}

#[test]
fn bvh_new_reports_first_missing_box() {
    let b = boxed([0.0; 3], [1.0; 3]);
    let boxes = vec![Some(b), None, Some(b), None];
    assert_eq!(BvhTree::new(&boxes).unwrap_err(), BuildError::MissingBoundingBox(1));
}

#[test]
fn bvh_over_empty_scene_has_no_root() {
    let tree = BvhTree::new(&Vec::new()).unwrap();
    assert!(tree.root.is_none());
    assert!(tree.bounding_box().is_none());
    let r: Option<(i32, ())> = tree.hit(&|_b: &Aabb| true, &|_p: usize| Some((0, ())));
    assert!(r.is_none());
}

#[test]
fn bvh_holds_every_primitive_once() {
    let mut boxes = Vec::new();
    for k in 0..7 {
        let x = (k * 37 % 11) as f32;
        boxes.push(Some(boxed([x, -x, 0.5 * x], [x + 1.0, 2.0 - x, 0.5 * x + 1.0])));
    }
    let tree = BvhTree::new(&boxes).unwrap();
    assert_eq!(tree.nodes.len(), 13);
    let root = tree.root.unwrap().index;
    assert_eq!(root, 12);
    let mut items = Vec::new();
    leaves_below(&tree, root, &mut items);
    items.sort();
    assert_eq!(items, (0..7).collect::<Vec<usize>>());
    let expected = group_bounding_box(&boxes).unwrap();
    assert_eq!(tree.bounding_box(), Some(expected));
    for node in tree.nodes.iter() {
        assert!(node.aabb.encloses(&node.aabb));
        if let (Some(l), Some(r)) = (node.left, node.right) {
            assert!(node.aabb.encloses(&tree.nodes[l.index].aabb));
            assert!(node.aabb.encloses(&tree.nodes[r.index].aabb));
        }
    }
}

#[test]
fn inner_nodes_split_along_an_axis() {
    let mut boxes = Vec::new();
    for k in 0..40u32 {
        let x = ((k * 7919) % 53) as f32 * 0.5 - 10.0;
        let y = ((k * 104729) % 61) as f32 * 0.25;
        let z = ((k * 31) % 17) as f32 - 8.0;
        boxes.push(Some(boxed([x, y, z], [x + 1.0, y + 0.5, z + 2.0])));
    }
    let tree = BvhTree::new(&boxes).unwrap();
    for node in tree.nodes.iter() {
        if let (Some(l), Some(r)) = (node.left, node.right) {
            let (mut left, mut right) = (Vec::new(), Vec::new());
            leaves_below(&tree, l.index, &mut left);
            leaves_below(&tree, r.index, &mut right);
            assert!(left.len() == right.len() || left.len() + 1 == right.len());
            let separated = (0..3).any(|axis| {
                left.iter().all(|&p| {
                    right.iter().all(|&q| tree.item_boxes[p].min.get(axis) <= tree.item_boxes[q].min.get(axis))
                })
            });
            assert!(separated);
        }
    }
}

#[test]
fn bvh_sorts_along_the_chosen_axis() {
    let boxes = vec![
        boxed([5.0, 0.0, 0.0], [6.0, 1.0, 1.0]),
        boxed([3.0, 0.0, 0.0], [4.0, 1.0, 1.0]),
        boxed([1.0, 0.0, 0.0], [2.0, 1.0, 1.0]),
    ];
    let tree = BvhTree::from_axes(&boxes, &vec![0]);
    // Sorted by x the order is 2, 1, 0: the left half is a leaf over 2, the
    // right half is built next, over 1 then 0.
    assert_eq!(tree.nodes[0].item, Some(2));
    assert_eq!(tree.nodes[1].item, Some(1));
    assert_eq!(tree.nodes[2].item, Some(0));
    assert_eq!(tree.nodes.len(), 5);
    assert_eq!(tree.root.unwrap().index, 4);
    assert_eq!(tree.nodes[4].aabb, boxed([1.0, 0.0, 0.0], [6.0, 1.0, 1.0]));
}

#[test]
fn root_splits_along_the_first_axis() {
    // Sorted by y the order is 1, 2, 0; by x it would be 0, 1, 2.
    let boxes = vec![
        boxed([0.0, 9.0, 0.0], [1.0, 10.0, 1.0]),
        boxed([1.0, 1.0, 0.0], [2.0, 2.0, 1.0]),
        boxed([2.0, 5.0, 0.0], [3.0, 6.0, 1.0]),
        boxed([3.0, 7.0, 0.0], [4.0, 8.0, 1.0]),
    ];
    let tree = BvhTree::from_axes(&boxes, &vec![1, 0]);
    let root = &tree.nodes[tree.root.unwrap().index];
    let (mut left, mut right) = (Vec::new(), Vec::new());
    leaves_below(&tree, root.left.unwrap().index, &mut left);
    leaves_below(&tree, root.right.unwrap().index, &mut right);
    left.sort();
    right.sort();
    assert_eq!(left, vec![1, 2]);
    assert_eq!(right, vec![0, 3]);
    assert_eq!(tree.nodes.len(), 7);
}

#[test]
fn ties_go_right_in_tree_and_first_in_scan() {
    let b = boxed([0.0; 3], [1.0; 3]);
    let tree = BvhTree::from_axes(&vec![b, b], &vec![1]);
    // Equal keys keep their order: primitive 0 is the left leaf.
    assert_eq!(tree.nodes[0].item, Some(0));
    assert_eq!(tree.nodes[1].item, Some(1));
    let prim = |p: usize| Some((code(2.0), p));
    let from_tree = tree.hit(&|_b: &Aabb| true, &prim);
    assert_eq!(from_tree, Some((code(2.0), 1)));
    assert_eq!(nearest_hit(2, &prim), Some((code(2.0), 0)));
}

#[test]
fn rejected_box_skips_subtree() {
    let b = boxed([0.0; 3], [1.0; 3]);
    let tree = BvhTree::from_axes(&vec![b, b, b], &vec![0]);
    let r = tree.hit(&|_b: &Aabb| false, &|p: usize| Some((code(1.0), p)));
    assert_eq!(r, None);
}

#[test]
fn group_box_is_union_or_none() {
    let a = boxed([0.0; 3], [1.0; 3]);
    let b = boxed([-1.0, 2.0, 0.5], [0.5, 3.0, 4.0]);
    assert_eq!(group_bounding_box(&vec![]), None);
    assert_eq!(group_bounding_box(&vec![Some(a), None]), None);
    assert_eq!(group_bounding_box(&vec![Some(a)]), Some(a));
    assert_eq!(group_bounding_box(&vec![Some(a), Some(b)]), Some(surrounding_box(&a, &b)));
}

struct Lcg(u64);

impl Lcg {
    fn next(&mut self) -> f32 {
        self.0 = self.0.wrapping_mul(6364136223846793005).wrapping_add(1442695040888963407);
        ((self.0 >> 40) as f32) / ((1u64 << 24) as f32)
    }
}

fn sphere_hit(c: [f32; 3], radius: f32, o: [f32; 3], d: [f32; 3], tmin: f32, tmax: f32) -> Option<f32> {
    let oc = [o[0] - c[0], o[1] - c[1], o[2] - c[2]];
    let a = d[0] * d[0] + d[1] * d[1] + d[2] * d[2];
    let b = oc[0] * d[0] + oc[1] * d[1] + oc[2] * d[2];
    let cc = oc[0] * oc[0] + oc[1] * oc[1] + oc[2] * oc[2] - radius * radius;
    let disc = b * b - a * cc;
    if disc > 0.0 {
        let t = (-b - disc.sqrt()) / a;
        if t < tmax && t > tmin {
            return Some(t);
        }
        let t = (-b + disc.sqrt()) / a;
        if t < tmax && t > tmin {
            return Some(t);
        }
    }
    None
}

fn slab_hit(b: &Aabb, o: [f32; 3], d: [f32; 3], mut tmin: f32, mut tmax: f32) -> bool {
    for a in 0..3 {
        let mint = (value(b.min.get(a)) - o[a]) / d[a];
        let maxt = (value(b.max.get(a)) - o[a]) / d[a];
        let t0 = if mint < maxt { mint } else { maxt };
        let t1 = if mint > maxt { mint } else { maxt };
        tmin = if t0 > tmin { t0 } else { tmin };
        tmax = if t1 < tmax { t1 } else { tmax };
        if tmax <= tmin {
            return false;
        }
    }
    true
}

#[test]
fn bvh_matches_linear_scan_on_random_spheres() {
    let mut rng = Lcg(7);
    let mut spheres = Vec::new();
    for _ in 0..60 {
        let c = [rng.next() * 20.0 - 10.0, rng.next() * 20.0 - 10.0, rng.next() * 20.0 - 10.0];
        spheres.push((c, 0.2 + rng.next() * 1.5));
    }
    let boxes: Vec<Option<Aabb>> = spheres
        .iter()
        .map(|(c, r)| Some(boxed([c[0] - r, c[1] - r, c[2] - r], [c[0] + r, c[1] + r, c[2] + r])))
        .collect();
    let tree = BvhTree::new(&boxes).unwrap();
    let mut hits = 0;
    for _ in 0..1000 {
        let o = [rng.next() * 30.0 - 15.0, rng.next() * 30.0 - 15.0, rng.next() * 30.0 - 15.0];
        let d = [rng.next() * 2.0 - 1.0, rng.next() * 2.0 - 1.0, rng.next() * 2.0 - 1.0];
        let prim = |p: usize| {
            let (c, r) = spheres[p];
            sphere_hit(c, r, o, d, 0.001, f32::MAX).map(|t| (code(t), p))
        };
        let from_tree = tree.hit(&|b: &Aabb| slab_hit(b, o, d, 0.001, f32::MAX), &prim);
        let from_scan = nearest_hit(spheres.len(), &prim);
        assert_eq!(from_tree.is_some(), from_scan.is_some());
        if let (Some(a), Some(b)) = (from_tree, from_scan) {
            assert!((value(a.0) - value(b.0)).abs() <= 1e-4);
            hits += 1;
        }
    }
    assert!(hits > 0);
}
