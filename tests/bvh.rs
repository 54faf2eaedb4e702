use pathtracer::{Aabb, Bvh, BvhBuilder, ObjectBounds, Split};

fn bounds(min: [i32; 3], max: [i32; 3]) -> ObjectBounds {
    ObjectBounds {
        aabb: Aabb { min, max },
        center2: [min[0] + max[0], min[1] + max[1], min[2] + max[2]],
        unbounded: false,
    }
}

fn unbounded() -> ObjectBounds {
    ObjectBounds {
        aabb: Aabb { min: [i32::MIN; 3], max: [i32::MAX; 3] },
        center2: [0, 0, 0],
        unbounded: true,
    }
}

fn median_split(b: &BvhBuilder<u32>, first: usize, last: usize, axis: usize) -> Option<Split> {
    let mut keys: Vec<i32> = (first..last).map(|i| b.object_bounds(i).center2[axis]).collect();
    keys.sort();
    Some(Split { axis, value: keys[keys.len() / 2] })
}

fn build(objects: Vec<(u32, ObjectBounds)>, axis: usize) -> Bvh<u32> {
    let mut b = BvhBuilder::new(objects);
    while let Some(task) = b.next_task() {
        let split = if task.last - task.first > 4 { median_split(&b, task.first, task.last, axis) } else { None };
        b.process(split);
    }
    b.finish()
}

fn row(n: u32) -> Vec<(u32, ObjectBounds)> {
    (0..n).map(|i| (i, bounds([10 * i as i32, 0, 0], [10 * i as i32 + 5, 5, 5]))).collect()
}

fn leaf_counts(bvh: &Bvh<u32>) -> Vec<u32> {
    let mut counts = vec![0u32; bvh.get_n_objects()];
    for j in 0..bvh.get_n_nodes() {
        let node = bvh.get_node(j);
        for i in node.first_obj_idx..node.last_obj_idx {
            counts[i] += 1;
        }
    }
    counts
}

#[test]
fn empty_box_is_neutral() {
    let mut a = Aabb::empty();
    let b = Aabb { min: [1, -2, 3], max: [4, 5, 6] };
    a.extend(&b);
    assert_eq!(a.min, b.min);
    assert_eq!(a.max, b.max);
    assert!(b.contains(&Aabb::empty()));
}

#[test]
fn extend_and_contains() {
    let mut a = Aabb { min: [0, 0, 0], max: [1, 1, 1] };
    a.extend(&Aabb { min: [-1, 2, 0], max: [0, 3, 5] });
    assert_eq!(a.min, [-1, 0, 0]);
    assert_eq!(a.max, [1, 3, 5]);
    a.add_point([7, -4, 2]);
    assert_eq!(a.min, [-1, -4, 0]);
    assert_eq!(a.max, [7, 3, 5]);
    assert!(a.contains(&Aabb { min: [0, 0, 0], max: [1, 1, 1] }));
    assert!(!a.contains(&Aabb { min: [0, 0, 0], max: [8, 1, 1] }));
}

#[test]
fn small_scene_is_one_leaf() {
    let bvh = build(row(3), 0);
    assert_eq!(bvh.get_n_nodes(), 1);
    assert_eq!(bvh.get_leaves_cnt(), 1);
    let root = bvh.get_node(bvh.get_root());
    assert_eq!((root.first_obj_idx, root.last_obj_idx), (0, 3));
    assert!(root.children.is_none());
    assert_eq!(root.aabb.min, [0, 0, 0]);
    assert_eq!(root.aabb.max, [25, 5, 5]);
    assert!(bvh.check_bvh());
}

#[test]
fn empty_scene_has_empty_root() {
    let bvh = build(Vec::new(), 0);
    assert_eq!(bvh.get_n_nodes(), 1);
    assert_eq!(bvh.get_n_objects(), 0);
    assert!(bvh.check_bvh());
}

#[test]
fn leaves_partition_the_objects() {
    let bvh = build(row(40), 0);
    assert!(bvh.get_n_nodes() > 1);
    assert!(leaf_counts(&bvh).iter().all(|&c| c == 1));
    for j in 0..bvh.get_n_nodes() {
        let node = bvh.get_node(j);
        if node.children.is_some() {
            assert_eq!(node.first_obj_idx, node.last_obj_idx);
        } else {
            assert!(node.last_obj_idx - node.first_obj_idx <= 4);
        }
    }
    let mut ids: Vec<u32> = (0..bvh.get_n_objects()).map(|i| *bvh.get_object(i)).collect();
    ids.sort();
    assert_eq!(ids, (0..40).collect::<Vec<u32>>());
    assert!(bvh.check_bvh());
}

#[test]
fn parents_hold_children() {
    let bvh = build(row(25), 0);
    for j in 0..bvh.get_n_nodes() {
        let node = bvh.get_node(j);
        if let Some((l, r)) = node.children {
            assert!(node.aabb.contains(&bvh.get_node(l).aabb));
            assert!(node.aabb.contains(&bvh.get_node(r).aabb));
        }
        for i in node.first_obj_idx..node.last_obj_idx {
            assert!(node.aabb.contains(&bvh.get_bounds(i).aabb));
        }
    }
    let root = bvh.get_node(bvh.get_root());
    assert_eq!(root.aabb.min, [0, 0, 0]);
    assert_eq!(root.aabb.max, [245, 5, 5]);
}

#[test]
fn split_keeps_left_below_value() {
    let bvh = build(row(8), 0);
    let root = bvh.get_node(bvh.get_root());
    let (l, r) = root.children.expect("eight objects are split");
    let left = bvh.get_node(l);
    let right = bvh.get_node(r);
    assert_eq!(l + 1, r);
    assert_eq!(left.last_obj_idx - left.first_obj_idx + right.last_obj_idx - right.first_obj_idx, 8);
    assert_eq!(left.last_obj_idx - left.first_obj_idx, 4);
    assert!(left.aabb.max[0] < right.aabb.min[0]);
}

#[test]
fn unbounded_objects_stay_at_root() {
    let mut objects = row(12);
    objects.insert(3, (100, unbounded()));
    objects.push((101, unbounded()));
    let bvh = build(objects, 0);
    let root = bvh.get_node(bvh.get_root());
    assert!(root.children.is_some());
    assert_eq!((root.first_obj_idx, root.last_obj_idx), (0, 2));
    let mut planes = vec![*bvh.get_object(0), *bvh.get_object(1)];
    planes.sort();
    assert_eq!(planes, vec![100, 101]);
    assert_eq!(root.aabb.max, [115, 5, 5]);
    assert!(leaf_counts(&bvh).iter().all(|&c| c == 1));
    assert!(bvh.check_bvh());
}

#[test]
fn only_unbounded_objects() {
    let bvh = build(vec![(7, unbounded()), (8, unbounded())], 0);
    let root = bvh.get_node(bvh.get_root());
    assert_eq!((root.first_obj_idx, root.last_obj_idx), (0, 2));
    assert!(root.children.is_none());
    assert!(bvh.check_bvh());
}

#[test]
fn no_split_makes_a_leaf() {
    let mut b = BvhBuilder::new(row(9));
    b.process(None);
    assert!(b.next_task().is_none());
    let bvh = b.finish();
    assert_eq!(bvh.get_n_nodes(), 1);
    let root = bvh.get_node(0);
    assert_eq!((root.first_obj_idx, root.last_obj_idx), (0, 9));
}

#[test]
fn degenerate_split_makes_a_leaf() {
    let mut b = BvhBuilder::new(row(9));
    b.process(Some(Split { axis: 0, value: i32::MIN }));
    assert!(b.next_task().is_none());
    let bvh = b.finish();
    assert_eq!(bvh.get_n_nodes(), 1);
    assert!(bvh.check_bvh());
}

#[test]
fn split_on_other_axes() {
    let objects: Vec<(u32, ObjectBounds)> =
        (0..16).map(|i| (i, bounds([0, 3 * i as i32, -(i as i32)], [1, 3 * i as i32 + 2, 1 - i as i32]))).collect();
    for axis in 0..3 {
        let bvh = build(objects.clone(), axis);
        assert!(leaf_counts(&bvh).iter().all(|&c| c == 1));
        assert!(bvh.check_bvh());
    }
}

#[test]
fn depth_of_hierarchy() {
    assert_eq!(build(row(3), 0).depth(0), 1);
    let bvh = build(row(8), 0);
    assert_eq!(bvh.get_n_nodes(), 3);
    assert_eq!(bvh.depth(bvh.get_root()), 2);
    let bvh = build(row(40), 0);
    assert_eq!(bvh.depth(bvh.get_root()), 5);
}

#[test]
fn split_is_made_when_both_sides_are_nonempty() {
    let mut b = BvhBuilder::new(row(9));
    b.process(Some(Split { axis: 0, value: 86 }));
    let left = b.next_task().expect("two children are pending");
    assert_eq!((left.node, left.first, left.last), (1, 0, 5));
    b.process(None);
    let right = b.next_task().expect("the right child is pending");
    assert_eq!((right.node, right.first, right.last), (2, 5, 9));
    b.process(None);
    let bvh = b.finish();
    let root = bvh.get_node(0);
    assert_eq!(root.children, Some((1, 2)));
    assert_eq!(root.first_obj_idx, root.last_obj_idx);
    assert!(bvh.check_bvh());
}
