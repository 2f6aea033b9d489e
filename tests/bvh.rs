use raytracer::bvh::{BvhChild, BvhLayout, BvhNode};

fn key(k: &(u64, u64, u64), axis: usize) -> u64 {
    match axis {
        0 => k.0,
        1 => k.1,
        _ => k.2,
    }
}

fn leaves_of(nodes: &[BvhNode], c: BvhChild, out: &mut Vec<usize>) {
    match c {
        BvhChild::Leaf(p) => out.push(p),
        BvhChild::Node(k) => {
            leaves_of(nodes, nodes[k].left, out);
            leaves_of(nodes, nodes[k].right, out);
        }
    }
}

fn check_layout(keys: &[(u64, u64, u64)], layout: &BvhLayout) {
    let nodes = &layout.nodes;
    let n = keys.len();
    assert!(!nodes.is_empty());
    assert!(nodes.len() < 2 * n);
    for (k, node) in nodes.iter().enumerate() {
        for c in [node.left, node.right] {
            match c {
                BvhChild::Leaf(p) => assert!(p < n),
                BvhChild::Node(m) => assert!(m < k),
            }
        }
        assert!(node.axis < 3);
        let mut l = Vec::new();
        let mut r = Vec::new();
        leaves_of(nodes, node.left, &mut l);
        leaves_of(nodes, node.right, &mut r);
        if node.left != node.right {
            assert!(l.iter().all(|a| !r.contains(a)));
        }
        for a in &l {
            for b in &r {
                assert!(key(&keys[*a], node.axis) <= key(&keys[*b], node.axis));
            }
        }
    }
    let mut all = Vec::new();
    leaves_of(nodes, BvhChild::Node(nodes.len() - 1), &mut all);
    all.sort();
    all.dedup();
    assert_eq!(all, (0..n).collect::<Vec<usize>>());
}

#[test]
fn empty_scene_has_no_hierarchy() {
    assert!(BvhLayout::new(&vec![]).is_none());
}

#[test]
fn single_primitive_is_both_children() {
    let layout = BvhLayout::new(&vec![(4, 5, 6)]).unwrap();
    assert_eq!(layout.nodes.len(), 1);
    assert_eq!(layout.nodes[0].left, BvhChild::Leaf(0));
    assert_eq!(layout.nodes[0].right, BvhChild::Leaf(0));
}

#[test]
fn pair_is_ordered_by_key() {
    for _ in 0..20 {
        let layout = BvhLayout::new(&vec![(5, 5, 5), (1, 1, 1)]).unwrap();
        assert_eq!(layout.nodes.len(), 1);
        assert_eq!(layout.nodes[0].left, BvhChild::Leaf(1));
        assert_eq!(layout.nodes[0].right, BvhChild::Leaf(0));
        let layout = BvhLayout::new(&vec![(1, 1, 1), (5, 5, 5)]).unwrap();
        assert_eq!(layout.nodes[0].left, BvhChild::Leaf(0));
        assert_eq!(layout.nodes[0].right, BvhChild::Leaf(1));
    }
}

#[test]
fn pair_with_equal_keys_is_swapped() {
    let layout = BvhLayout::new(&vec![(2, 2, 2), (2, 2, 2)]).unwrap();
    assert_eq!(layout.nodes[0].left, BvhChild::Leaf(1));
    assert_eq!(layout.nodes[0].right, BvhChild::Leaf(0));
}

#[test]
fn three_primitives_split_after_sorting() {
    let keys = vec![(9, 9, 9), (1, 1, 1), (5, 5, 5)];
    let layout = BvhLayout::new(&keys).unwrap();
    assert_eq!(layout.nodes.len(), 3);
    // the sorted order is 1, 2, 0: the left half holds primitive 1 alone
    assert_eq!(layout.nodes[0].left, BvhChild::Leaf(1));
    assert_eq!(layout.nodes[0].right, BvhChild::Leaf(1));
    assert_eq!(layout.nodes[1].left, BvhChild::Leaf(2));
    assert_eq!(layout.nodes[1].right, BvhChild::Leaf(0));
    assert_eq!(layout.nodes[2].left, BvhChild::Node(0));
    assert_eq!(layout.nodes[2].right, BvhChild::Node(1));
    check_layout(&keys, &layout);
}

#[test]
fn larger_scenes_are_well_formed() {
    for n in 1..60u64 {
        let keys: Vec<(u64, u64, u64)> =
            (0..n).map(|i| ((i * 37) % 23, (i * 11) % 7, n - i)).collect();
        let layout = BvhLayout::new(&keys).unwrap();
        check_layout(&keys, &layout);
    }
}

#[test]
fn scene_of_equal_keys_is_well_formed() {
    let keys = vec![(3, 3, 3); 17];
    let layout = BvhLayout::new(&keys).unwrap();
    check_layout(&keys, &layout);
}
