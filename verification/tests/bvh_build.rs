use raytracer::bvh::{Bvh, BvhNode};

/// Items below node `i`, left subtree first; a node whose children coincide counts it once.
fn leaves<B>(bvh: &Bvh<B>, i: usize) -> Vec<usize> {
    match bvh.node(i) {
        BvhNode::Leaf(x) => vec![*x],
        BvhNode::Tree(l, r, _) => {
            let mut v = leaves(bvh, *l);
            if l != r {
                v.extend(leaves(bvh, *r));
            }
            v
        }
    }
}

fn sorted(mut v: Vec<usize>) -> Vec<usize> {
    v.sort();
    v
}

/// Boxes are the sorted item lists; the longest axis is chosen by the size of the set.
fn build(keys: &Vec<[u64; 3]>) -> Bvh<Vec<usize>> {
    Bvh::new(keys, |s: &[usize]| sorted(s.to_vec()), |b: &Vec<usize>| b.len() % 3)
}

#[test]
fn single_item_points_twice_at_one_leaf() {
    let bvh = build(&vec![[5, 5, 5]]);
    assert_eq!(bvh.node_count(), 2);
    assert!(matches!(bvh.node(0), BvhNode::Tree(1, 1, b) if *b == vec![0]));
    assert!(matches!(bvh.node(1), BvhNode::Leaf(0)));
    assert_eq!(bvh.bounding_box(), &vec![0]);
    assert_eq!(bvh.leaf_item(1), Some(0));
    assert_eq!(bvh.leaf_item(0), None);
}

#[test]
fn two_items_are_two_leaves_in_order() {
    let bvh = build(&vec![[9, 9, 9], [1, 1, 1]]);
    assert_eq!(bvh.node_count(), 3);
    assert!(matches!(bvh.node(0), BvhNode::Tree(1, 2, _)));
    assert!(matches!(bvh.node(1), BvhNode::Leaf(0)));
    assert!(matches!(bvh.node(2), BvhNode::Leaf(1)));
}

#[test]
fn three_items_split_by_key() {
    // Three items: the axis is 3 % 3 == 0, so the keys along x decide.
    let keys = vec![[30, 0, 0], [10, 0, 0], [20, 0, 0]];
    let bvh = build(&keys);
    // Root, then the left subtree over one item (two nodes), then the right over two.
    assert_eq!(bvh.node_count(), 6);
    assert!(matches!(bvh.node(0), BvhNode::Tree(1, 3, b) if *b == vec![0, 1, 2]));
    assert_eq!(leaves(&bvh, 1), vec![1]);
    assert_eq!(leaves(&bvh, 3), vec![2, 0]);
    assert_eq!(leaves(&bvh, 0), vec![1, 2, 0]);
}

#[test]
fn every_item_in_exactly_one_leaf() {
    for n in 1..40usize {
        let keys: Vec<[u64; 3]> = (0..n)
            .map(|i| [((i * 7) % 11) as u64, ((i * 5) % 13) as u64, (n - i) as u64])
            .collect();
        let bvh = build(&keys);
        assert_eq!(sorted(leaves(&bvh, 0)), (0..n).collect::<Vec<_>>());
        let leaf_nodes: Vec<usize> = (0..bvh.node_count())
            .filter_map(|i| bvh.leaf_item(i))
            .collect();
        assert_eq!(sorted(leaf_nodes), (0..n).collect::<Vec<_>>());
    }
}

#[test]
fn inner_nodes_hold_the_box_of_their_items_and_split_by_key() {
    let n = 23usize;
    let keys: Vec<[u64; 3]> = (0..n)
        .map(|i| [((i * 7) % 11) as u64, ((i * 5) % 13) as u64, ((i * 3) % 17) as u64])
        .collect();
    let bvh = build(&keys);
    for i in 0..bvh.node_count() {
        if let BvhNode::Tree(l, r, b) = bvh.node(i) {
            assert!(i < *l && l <= r && *r < bvh.node_count());
            let below = leaves(&bvh, i);
            assert_eq!(*b, sorted(below.clone()));
            if below.len() > 2 {
                let axis = b.len() % 3;
                let left = leaves(&bvh, *l);
                let right = leaves(&bvh, *r);
                assert_eq!(left.len(), below.len() / 2);
                for x in &left {
                    for y in &right {
                        assert!(keys[*x][axis] <= keys[*y][axis]);
                    }
                }
                for side in [&left, &right] {
                    if side.len() == 2 {
                        assert!(keys[side[0]][axis] <= keys[side[1]][axis]);
                    }
                }
            }
        }
    }
}

#[test]
fn traverse_visits_right_subtree_first() {
    let keys = vec![[30, 0, 0], [10, 0, 0], [20, 0, 0]];
    let bvh = build(&keys);
    let seen = bvh.traverse(
        0u32,
        Vec::new(),
        |_b: &Vec<usize>, t: &u32| Some(*t),
        |mut acc: Vec<usize>, _node: usize, item: usize, _t: &u32| {
            acc.push(item);
            acc
        },
    );
    // Right subtree (items 2 then 0, right leaf first), then the single-item left subtree,
    // whose root points twice at the same leaf.
    assert_eq!(seen, vec![0, 2, 1, 1]);
}

#[test]
fn traverse_skips_rejected_boxes() {
    let keys = vec![[30, 0, 0], [10, 0, 0], [20, 0, 0]];
    let bvh = build(&keys);
    let seen = bvh.traverse(
        0u32,
        Vec::new(),
        |b: &Vec<usize>, t: &u32| if b.len() == 2 { None } else { Some(*t) },
        |mut acc: Vec<usize>, _node: usize, item: usize, _t: &u32| {
            acc.push(item);
            acc
        },
    );
    assert_eq!(seen, vec![1, 1]);
}

#[test]
fn traverse_passes_the_narrowed_range_and_node_index() {
    let keys: Vec<[u64; 3]> = (0..5u64).map(|i| [i, i, i]).collect();
    let bvh = build(&keys);
    let seen = bvh.traverse(
        0u32,
        Vec::new(),
        |_b: &Vec<usize>, depth: &u32| Some(depth + 1),
        |mut acc: Vec<(usize, usize, u32)>, node: usize, item: usize, depth: &u32| {
            acc.push((node, item, *depth));
            acc
        },
    );
    for (node, item, depth) in &seen {
        assert_eq!(bvh.leaf_item(*node), Some(*item));
        assert!(*depth >= 2);
    }
    let mut items: Vec<usize> = seen.iter().map(|v| v.1).collect();
    items.sort();
    items.dedup();
    assert_eq!(items, vec![0, 1, 2, 3, 4]);
}

/// The node count of the hierarchy over `n` items.
fn size(n: usize) -> usize {
    match n {
        0 | 1 => 2,
        2 => 3,
        _ => 1 + size(n / 2) + size(n - n / 2),
    }
}

/// Checks the preorder layout of the subtree over `n` items at node `i`; returns its end.
fn check_layout<B>(bvh: &Bvh<B>, i: usize, n: usize) -> usize {
    match bvh.node(i) {
        BvhNode::Tree(l, r, _) => {
            assert_eq!(*l, i + 1);
            match n {
                1 => {
                    assert_eq!(r, l);
                    assert!(matches!(bvh.node(*l), BvhNode::Leaf(_)));
                }
                2 => {
                    assert_eq!(*r, i + 2);
                    assert!(matches!(bvh.node(*l), BvhNode::Leaf(_)));
                    assert!(matches!(bvh.node(*r), BvhNode::Leaf(_)));
                }
                _ => {
                    assert_eq!(check_layout(bvh, *l, n / 2), *r);
                    check_layout(bvh, *r, n - n / 2);
                }
            }
            i + size(n)
        }
        BvhNode::Leaf(_) => panic!("a subtree starts with an inner node"),
    }
}

#[test]
fn nodes_are_the_preorder_layout_and_nothing_else() {
    for n in 1..60usize {
        let keys: Vec<[u64; 3]> = (0..n).map(|i| [(i * 13 % 7) as u64, i as u64, 0]).collect();
        let bvh = build(&keys);
        assert_eq!(bvh.node_count(), size(n));
        assert_eq!(check_layout(&bvh, 0, n), bvh.node_count());
        let leaves = (0..bvh.node_count()).filter(|&i| bvh.leaf_item(i).is_some()).count();
        assert_eq!(leaves, n);
    }
}
