use rt::{order_key, split_on_axis, BvhNode, HittableList};

fn leaves(node: &BvhNode, out: &mut Vec<usize>) {
    match node {
        BvhNode::Leaf { object } => out.push(*object),
        BvhNode::Split { left, right } => {
            leaves(left, out);
            leaves(right, out);
        }
    }
}

fn leaves_of(node: &BvhNode) -> Vec<usize> {
    let mut out = Vec::new();
    leaves(node, &mut out);
    out
}

// Checks the midpoint split and the order along some axis at every node.
fn check_splits(node: &BvhNode, keys: &[[u64; 3]]) {
    if let BvhNode::Split { left, right } = node {
        let l = leaves_of(left);
        let r = leaves_of(right);
        assert_eq!(l.len(), (l.len() + r.len()) / 2);
        let ordered = (0..3).any(|axis| {
            l.iter().all(|&a| r.iter().all(|&b| keys[a][axis] <= keys[b][axis]))
        });
        assert!(ordered);
        check_splits(left, keys);
        check_splits(right, keys);
    }
}

#[test]
fn order_key_orders_like_the_numbers() {
    let k = |x: f64| order_key(x.to_bits());
    assert_eq!(k(0.0), 0x8000_0000_0000_0000);
    assert_eq!(k(-0.0), 0x7fff_ffff_ffff_ffff);
    assert!(k(-2.0) < k(-1.0));
    assert!(k(-1.0) < k(-0.5));
    assert!(k(-0.5) < k(0.0));
    assert!(k(0.0) < k(0.25));
    assert!(k(0.25) < k(3.0));
    assert!(k(3.0) < k(1000.0));
}

#[test]
fn split_even_count_at_midpoint() {
    let keys = vec![[0, 40, 0], [0, 10, 0], [0, 30, 0], [0, 20, 0]];
    let (l, r) = split_on_axis(&vec![0, 1, 2, 3], &keys, 1);
    assert_eq!(l, vec![1, 3]);
    assert_eq!(r, vec![2, 0]);
}

#[test]
fn split_odd_count_puts_the_extra_one_right() {
    let keys = vec![[5, 0, 0], [1, 0, 0], [4, 0, 0], [2, 0, 0], [3, 0, 0]];
    let (l, r) = split_on_axis(&vec![0, 1, 2, 3, 4], &keys, 0);
    assert_eq!(l, vec![1, 3]);
    assert_eq!(r, vec![4, 2, 0]);
}

#[test]
fn split_of_a_subset_keeps_its_members() {
    let keys = vec![[0, 0, 9], [0, 0, 8], [0, 0, 7], [0, 0, 6], [0, 0, 5]];
    let (l, r) = split_on_axis(&vec![4, 0, 2], &keys, 2);
    assert_eq!(l, vec![4]);
    assert_eq!(r, vec![2, 0]);
}

#[test]
fn single_object_is_a_leaf() {
    let node = BvhNode::from_hittable_list(&vec![[3, 4, 5]]);
    assert!(matches!(node, BvhNode::Leaf { object: 0 }));
}

#[test]
fn two_objects_split_in_key_order() {
    let node = BvhNode::from_hittable_list(&vec![[9, 9, 9], [1, 1, 1]]);
    assert_eq!(leaves_of(&node), vec![1, 0]);
    assert!(matches!(node, BvhNode::Split { .. }));
}

#[test]
fn same_order_on_every_axis_gives_sorted_leaves() {
    let keys: Vec<[u64; 3]> = (0..50u64).map(|i| {
        let k = (i * 37) % 50;
        [k, k + 100, 2 * k]
    }).collect();
    let node = BvhNode::from_hittable_list(&keys);
    let got = leaves_of(&node);
    let mut want: Vec<usize> = (0..50).collect();
    want.sort_by_key(|&i| keys[i][0]);
    assert_eq!(got, want);
}

#[test]
fn fifty_random_boxes_are_each_in_one_leaf() {
    let keys: Vec<[u64; 3]> = (0..50u64)
        .map(|i| [(i * 7919) % 101, (i * 104729) % 53, (i * 31) % 17])
        .collect();
    let node = BvhNode::from_hittable_list(&keys);
    let mut got = leaves_of(&node);
    got.sort();
    assert_eq!(got, (0..50).collect::<Vec<usize>>());
    check_splits(&node, &keys);
}

#[test]
fn equal_keys_still_split_strictly() {
    let keys = vec![[7, 7, 7]; 9];
    let node = BvhNode::from_hittable_list(&keys);
    let mut got = leaves_of(&node);
    got.sort();
    assert_eq!(got, (0..9).collect::<Vec<usize>>());
    check_splits(&node, &keys);
}

#[test]
fn new_joins_two_subtrees() {
    let node = BvhNode::new(BvhNode::Leaf { object: 2 }, BvhNode::Leaf { object: 5 });
    assert_eq!(leaves_of(&node), vec![2, 5]);
}

#[test]
fn hittable_list_keeps_insertion_order() {
    let mut list = HittableList::new(vec!['a', 'b']);
    list.add('c');
    assert_eq!(list.len(), 3);
    assert_eq!(list.objects(), &vec!['a', 'b', 'c']);
    assert_eq!(list.into_inner(), vec!['a', 'b', 'c']);
}

#[test]
fn equal_keys_split_by_index() {
    let keys = vec![[4, 1, 1]; 4];
    let (l, r) = split_on_axis(&vec![3, 0, 2, 1], &keys, 0);
    assert_eq!(l, vec![0, 1]);
    assert_eq!(r, vec![2, 3]);
}
