use marigold::bvh::{
    bin_count, bin_index, max_or, min_or, BoundingVolumeHierarchy, BvhBuilder, BvhNode, SplitOutcome,
    SplitRequest,
};

type Node = BvhNode<u32, 1, 1>;

fn root(len: u32) -> Node {
    BvhNode { bounds: 0, start_index: 0, len, child_node: 0 }
}

/// Builds a hierarchy with one object per leaf, always splitting a node in
/// the middle (lower half rounded down).
fn build_halving(len: u32, max_depth: u32) -> (Vec<Node>, Vec<SplitRequest>, u32) {
    let mut builder: BvhBuilder<u32, 1, 1> = BvhBuilder::new(root(len), max_depth);
    let mut requests = Vec::new();
    while let Some(request) = builder.next_split() {
        requests.push(request);
        let count_lt = request.len / 2;
        builder.split(SplitOutcome::Split { count_lt, bounds_lt: 1, bounds_gt: 2 });
    }
    let height = builder.height();
    let bvh: BoundingVolumeHierarchy<u32, 1, 1> = builder.finish();
    (bvh.into_nodes(), requests, height)
}

fn check_partition(nodes: &[Node], len: u32) {
    // every object lies in exactly one leaf
    let mut seen = vec![0u32; len as usize];
    for node in nodes {
        if node.child_node == 0 {
            for k in node.start_index..node.start_index + node.len {
                seen[k as usize] += 1;
            }
        }
    }
    assert!(seen.iter().all(|&c| c == 1), "{:?}", seen);
    // the children of a node split its range, upper part first
    for node in nodes {
        if node.child_node != 0 {
            let gt = &nodes[node.child_node as usize];
            let lt = &nodes[node.child_node as usize + 1];
            assert_eq!(lt.start_index, node.start_index);
            assert_eq!(gt.start_index, node.start_index + lt.len);
            assert_eq!(gt.len + lt.len, node.len);
        }
    }
}

#[test]
fn two_objects_split_into_two_leaves() {
    let (nodes, requests, height) = build_halving(2, 10);
    assert_eq!(requests, vec![SplitRequest { node_index: 0, start_index: 0, len: 2, depth: 0 }]);
    assert_eq!(nodes.len(), 3);
    assert_eq!((nodes[0].start_index, nodes[0].len, nodes[0].child_node), (0, 2, 1));
    // the upper side comes first
    assert_eq!((nodes[1].start_index, nodes[1].len, nodes[1].child_node), (1, 1, 0));
    assert_eq!((nodes[2].start_index, nodes[2].len, nodes[2].child_node), (0, 1, 0));
    assert_eq!(nodes[1].bounds, 2);
    assert_eq!(nodes[2].bounds, 1);
    assert_eq!(height, 0);
}

#[test]
fn upper_side_is_split_before_lower_side() {
    let (nodes, requests, _) = build_halving(4, 10);
    assert_eq!(requests.len(), 3);
    assert_eq!(requests[0], SplitRequest { node_index: 0, start_index: 0, len: 4, depth: 0 });
    assert_eq!(requests[1], SplitRequest { node_index: 1, start_index: 2, len: 2, depth: 1 });
    assert_eq!(requests[2], SplitRequest { node_index: 2, start_index: 0, len: 2, depth: 1 });
    assert_eq!(nodes.len(), 7);
    check_partition(&nodes, 4);
}

#[test]
fn one_object_is_a_single_leaf() {
    let (nodes, requests, height) = build_halving(1, 10);
    assert!(requests.is_empty());
    assert_eq!(nodes.len(), 1);
    assert_eq!((nodes[0].start_index, nodes[0].len, nodes[0].child_node), (0, 1, 0));
    assert_eq!(height, 0);
}

#[test]
fn node_count_is_twice_the_leaves_less_one() {
    for len in 1..60u32 {
        let (nodes, _, _) = build_halving(len, 64);
        check_partition(&nodes, len);
        let leaves = nodes.iter().filter(|n| n.child_node == 0).count();
        assert_eq!(nodes.len(), 2 * leaves - 1);
        assert_eq!(leaves, len as usize);
    }
}

#[test]
fn max_depth_stops_splitting() {
    let (nodes, requests, height) = build_halving(16, 2);
    // depths 0 and 1 are split, nodes at depth 2 stay leaves
    assert_eq!(requests.len(), 1 + 2);
    assert!(requests.iter().all(|r| r.depth < 2));
    assert_eq!(height, 1);
    let leaves: Vec<&Node> = nodes.iter().filter(|n| n.child_node == 0).collect();
    assert_eq!(leaves.len(), 4);
    assert!(leaves.iter().all(|n| n.len == 4));
    check_partition(&nodes, 16);
}

#[test]
fn keep_leaves_a_node_within_the_leaf_size() {
    let r: BvhNode<u32, 1, 4> = BvhNode { bounds: 0, start_index: 0, len: 6, child_node: 0 };
    let mut builder: BvhBuilder<u32, 1, 4> = BvhBuilder::new(r, 10);
    let first = builder.next_split().unwrap();
    assert_eq!(first.len, 6);
    assert_eq!((builder.current_node().len, builder.current_node().bounds), (6, 0));
    builder.split(SplitOutcome::Split { count_lt: 2, bounds_lt: 7, bounds_gt: 8 });
    let second = builder.next_split().unwrap();
    assert_eq!((second.node_index, second.start_index, second.len), (1, 2, 4));
    assert_eq!(builder.current_node().bounds, 8);
    builder.split(SplitOutcome::Keep);
    let third = builder.next_split().unwrap();
    assert_eq!((third.node_index, third.start_index, third.len), (2, 0, 2));
    builder.split(SplitOutcome::Keep);
    assert!(builder.next_split().is_none());
    let bvh = builder.finish();
    assert_eq!(bvh.nodes().len(), 3);
    assert_eq!(bvh.leaf_node_lengths(), vec![4, 2]);
}

#[test]
fn empty_hierarchy_has_no_nodes() {
    let bvh: BoundingVolumeHierarchy<u32, 1, 1> = BoundingVolumeHierarchy::empty();
    assert!(bvh.nodes().is_empty());
    assert!(bvh.leaf_node_lengths().is_empty());
}

#[test]
fn root_covers_the_whole_list() {
    let mut list = vec![5u8, 6, 7];
    let node: BvhNode<u32, 1, 1> = BvhNode::root_with_bounds(list.as_mut_slice(), 9);
    assert_eq!((node.bounds, node.start_index, node.len, node.child_node), (9, 0, 3, 0));
    assert_eq!(list, vec![5, 6, 7]);
    let inner: BvhNode<u32, 1, 1> = BvhNode { bounds: 0, start_index: 1, len: 2, child_node: 0 };
    assert_eq!(inner.slice(&list), &[6, 7]);
}

#[test]
fn split_is_looked_for_only_outside_the_leaf_limits() {
    let n = |len: u32| -> BvhNode<u32, 2, 8> { BvhNode { bounds: 0, start_index: 0, len, child_node: 0 } };
    assert!(!n(1).may_split(0, 10));
    assert!(!n(3).may_split(0, 10)); // within the maximum, below twice the minimum
    assert!(n(4).may_split(0, 10));
    assert!(!n(4).may_split(10, 10)); // at the maximum depth
    let big = |len: u32| -> BvhNode<u32, 5, 8> { BvhNode { bounds: 0, start_index: 0, len, child_node: 0 } };
    assert!(big(9).may_split(0, 10)); // over the maximum, though below twice the minimum
    assert!(!big(8).may_split(0, 10));
}

#[test]
fn a_split_is_taken_when_cheaper_or_forced() {
    let small: BvhNode<u32, 1, 4> = BvhNode { bounds: 0, start_index: 0, len: 4, child_node: 0 };
    assert!(small.accepts_split(false));
    assert!(!small.accepts_split(true));
    let large: BvhNode<u32, 1, 4> = BvhNode { bounds: 0, start_index: 0, len: 5, child_node: 0 };
    assert!(large.accepts_split(true));
}

#[test]
fn packed_word_with_one_object_per_leaf_is_the_child() {
    let node: BvhNode<u32, 1, 1> = BvhNode { bounds: 0, start_index: 3, len: 1, child_node: 12345 };
    assert_eq!(node.gpu_packed_word(), 12345);
}

#[test]
fn packed_word_holds_the_leaf_length_in_the_high_bits() {
    // four objects per leaf take two bits
    let leaf: BvhNode<u32, 1, 4> = BvhNode { bounds: 0, start_index: 0, len: 3, child_node: 0 };
    assert_eq!(leaf.gpu_packed_word(), 0xC000_0000);
    let inner: BvhNode<u32, 1, 4> = BvhNode { bounds: 0, start_index: 0, len: 8, child_node: 5 };
    assert_eq!(inner.gpu_packed_word(), 4);
    // five objects per leaf take three bits
    let leaf5: BvhNode<u32, 1, 5> = BvhNode { bounds: 0, start_index: 0, len: 5, child_node: 0 };
    assert_eq!(leaf5.gpu_packed_word(), 5 << 29);
}

#[test]
fn bins_follow_the_object_count() {
    assert_eq!(bin_count(0), 16);
    assert_eq!(bin_count(15), 16);
    assert_eq!(bin_count(16), 16);
    assert_eq!(bin_count(20), 20);
    assert_eq!(bin_count(32), 32);
    assert_eq!(bin_count(1000), 32);
    assert_eq!(bin_index(3, 16), 3);
    assert_eq!(bin_index(15, 16), 15);
    assert_eq!(bin_index(16, 16), 15);
    assert_eq!(bin_index(400, 16), 15);
}

#[test]
fn binned_split_counts_respect_the_minimum() {
    let bins = [1usize, 2, 3, 4];
    assert_eq!(BvhNode::<u32, 1, 8>::binned_split_counts(&bins, 2), Some((3, 7)));
    assert_eq!(BvhNode::<u32, 1, 8>::binned_split_counts(&bins, 0), None);
    assert_eq!(BvhNode::<u32, 1, 8>::binned_split_counts(&bins, 4), None);
    assert_eq!(BvhNode::<u32, 4, 8>::binned_split_counts(&bins, 2), None);
    assert_eq!(BvhNode::<u32, 3, 8>::binned_split_counts(&bins, 2), Some((3, 7)));
}

#[test]
fn feasibility_of_leaf_limits() {
    assert!(BoundingVolumeHierarchy::<u32, 4, 4>::feasible(8));
    assert!(!BoundingVolumeHierarchy::<u32, 4, 4>::feasible(9));
    assert!(BoundingVolumeHierarchy::<u32, 0, 0>::feasible(0));
    assert!(!BoundingVolumeHierarchy::<u32, 0, 0>::feasible(3));
    assert!(BoundingVolumeHierarchy::<u32, 2, 3>::feasible(7));
    assert!(!BoundingVolumeHierarchy::<u32, 3, 4>::feasible(7));
}

#[test]
fn initial_capacity_is_a_full_tree_over_the_fewest_leaves() {
    assert_eq!(BoundingVolumeHierarchy::<u32, 1, 1>::initial_node_capacity(1), 1);
    assert_eq!(BoundingVolumeHierarchy::<u32, 1, 1>::initial_node_capacity(10), 19);
    assert_eq!(BoundingVolumeHierarchy::<u32, 1, 4>::initial_node_capacity(10), 5);
    assert_eq!(BoundingVolumeHierarchy::<u32, 1, 4>::initial_node_capacity(8), 3);
}

#[test]
fn min_and_max_fall_back_to_the_default() {
    assert_eq!(min_or(&[], 7), 7);
    assert_eq!(max_or(&[], 7), 7);
    assert_eq!(min_or(&[4, 2, 9, 2], 0), 2);
    assert_eq!(max_or(&[4, 2, 9, 2], 0), 9);
}

#[test]
fn split_partition_moves_the_lower_side_first() {
    let mut list = vec![10u8, 11, 12, 13, 14, 15];
    let r: BvhNode<u32, 1, 1> = BvhNode { bounds: 0, start_index: 0, len: 6, child_node: 0 };
    let mut builder: BvhBuilder<u32, 1, 1> = BvhBuilder::new(r, 10);
    builder.next_split().unwrap();
    let count = builder.split_partition(list.as_mut_slice(), &[false, true, false, true, true, false], 1, 2);
    assert_eq!(count, 3);
    assert_eq!(&list[0..3], &[11, 13, 14]);
    assert_eq!(&list[3..], &[10, 12, 15]);
    let next = builder.next_split().unwrap();
    // the upper side, behind the lower one, is considered first
    assert_eq!((next.node_index, next.start_index, next.len), (1, 3, 3));
}

#[test]
fn packed_word_drops_the_low_child_bits() {
    let node: BvhNode<u32, 1, 4> = BvhNode { bounds: 0, start_index: 0, len: 2, child_node: 5 };
    assert_eq!(node.gpu_packed_word(), 0x8000_0004);
}
