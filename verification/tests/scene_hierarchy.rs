use marigold::scene_bvh::{
    find_height, partition_by_flags, BoundingVolumeHierarchy, BvhNode, SceneBvhBuilder, SceneSplitOutcome,
    MIN_OBJECTS_PER_NODE,
};

fn node(start_index: u32, len: u32, child_node: u32) -> BvhNode<u32> {
    BvhNode { bounds: 0, start_index, len, child_node }
}

#[test]
fn partition_moves_flagged_objects_to_the_front_in_order() {
    let mut list = vec![10, 11, 12, 13, 14, 15, 16];
    let flags = [false, true, true, false, true];
    let count = partition_by_flags(list.as_mut_slice(), 1, &flags);
    assert_eq!(count, 3);
    // objects 1..6 are 11..15; flagged ones are 12, 13, 15
    assert_eq!(&list[1..4], &[12, 13, 15]);
    // the unflagged ones follow in the order the swaps leave them
    assert_eq!(&list[4..6], &[14, 11]);
    // outside the range nothing moves
    assert_eq!(list[0], 10);
    assert_eq!(list[6], 16);
}

#[test]
fn partition_with_no_or_all_flags() {
    let mut list = vec![1, 2, 3];
    assert_eq!(partition_by_flags(list.as_mut_slice(), 0, &[false, false, false]), 0);
    let mut sorted = list.clone();
    sorted.sort();
    assert_eq!(sorted, vec![1, 2, 3]);
    let mut list = vec![1, 2, 3];
    assert_eq!(partition_by_flags(list.as_mut_slice(), 0, &[true, true, true]), 3);
    assert_eq!(list, vec![1, 2, 3]);
    let mut list = vec![1, 2, 3];
    assert_eq!(partition_by_flags(list.as_mut_slice(), 3, &[]), 0);
    assert_eq!(list, vec![1, 2, 3]);
}

/// Builds a scene hierarchy over `list`, putting objects above the middle
/// value of each node on the upper side.
fn build_by_value(list: &mut Vec<u32>, max_depth: u32) -> Vec<BvhNode<u32>> {
    let r = BvhNode::root_with_bounds(list.as_mut_slice(), 0u32);
    let mut builder = SceneBvhBuilder::new(r, max_depth);
    while let Some(request) = builder.next_split() {
        let objects = &list[request.start_index as usize..(request.start_index + request.len) as usize];
        let lo = *objects.iter().min().unwrap();
        let hi = *objects.iter().max().unwrap();
        let mid = (lo + hi) / 2;
        let greater: Vec<bool> = objects.iter().map(|&v| v > mid).collect();
        let outcome = SceneSplitOutcome::Partition { greater, bounds_gt: hi, bounds_lt: lo };
        assert_eq!(builder.current_node().len, request.len);
        builder.split(list.as_mut_slice(), outcome);
    }
    let bvh: BoundingVolumeHierarchy<u32> = builder.finish();
    bvh.into_nodes()
}

#[test]
fn scene_hierarchy_separates_values() {
    let mut list = vec![7, 1, 6, 0, 5, 2, 4, 3];
    let nodes = build_by_value(&mut list, 10);
    let mut sorted = list.clone();
    sorted.sort();
    assert_eq!(sorted, (0..8).collect::<Vec<u32>>());
    // the upper child holds the larger values and comes first
    let root = &nodes[0];
    assert_eq!((root.start_index, root.len), (0, 8));
    let gt = &nodes[root.child_node as usize];
    let lt = &nodes[root.child_node as usize + 1];
    assert_eq!((gt.start_index, gt.len), (0, 4));
    assert_eq!((lt.start_index, lt.len), (4, 4));
    assert!(list[0..4].iter().all(|&v| v >= 4));
    assert!(list[4..8].iter().all(|&v| v < 4));
    // leaves hold at most two objects and partition the list
    let mut seen = vec![0; 8];
    for n in &nodes {
        if n.child_node == 0 {
            assert!(n.len <= 2 * MIN_OBJECTS_PER_NODE);
            for k in n.start_index..n.start_index + n.len {
                seen[k as usize] += 1;
            }
        }
    }
    assert!(seen.iter().all(|&c| c == 1));
    let leaves = nodes.iter().filter(|n| n.child_node == 0).count();
    assert_eq!(nodes.len(), 2 * leaves - 1);
}

#[test]
fn one_sided_partition_keeps_the_node_a_leaf() {
    let mut list = vec![3u32, 3, 3, 3];
    let r = BvhNode::root_with_bounds(list.as_mut_slice(), 0u32);
    let mut builder = SceneBvhBuilder::new(r, 10);
    let request = builder.next_split().unwrap();
    assert_eq!(request.len, 4);
    let count_gt = builder.split(
        list.as_mut_slice(),
        SceneSplitOutcome::Partition { greater: vec![false; 4], bounds_gt: 0, bounds_lt: 0 },
    );
    // nothing went to the upper side, so no children are made
    assert_eq!(count_gt, Some(0));
    assert!(builder.next_split().is_none());
    let nodes = builder.finish().into_nodes();
    assert_eq!(nodes.len(), 1);
}

#[test]
fn split_reports_the_upper_count() {
    let mut list = vec![0u32, 9, 9, 0, 9];
    let r = BvhNode::root_with_bounds(list.as_mut_slice(), 0u32);
    let mut builder = SceneBvhBuilder::new(r, 1);
    builder.next_split().unwrap();
    let greater: Vec<bool> = list.iter().map(|&v| v > 4).collect();
    let count_gt = builder.split(list.as_mut_slice(), SceneSplitOutcome::Partition { greater, bounds_gt: 9, bounds_lt: 0 });
    assert_eq!(count_gt, Some(3));
    assert_eq!(&list[0..3], &[9, 9, 9]);
    // depth 1 is the maximum depth: nothing more is split
    assert!(builder.next_split().is_none());
    assert_eq!(builder.finish().nodes().len(), 3);
}

#[test]
fn keep_leaves_the_list_alone() {
    let mut list = vec![5u32, 4, 3];
    let r = BvhNode::root_with_bounds(list.as_mut_slice(), 0u32);
    let mut builder = SceneBvhBuilder::new(r, 4);
    builder.next_split().unwrap();
    assert_eq!(builder.split(list.as_mut_slice(), SceneSplitOutcome::Keep), None);
    assert_eq!(list, vec![5, 4, 3]);
    assert!(builder.next_split().is_none());
}

#[test]
fn small_nodes_are_not_split() {
    assert!(!node(0, 2, 0).may_split(0, 10));
    assert!(node(0, 3, 0).may_split(0, 10));
    assert!(!node(0, 3, 0).may_split(10, 10));
}

#[test]
fn height_of_subtrees() {
    let nodes = vec![node(0, 4, 1), node(2, 2, 3), node(0, 2, 0), node(3, 1, 0), node(2, 1, 0)];
    assert_eq!(find_height(&nodes, 0), 1);
    assert_eq!(find_height(&nodes, 1), 0);
    assert_eq!(find_height(&nodes, 2), -1);
    assert_eq!(find_height(&[node(0, 1, 0)], 0), -1);
}

#[test]
fn packed_word_keeps_five_length_bits() {
    assert_eq!(node(0, 3, 0).gpu_packed_word(), 3 << 25);
    assert_eq!(node(0, 100, 0).gpu_packed_word(), (100 & 0x1f) << 25);
    assert_eq!(node(0, 40, 7).gpu_packed_word(), (8 << 25) | 7);
    assert_eq!(node(0, 2, 0x0300_0001).gpu_packed_word(), (2 << 25) | 0x0100_0001);
}

#[test]
fn capacity_is_two_thirds_of_the_objects() {
    assert_eq!(BoundingVolumeHierarchy::<u32>::initial_node_capacity(0), 0);
    assert_eq!(BoundingVolumeHierarchy::<u32>::initial_node_capacity(3), 2);
    assert_eq!(BoundingVolumeHierarchy::<u32>::initial_node_capacity(10), 6);
    assert_eq!(BoundingVolumeHierarchy::<u32>::initial_node_capacity(11), 7);
    assert!(BoundingVolumeHierarchy::<u32>::empty().nodes().is_empty());
}
