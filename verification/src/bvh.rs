//! Binary bounding volume hierarchy with configurable leaf sizes.
//!
//! A node covers the contiguous range `start_index .. start_index + len` of the
//! object list. An internal node stores in `child_node` the index of its first
//! child: the child at `child_node` holds the upper part of the parent's range
//! (the objects on the "greater" side of the split), the child at
//! `child_node + 1` the lower part. A node with `child_node == 0` is a leaf.
//!
//! Choosing where to split depends on the geometry of the objects, which is
//! floating point and lives outside this crate. The construction is therefore
//! driven as a state machine: [`BvhBuilder::next_split`] hands out the next node
//! that may be split, the caller evaluates candidate splits and partitions the
//! objects of that node, and reports the outcome with [`BvhBuilder::split`].

use vstd::prelude::*;
use vstd::arithmetic::power2::{pow2, lemma_pow2_unfold, lemma_pow2_strictly_increases};
use crate::scene_bvh::{on_side, unflagged_order, partition_by_flags, lemma_partition_permutes};
use crate::tree::{
    NodeShape, hierarchy, split_shapes, valid_children, covers, leaf_count, lemma_split_hierarchy,
    lemma_root_hierarchy, lemma_object_in_exactly_one_leaf as shape_exactly_one_leaf,
    lemma_node_count as shape_node_count,
};

verus! {

/// A node of the hierarchy. `B` is the bounding volume type.
#[derive(Clone, Copy, Debug)]
pub struct BvhNode<B, const MIN_LEAF_OBJECTS: u32, const MAX_LEAF_OBJECTS: u32> {
    pub bounds: B,
    pub start_index: u32,
    pub len: u32,
    pub child_node: u32,
}

/// Exponent of the smallest power of two that is at least `m`.
pub open spec fn len_field_bits(m: nat) -> nat {
    choose|b: nat| #[trigger] pow2(b) >= m && (b == 0 || pow2((b - 1) as nat) < m)
}

/// The packed word: the leaf length in the high `bits` bits, the child index
/// masked by the complement of the length mask in the remaining bits. That
/// mask clears the child index's low `bits` bits and keeps its high ones, so
/// the child index is kept whole only when those low bits are zero; a
/// length of 2 with child 5 and two length bits packs to `0x8000_0004`.
pub open spec fn packed_word(len: u32, child_node: u32, bits: nat) -> u32 {
    let len_mask: u32 = ((1u32 << (bits as u32)) - 1) as u32;
    ((len & len_mask) << ((32 - bits) as u32)) | (child_node & !len_mask)
}

/// Object range and child index of a node.
pub open spec fn shape<B, const LO: u32, const HI: u32>(n: BvhNode<B, LO, HI>) -> NodeShape {
    NodeShape { start: n.start_index as int, len: n.len as int, child: n.child_node as int }
}

/// Shapes of a node list.
pub open spec fn shapes<B, const LO: u32, const HI: u32>(nodes: Seq<BvhNode<B, LO, HI>>) -> Seq<NodeShape> {
    nodes.map_values(|n: BvhNode<B, LO, HI>| shape(n))
}

/// A leaf that is no longer waiting for a decision is within the maximum leaf
/// size, holds a single object, or sits at the maximum depth.
pub open spec fn settled_leaf<B, const LO: u32, const HI: u32>(
    n: BvhNode<B, LO, HI>,
    depth: int,
    max_depth: int,
) -> bool {
    n.len <= 1 || n.len <= HI || depth == max_depth
}

/// A finished hierarchy over `count` objects built with `max_depth`, given the
/// depth of each node: children split their parent's range with the upper part
/// in the first child, the leaves partition the objects, and every leaf is settled.
pub open spec fn finished_tree<B, const LO: u32, const HI: u32>(
    nodes: Seq<BvhNode<B, LO, HI>>,
    depths: Seq<int>,
    count: int,
    max_depth: int,
) -> bool {
    &&& hierarchy(shapes(nodes), depths, count, max_depth, false)
    &&& forall|i: int|
        0 <= i < nodes.len() && #[trigger] nodes[i].child_node == 0 ==> settled_leaf(
            nodes[i],
            depths[i],
            max_depth,
        )
}

/// The upper-side child of node `i` split with `count_lt` objects on the lower side.
pub open spec fn upper_child<B, const LO: u32, const HI: u32>(
    n: BvhNode<B, LO, HI>,
    count_lt: u32,
    bounds_gt: B,
) -> BvhNode<B, LO, HI> {
    BvhNode {
        bounds: bounds_gt,
        start_index: (n.start_index + count_lt) as u32,
        len: (n.len - count_lt) as u32,
        child_node: 0,
    }
}

/// The lower-side child of node `i` split with `count_lt` objects on the lower side.
pub open spec fn lower_child<B, const LO: u32, const HI: u32>(
    n: BvhNode<B, LO, HI>,
    count_lt: u32,
    bounds_lt: B,
) -> BvhNode<B, LO, HI> {
    BvhNode { bounds: bounds_lt, start_index: n.start_index, len: count_lt, child_node: 0 }
}

/// The node list after node `i` was split with `count_lt` objects on the lower
/// side: the upper-side child then the lower-side child are appended.
pub open spec fn split_nodes<B, const LO: u32, const HI: u32>(
    nodes: Seq<BvhNode<B, LO, HI>>,
    i: int,
    count_lt: u32,
    bounds_lt: B,
    bounds_gt: B,
) -> Seq<BvhNode<B, LO, HI>> {
    let n = nodes[i];
    nodes.update(i, BvhNode { child_node: nodes.len() as u32, ..n }).push(
        upper_child(n, count_lt, bounds_gt),
    ).push(lower_child(n, count_lt, bounds_lt))
}

proof fn lemma_split_nodes_shapes<B, const LO: u32, const HI: u32>(
    nodes: Seq<BvhNode<B, LO, HI>>,
    i: int,
    count_lt: u32,
    bounds_lt: B,
    bounds_gt: B,
)
    requires
        0 <= i < nodes.len() <= u32::MAX,
        0 < count_lt < nodes[i].len,
        nodes[i].start_index + nodes[i].len <= u32::MAX,
    ensures
        shapes(split_nodes(nodes, i, count_lt, bounds_lt, bounds_gt)) == split_shapes(
            shapes(nodes),
            i,
            shape(upper_child(nodes[i], count_lt, bounds_gt)),
            shape(lower_child(nodes[i], count_lt, bounds_lt)),
        ),
        valid_children(
            shapes(nodes)[i],
            shape(upper_child(nodes[i], count_lt, bounds_gt)),
            shape(lower_child(nodes[i], count_lt, bounds_lt)),
            false,
        ),
{
    let n = nodes[i];
    let ni = BvhNode { child_node: nodes.len() as u32, ..n };
    assert(shape(ni) == NodeShape { child: nodes.len() as int, ..shapes(nodes)[i] });
    assert(shapes(split_nodes(nodes, i, count_lt, bounds_lt, bounds_gt)) =~= split_shapes(
        shapes(nodes),
        i,
        shape(upper_child(nodes[i], count_lt, bounds_gt)),
        shape(lower_child(nodes[i], count_lt, bounds_lt)),
    ));
}

impl<B, const MIN_LEAF_OBJECTS: u32, const MAX_LEAF_OBJECTS: u32> BvhNode<
    B,
    MIN_LEAF_OBJECTS,
    MAX_LEAF_OBJECTS,
> {
    /// The root of a hierarchy: it covers the whole list and has no children yet.
    pub fn root_with_bounds<T>(list: &mut [T], bounds: B) -> (node: Self)
        ensures
            node.bounds == bounds,
            node.start_index == 0,
            node.len == old(list)@.len() as u32,
            node.child_node == 0,
            final(list)@ == old(list)@,
    {
        BvhNode { bounds, start_index: 0, len: list.len() as u32, child_node: 0 }
    }

    /// The objects covered by this node.
    pub fn slice<'a, T>(self, list: &'a [T]) -> (objects: &'a [T])
        requires
            self.start_index + self.len <= list@.len(),
        ensures
            objects@ == list@.subrange(
                self.start_index as int,
                self.start_index + self.len,
            ),
    {
        let n = list.len();
        let start = self.start_index as usize;
        let end = start + self.len as usize;
        vstd::slice::slice_subrange(list, start, end)
    }

    /// A node is kept as a leaf without looking for a split when it holds at most
    /// one object, when it is at the maximum depth, or when it is within the
    /// maximum leaf size but too small for both halves to reach the minimum leaf size.
    pub open spec fn stays_leaf(len: u32, depth: u32, max_depth: u32) -> bool {
        ||| len <= 1
        ||| depth == max_depth
        ||| (len <= MAX_LEAF_OBJECTS && len < 2 * MIN_LEAF_OBJECTS)
    }

    /// Whether a split of this node at `depth` is to be looked for at all.
    pub fn may_split(&self, depth: u32, max_depth: u32) -> (r: bool)
        ensures
            r == !Self::stays_leaf(self.len, depth, max_depth),
            self.len <= 1 ==> !r,
            depth == max_depth ==> !r,
            self.len <= MAX_LEAF_OBJECTS && self.len < 2 * MIN_LEAF_OBJECTS ==> !r,
            self.len > 1 && depth != max_depth && self.len > MAX_LEAF_OBJECTS ==> r,
            self.len > 1 && depth != max_depth && self.len >= 2 * MIN_LEAF_OBJECTS ==> r,
    {
        !(self.len <= 1 || depth == max_depth || (self.len <= MAX_LEAF_OBJECTS && (self.len as u64)
            < 2 * (MIN_LEAF_OBJECTS as u64)))
    }

    /// Whether a split that was found is taken: a node over the maximum leaf size
    /// is always split; otherwise only when the split is cheaper than the leaf.
    pub fn accepts_split(&self, split_cost_not_lower: bool) -> (r: bool)
        ensures
            r == !(self.len <= MAX_LEAF_OBJECTS && split_cost_not_lower),
            self.len > MAX_LEAF_OBJECTS ==> r,
            self.len <= MAX_LEAF_OBJECTS ==> r == !split_cost_not_lower,
    {
        !(self.len <= MAX_LEAF_OBJECTS && split_cost_not_lower)
    }

    /// The word that follows the upper bound in the GPU layout of a node. With at
    /// most one object per leaf it is the child index; otherwise the leaf length
    /// is packed into the high bits and the child index is masked as
    /// [`packed_word`] describes, losing its low bits.
    pub fn gpu_packed_word(&self) -> (word: u32)
        requires
            MAX_LEAF_OBJECTS == 1 || (2 <= MAX_LEAF_OBJECTS <= 0x8000_0000),
            MAX_LEAF_OBJECTS != 1 && self.child_node == 0 ==> self.len < pow2(
                len_field_bits(MAX_LEAF_OBJECTS as nat),
            ),
        ensures
            MAX_LEAF_OBJECTS == 1 ==> word == self.child_node,
            MAX_LEAF_OBJECTS != 1 ==> word == packed_word(
                self.len,
                self.child_node,
                len_field_bits(MAX_LEAF_OBJECTS as nat),
            ),
    {
        if MAX_LEAF_OBJECTS == 1 {
            self.child_node
        } else {
            let len_bits = len_bits_for(MAX_LEAF_OBJECTS);
            let child_node_bits = 32 - len_bits;
            assert((1u32 << len_bits) >= 1u32) by (bit_vector)
                requires
                    len_bits <= 31,
            ;
            let len_mask: u32 = (1u32 << len_bits) - 1;
            let child_node_mask = !len_mask;
            let packed = (self.len & len_mask) << child_node_bits;
            packed | (self.child_node & child_node_mask)
        }
    }
}

proof fn lemma_len_field_bits_unique(m: nat, b: nat)
    requires
        pow2(b) >= m,
        b == 0 || pow2((b - 1) as nat) < m,
    ensures
        len_field_bits(m) == b,
{
    let c = len_field_bits(m);
    assert(pow2(c) >= m && (c == 0 || pow2((c - 1) as nat) < m));
    if c < b {
        if c <= (b - 1) as nat {
            if c < (b - 1) as nat {
                lemma_pow2_strictly_increases(c, (b - 1) as nat);
            }
        }
    } else if b < c {
        if b < (c - 1) as nat {
            lemma_pow2_strictly_increases(b, (c - 1) as nat);
        }
    }
}

/// Exponent of the smallest power of two that is at least `m` (`m.next_power_of_two().ilog2()`).
fn len_bits_for(m: u32) -> (bits: u32)
    requires
        2 <= m <= 0x8000_0000,
    ensures
        bits == len_field_bits(m as nat),
        1 <= bits <= 31,
{
    let mut bits: u32 = 0;
    let mut p: u64 = 1;
    proof {
        vstd::arithmetic::power2::lemma2_to64();
    }
    while p < m as u64
        invariant
            2 <= m <= 0x8000_0000,
            p == pow2(bits as nat),
            bits == 0 || pow2((bits - 1) as nat) < m,
            bits <= 31,
            p >= 1,
        decreases 32 - bits,
    {
        proof {
            lemma_pow2_unfold((bits + 1) as nat);
            if bits == 31 {
                vstd::arithmetic::power2::lemma2_to64();
                assert(false);
            }
        }
        p = p * 2;
        bits = bits + 1;
    }
    proof {
        lemma_len_field_bits_unique(m as nat, bits as nat);
        if bits == 0 {
            vstd::arithmetic::power2::lemma2_to64();
        }
    }
    bits
}

/// A node waiting for the decision whether and where to split it.
#[derive(Clone, Copy, Debug, PartialEq, Eq, Structural)]
pub struct SplitRequest {
    /// Index of the node in the node list.
    pub node_index: u32,
    /// First object covered by the node.
    pub start_index: u32,
    /// Number of objects covered by the node.
    pub len: u32,
    /// Depth of the node; the root is at depth 0.
    pub depth: u32,
}

/// What the caller decided for a [`SplitRequest`].
pub enum SplitOutcome<B> {
    /// Keep the node as a leaf: no split was found, or the split found is not
    /// cheaper than the leaf.
    Keep,
    /// Split the node. The caller has reordered the node's objects so that the
    /// first `count_lt` of them are on the lower side of the split.
    Split { count_lt: u32, bounds_lt: B, bounds_gt: B },
}

/// Builds a hierarchy depth first, larger side first, by alternating
/// [`BvhBuilder::next_split`] and [`BvhBuilder::split`].
pub struct BvhBuilder<B, const MIN_LEAF_OBJECTS: u32, const MAX_LEAF_OBJECTS: u32> {
    nodes: Vec<BvhNode<B, MIN_LEAF_OBJECTS, MAX_LEAF_OBJECTS>>,
    pending: Vec<(u32, u32)>,
    current: Option<SplitRequest>,
    object_count: u32,
    max_depth: u32,
    height: u32,
    depths: Ghost<Seq<int>>,
}

/// Is node `i` waiting on the stack?
pub open spec fn is_pending(pending: Seq<(u32, u32)>, i: int) -> bool {
    exists|q: int| 0 <= q < pending.len() && #[trigger] pending[q].0 == i
}

impl<B: Copy, const MIN_LEAF_OBJECTS: u32, const MAX_LEAF_OBJECTS: u32> BvhBuilder<
    B,
    MIN_LEAF_OBJECTS,
    MAX_LEAF_OBJECTS,
> {
    /// The nodes built so far.
    pub closed spec fn nodes_view(&self) -> Seq<BvhNode<B, MIN_LEAF_OBJECTS, MAX_LEAF_OBJECTS>> {
        self.nodes@
    }

    /// The stack of (node index, depth) still to be considered; the last entry is next.
    pub closed spec fn pending_view(&self) -> Seq<(u32, u32)> {
        self.pending@
    }

    /// The request handed out and not yet answered.
    pub closed spec fn current_view(&self) -> Option<SplitRequest> {
        self.current
    }

    pub closed spec fn object_count_view(&self) -> u32 {
        self.object_count
    }

    pub closed spec fn max_depth_view(&self) -> u32 {
        self.max_depth
    }

    /// Depth of each node.
    pub closed spec fn depths_view(&self) -> Seq<int> {
        self.depths@
    }

    /// Greatest depth of a node that was split (0 when the root was not split).
    pub closed spec fn height_view(&self) -> u32 {
        self.height
    }

    pub closed spec fn wf(&self) -> bool {
        let nodes = self.nodes@;
        let depths = self.depths@;
        let pending = self.pending@;
        &&& 1 <= self.object_count <= 0x8000_0000
        &&& hierarchy(shapes(nodes), depths, self.object_count as int, self.max_depth as int, false)
        &&& forall|i: int|
            0 <= i < nodes.len() && #[trigger] nodes[i].child_node != 0 ==> depths[i]
                <= self.height
        &&& (self.height == 0 || exists|i: int|
            0 <= i < nodes.len() && #[trigger] nodes[i].child_node != 0 && depths[i]
                == self.height)
        &&& forall|q: int|
            0 <= q < pending.len() ==> {
                let idx = (#[trigger] pending[q]).0 as int;
                &&& idx < nodes.len()
                &&& nodes[idx].child_node == 0
                &&& depths[idx] == pending[q].1
            }
        &&& forall|q: int, r: int|
            0 <= q < pending.len() && 0 <= r < pending.len() && q != r ==> (#[trigger] pending[q]).0
                != (#[trigger] pending[r]).0
        &&& (self.current matches Some(req) ==> {
            let idx = req.node_index as int;
            &&& idx < nodes.len()
            &&& nodes[idx].child_node == 0
            &&& req.start_index == nodes[idx].start_index
            &&& req.len == nodes[idx].len
            &&& req.depth == depths[idx]
            &&& !BvhNode::<B, MIN_LEAF_OBJECTS, MAX_LEAF_OBJECTS>::stays_leaf(
                req.len,
                req.depth,
                self.max_depth,
            )
            &&& !is_pending(pending, idx)
        })
        &&& forall|i: int|
            0 <= i < nodes.len() && #[trigger] nodes[i].child_node == 0 && !is_pending(pending, i)
                && !(self.current matches Some(req) && req.node_index == i) ==> settled_leaf(
                nodes[i],
                depths[i],
                self.max_depth as int,
            )
    }

    /// Starts the construction from a root node over `object_count` objects.
    pub fn new(
        root: BvhNode<B, MIN_LEAF_OBJECTS, MAX_LEAF_OBJECTS>,
        max_depth: u32,
    ) -> (builder: Self)
        requires
            root.start_index == 0,
            root.child_node == 0,
            1 <= root.len <= 0x8000_0000,
        ensures
            builder.wf(),
            builder.nodes_view() == seq![root],
            builder.pending_view() == seq![(0u32, 0u32)],
            builder.current_view() is None,
            builder.object_count_view() == root.len,
            builder.max_depth_view() == max_depth,
            builder.height_view() == 0,
    {
        let mut nodes = Vec::new();
        nodes.push(root);
        let mut pending = Vec::new();
        pending.push((0u32, 0u32));
        let ghost root_depths: Seq<int> = seq![0int];
        let b = BvhBuilder {
            nodes,
            pending,
            current: None,
            object_count: root.len,
            max_depth,
            height: 0,
            depths: Ghost(root_depths),
        };
        proof {
            assert(b.nodes@ == seq![root]);
            assert(shapes(b.nodes@) =~= seq![shape(root)]);
            lemma_root_hierarchy(shape(root), root.len as int, false);
            assert(crate::tree::depths_consistent(seq![shape(root)], seq![0int], max_depth as int));
            assert(is_pending(b.pending@, 0)) by {
                assert(b.pending@[0].0 == 0);
            }
        }
        b
    }

    /// Pops the stack until a node is found for which a split is to be looked
    /// for; the nodes popped before it stay leaves. `None` once the stack is empty.
    pub fn next_split(&mut self) -> (request: Option<SplitRequest>)
        requires
            old(self).wf(),
            old(self).current_view() is None,
        ensures
            final(self).wf(),
            final(self).nodes_view() == old(self).nodes_view(),
            final(self).depths_view() == old(self).depths_view(),
            final(self).object_count_view() == old(self).object_count_view(),
            final(self).max_depth_view() == old(self).max_depth_view(),
            final(self).height_view() == old(self).height_view(),
            final(self).current_view() == request,
            ({
                let k = final(self).pending_view().len();
                let old_pending = old(self).pending_view();
                let nodes = old(self).nodes_view();
                &&& k <= old_pending.len()
                &&& final(self).pending_view() == old_pending.subrange(0, k as int)
                &&& forall|q: int|
                    k < q < old_pending.len() ==> {
                        let idx = (#[trigger] old_pending[q]).0 as int;
                        BvhNode::<B, MIN_LEAF_OBJECTS, MAX_LEAF_OBJECTS>::stays_leaf(
                            nodes[idx].len,
                            old_pending[q].1,
                            old(self).max_depth_view(),
                        )
                    }
                &&& match request {
                    None => k == 0 && (old_pending.len() > 0 ==> {
                        let idx = old_pending[0].0 as int;
                        BvhNode::<B, MIN_LEAF_OBJECTS, MAX_LEAF_OBJECTS>::stays_leaf(
                            nodes[idx].len,
                            old_pending[0].1,
                            old(self).max_depth_view(),
                        )
                    }),
                    Some(req) => k < old_pending.len() && req.node_index == old_pending[k as int].0
                        && req.depth == old_pending[k as int].1 && req.start_index
                        == nodes[req.node_index as int].start_index && req.len
                        == nodes[req.node_index as int].len
                        && !BvhNode::<B, MIN_LEAF_OBJECTS, MAX_LEAF_OBJECTS>::stays_leaf(
                        req.len,
                        req.depth,
                        old(self).max_depth_view(),
                    ),
                }
            }),
    {
        let ghost old_pending = self.pending@;
        let ghost nodes = self.nodes@;
        while self.pending.len() > 0
            invariant
                self.wf(),
                self.current is None,
                self.nodes@ == nodes,
                self.depths@ == old(self).depths@,
                self.object_count == old(self).object_count,
                self.max_depth == old(self).max_depth,
                self.height == old(self).height,
                nodes == old(self).nodes@,
                old_pending == old(self).pending@,
                self.pending@ == old_pending.subrange(0, self.pending@.len() as int),
                self.pending@.len() <= old_pending.len(),
                forall|q: int|
                    self.pending@.len() <= q < old_pending.len() ==> {
                        let idx = (#[trigger] old_pending[q]).0 as int;
                        BvhNode::<B, MIN_LEAF_OBJECTS, MAX_LEAF_OBJECTS>::stays_leaf(
                            nodes[idx].len,
                            old_pending[q].1,
                            self.max_depth,
                        )
                    },
            decreases self.pending@.len(),
        {
            let ghost before = self.pending@;
            let (idx, depth) = self.pending.pop().unwrap();
            proof {
                assert(before[before.len() - 1] == (idx, depth));
                assert(self.pending@ =~= before.drop_last());
                assert(before[before.len() - 1] == old_pending[before.len() - 1]);
                assert(!is_pending(self.pending@, idx as int)) by {
                    if is_pending(self.pending@, idx as int) {
                        let q = choose|q: int|
                            0 <= q < self.pending@.len() && #[trigger] self.pending@[q].0 == idx;
                        assert(before[q] == self.pending@[q]);
                        assert(before[q].0 != before[before.len() - 1].0);
                    }
                }
                assert forall|i: int|
                    0 <= i < nodes.len() && nodes[i].child_node == 0 && is_pending(self.pending@, i)
                        implies is_pending(before, i) by {
                    let q = choose|q: int|
                        0 <= q < self.pending@.len() && #[trigger] self.pending@[q].0 == i;
                    assert(before[q] == self.pending@[q]);
                }
            }
            proof {
                assert forall|i: int|
                    0 <= i < nodes.len() && #[trigger] nodes[i].child_node == 0 && !is_pending(
                        self.pending@,
                        i,
                    ) && i != idx implies settled_leaf(nodes[i], self.depths@[i], self.max_depth as int) by {
                    {
                        if is_pending(before, i) {
                            let q = choose|q: int|
                                0 <= q < before.len() && #[trigger] before[q].0 == i;
                            if q < before.len() - 1 {
                                assert(self.pending@[q] == before[q]);
                            }
                        }
                    }
                }
            }
            let node = self.nodes[idx as usize];
            if node.may_split(depth, self.max_depth) {
                let req = SplitRequest {
                    node_index: idx,
                    start_index: node.start_index,
                    len: node.len,
                    depth,
                };
                self.current = Some(req);
                return Some(req);
            }
        }
        None
    }

    /// Applies the decision for the current request. A split appends the
    /// upper-side child and then the lower-side child to the node list, records
    /// the first of them as the node's child, and pushes both on the stack so
    /// that the upper side is considered first.
    pub fn split(&mut self, outcome: SplitOutcome<B>)
        requires
            old(self).wf(),
            old(self).current_view() is Some,
            outcome is Keep ==> old(self).current_view().unwrap().len <= MAX_LEAF_OBJECTS,
            outcome matches SplitOutcome::Split { count_lt, .. } ==> 0 < count_lt
                < old(self).current_view().unwrap().len,
        ensures
            final(self).wf(),
            final(self).current_view() is None,
            final(self).object_count_view() == old(self).object_count_view(),
            final(self).max_depth_view() == old(self).max_depth_view(),
            ({
                let req = old(self).current_view().unwrap();
                let i = req.node_index as int;
                let c = old(self).nodes_view().len();
                match outcome {
                    SplitOutcome::Keep => {
                        &&& final(self).nodes_view() == old(self).nodes_view()
                        &&& final(self).pending_view() == old(self).pending_view()
                        &&& final(self).depths_view() == old(self).depths_view()
                        &&& final(self).height_view() == old(self).height_view()
                    },
                    SplitOutcome::Split { count_lt, bounds_lt, bounds_gt } => {
                        &&& final(self).nodes_view() == split_nodes(
                            old(self).nodes_view(),
                            i,
                            count_lt,
                            bounds_lt,
                            bounds_gt,
                        )
                        &&& final(self).pending_view() == old(self).pending_view().push(
                            ((c + 1) as u32, (req.depth + 1) as u32),
                        ).push((c as u32, (req.depth + 1) as u32))
                        &&& final(self).depths_view() == old(self).depths_view().push(
                            req.depth + 1,
                        ).push(req.depth + 1)
                        &&& final(self).height_view() == (if req.depth > old(self).height_view() {
                            req.depth
                        } else {
                            old(self).height_view()
                        })
                    },
                }
            }),
    {
        let req = self.current.unwrap();
        self.current = None;
        match outcome {
            SplitOutcome::Keep => {
                proof {
                    assert forall|i: int|
                        0 <= i < self.nodes@.len() && #[trigger] self.nodes@[i].child_node == 0
                            && !is_pending(self.pending@, i) implies settled_leaf(
                        self.nodes@[i],
                        self.depths@[i],
                        self.max_depth as int,
                    ) by {
                        if i == req.node_index {
                            assert(self.nodes@[i].len <= MAX_LEAF_OBJECTS);
                        }
                    }
                }
            },
            SplitOutcome::Split { count_lt, bounds_lt, bounds_gt } => {
                let ghost old_nodes = self.nodes@;
                let ghost old_depths = self.depths@;
                let ghost old_pending = self.pending@;
                let i = req.node_index as usize;
                let c = self.nodes.len();
                proof {
                    assert(old_nodes.len() <= 2 * self.object_count - 1) by {
                        shape_node_count(shapes(old_nodes), old_depths, self.object_count as int, self.max_depth as int, false);
                    }
                    assert(shapes(old_nodes)[i as int] == shape(old_nodes[i as int]));
                    assert(shapes(old_nodes)[i as int].child == 0);
                    assert(shapes(old_nodes)[i as int].start + shapes(old_nodes)[i as int].len
                        <= self.object_count);
                    lemma_split_nodes_shapes(old_nodes, i as int, count_lt, bounds_lt, bounds_gt);
                    lemma_split_hierarchy(
                        shapes(old_nodes),
                        old_depths,
                        self.object_count as int,
                        self.max_depth as int,
                        false,
                        i as int,
                        shape(upper_child(old_nodes[i as int], count_lt, bounds_gt)),
                        shape(lower_child(old_nodes[i as int], count_lt, bounds_lt)),
                    );
                }
                let mut node = self.nodes[i];
                node.child_node = c as u32;
                self.nodes.set(i, node);
                let gt = BvhNode {
                    bounds: bounds_gt,
                    start_index: req.start_index + count_lt,
                    len: req.len - count_lt,
                    child_node: 0,
                };
                let lt = BvhNode {
                    bounds: bounds_lt,
                    start_index: req.start_index,
                    len: count_lt,
                    child_node: 0,
                };
                self.nodes.push(gt);
                self.nodes.push(lt);
                let child_depth = req.depth + 1;
                self.pending.push(((c + 1) as u32, child_depth));
                self.pending.push((c as u32, child_depth));
                if req.depth > self.height {
                    self.height = req.depth;
                }
                proof {
                    self.depths@ = old_depths.push(child_depth as int).push(child_depth as int);
                    assert(self.nodes@ =~= split_nodes(
                        old_nodes,
                        i as int,
                        count_lt,
                        bounds_lt,
                        bounds_gt,
                    ));
                    let nodes = self.nodes@;
                    let pending = self.pending@;
                    assert(old_depths[i as int] == req.depth);
                    assert(hierarchy(shapes(nodes), self.depths@, self.object_count as int, self.max_depth as int, false));
                    assert(nodes[i as int].child_node != 0);
                    assert forall|q: int|
                        0 <= q < pending.len() implies {
                            let idx = (#[trigger] pending[q]).0 as int;
                            &&& idx < nodes.len()
                            &&& nodes[idx].child_node == 0
                            &&& self.depths@[idx] == pending[q].1
                        } by {
                        if q < old_pending.len() {
                            assert(pending[q] == old_pending[q]);
                            let idx = pending[q].0 as int;
                            assert(idx != i) by {
                                assert(is_pending(old_pending, idx)) by {
                                    assert(old_pending[q].0 == idx);
                                }
                            }
                            assert(nodes[idx] == old_nodes[idx]);
                        }
                    }
                    assert forall|q: int, r: int|
                        0 <= q < pending.len() && 0 <= r < pending.len() && q != r implies (#[trigger] pending[q]).0
                            != (#[trigger] pending[r]).0 by {
                        if q < old_pending.len() && r < old_pending.len() {
                            assert(pending[q] == old_pending[q] && pending[r] == old_pending[r]);
                        } else if q < old_pending.len() {
                            assert(pending[q] == old_pending[q]);
                        } else if r < old_pending.len() {
                            assert(pending[r] == old_pending[r]);
                        }
                    }
                    assert forall|j: int|
                        0 <= j < nodes.len() && #[trigger] nodes[j].child_node != 0 implies self.depths@[j]
                            <= self.height by {
                        if j != i {
                            assert(nodes[j] == old_nodes[j]);
                        }
                    }
                    if self.height != 0 {
                        if self.height == req.depth {
                            assert(nodes[i as int].child_node != 0 && self.depths@[i as int] == self.height);
                        } else {
                            let w = choose|w: int|
                                0 <= w < old_nodes.len() && #[trigger] old_nodes[w].child_node != 0
                                    && old_depths[w] == self.height;
                            assert(w != i);
                            assert(nodes[w] == old_nodes[w]);
                            assert(self.depths@[w] == old_depths[w]);
                        }
                    }
                    assert forall|j: int|
                        0 <= j < nodes.len() && #[trigger] nodes[j].child_node == 0 && !is_pending(
                            pending,
                            j,
                        ) implies settled_leaf(nodes[j], self.depths@[j], self.max_depth as int) by {
                        if j >= c {
                            assert(pending[pending.len() - 1].0 == c);
                            assert(pending[pending.len() - 2].0 == c + 1);
                            assert(is_pending(pending, j));
                        } else {
                            assert(j != i);
                            assert(nodes[j] == old_nodes[j]);
                            if is_pending(old_pending, j) {
                                let q = choose|q: int|
                                    0 <= q < old_pending.len() && #[trigger] old_pending[q].0 == j;
                                assert(pending[q] == old_pending[q]);
                                assert(is_pending(pending, j));
                            }
                        }
                    }
                }
            },
        }
    }

    /// Ends the construction once no node is left to consider.
    pub fn finish(self) -> (bvh: BoundingVolumeHierarchy<B, MIN_LEAF_OBJECTS, MAX_LEAF_OBJECTS>)
        requires
            self.wf(),
            self.current_view() is None,
            self.pending_view().len() == 0,
        ensures
            bvh.nodes_view() == self.nodes_view(),
            bvh.depths_view() == self.depths_view(),
            finished_tree(
                bvh.nodes_view(),
                bvh.depths_view(),
                self.object_count_view() as int,
                self.max_depth_view() as int,
            ),
    {
        proof {
            assert forall|i: int|
                0 <= i < self.nodes@.len() && #[trigger] self.nodes@[i].child_node == 0 implies settled_leaf(
                self.nodes@[i],
                self.depths@[i],
                self.max_depth as int,
            ) by {
                assert(!is_pending(self.pending@, i));
            }
        }
        BoundingVolumeHierarchy { nodes: self.nodes, depths: self.depths }
    }

    /// Splits the current node by `lower`, the side of each of its objects in
    /// their current order (`true` for the lower side). The node's objects in
    /// `list` are reordered lower side first, that side keeping its order,
    /// the rest of `list` is left alone, and the node is split as `split`
    /// does with the lower side's count, which is returned.
    pub fn split_partition<T>(&mut self, list: &mut [T], lower: &[bool], bounds_lt: B, bounds_gt: B) -> (count_lt: u32)
        requires
            old(self).wf(),
            old(self).current_view() is Some,
            old(list)@.len() == old(self).object_count_view(),
            lower@.len() == old(self).current_view().unwrap().len,
            ({
                let req = old(self).current_view().unwrap();
                let range = old(list)@.subrange(req.start_index as int, req.start_index + req.len);
                0 < on_side(range, lower@, true).len() < req.len
            }),
        ensures
            final(self).wf(),
            final(self).current_view() is None,
            final(self).object_count_view() == old(self).object_count_view(),
            final(self).max_depth_view() == old(self).max_depth_view(),
            final(list)@.len() == old(list)@.len(),
            final(list)@.to_multiset() == old(list)@.to_multiset(),
            ({
                let req = old(self).current_view().unwrap();
                let i = req.node_index as int;
                let c = old(self).nodes_view().len();
                let start = req.start_index as int;
                let end = start + req.len;
                let range = old(list)@.subrange(start, end);
                &&& 0 <= i < c <= u32::MAX
                &&& old(self).nodes_view()[i].child_node == 0
                &&& old(self).nodes_view()[i].start_index == req.start_index
                &&& old(self).nodes_view()[i].len == req.len
                &&& end <= old(list)@.len()
                &&& end <= u32::MAX
                &&& count_lt == on_side(range, lower@, true).len()
                &&& final(list)@.subrange(start, start + count_lt) == on_side(range, lower@, true)
                &&& final(list)@.subrange(start + count_lt, end) == unflagged_order(range, lower@)
                &&& final(list)@.subrange(start + count_lt, end).to_multiset() == on_side(
                    range,
                    lower@,
                    false,
                ).to_multiset()
                &&& forall|k: int|
                    0 <= k < old(list)@.len() && !(start <= k < end) ==> #[trigger] final(list)@[k]
                        == old(list)@[k]
                &&& final(self).nodes_view() == split_nodes(
                    old(self).nodes_view(),
                    i,
                    count_lt,
                    bounds_lt,
                    bounds_gt,
                )
                &&& final(self).pending_view() == old(self).pending_view().push(
                    ((c + 1) as u32, (req.depth + 1) as u32),
                ).push((c as u32, (req.depth + 1) as u32))
                &&& final(self).depths_view() == old(self).depths_view().push(req.depth + 1).push(
                    req.depth + 1,
                )
                &&& final(self).height_view() == (if req.depth > old(self).height_view() {
                    req.depth
                } else {
                    old(self).height_view()
                })
            }),
    {
        let req = self.current.unwrap();
        proof {
            let nodes = self.nodes@;
            let idx = req.node_index as int;
            assert(shapes(nodes)[idx] == shape(nodes[idx]));
            assert(shapes(nodes)[idx].child == 0);
            assert(shapes(nodes)[idx].start + shapes(nodes)[idx].len <= self.object_count);
            shape_node_count(shapes(nodes), self.depths@, self.object_count as int, self.max_depth as int, false);
        }
        let count = partition_by_flags(list, req.start_index as usize, lower);
        proof {
            lemma_partition_permutes(
                old(list)@,
                list@,
                req.start_index as int,
                req.start_index + req.len,
                lower@,
                count as int,
            );
        }
        let count_lt = count as u32;
        self.split(SplitOutcome::Split { count_lt, bounds_lt, bounds_gt });
        count_lt
    }

    /// The node of the request handed out last, whose bounds the split is
    /// chosen within.
    pub fn current_node(&self) -> (node: &BvhNode<B, MIN_LEAF_OBJECTS, MAX_LEAF_OBJECTS>)
        requires
            self.wf(),
            self.current_view() is Some,
        ensures
            *node == self.nodes_view()[self.current_view().unwrap().node_index as int],
    {
        let req = self.current.unwrap();
        &self.nodes[req.node_index as usize]
    }

    /// At every step of a construction the nodes built so far have the
    /// layout of [`node_layout`] over the builder's objects.
    pub proof fn lemma_layout(&self)
        requires
            self.wf(),
        ensures
            node_layout(self.nodes_view(), self.object_count_view() as int),
    {
        lemma_layout_of_hierarchy(self.nodes@, self.depths@, self.object_count as int, self.max_depth as int);
    }

    /// Greatest depth at which a node was split.
    pub fn height(&self) -> (h: u32)
        ensures
            h == self.height_view(),
    {
        self.height
    }
}

/// A finished hierarchy: the node list, root first.
pub struct BoundingVolumeHierarchy<B, const MIN_LEAF_OBJECTS: u32, const MAX_LEAF_OBJECTS: u32> {
    nodes: Vec<BvhNode<B, MIN_LEAF_OBJECTS, MAX_LEAF_OBJECTS>>,
    depths: Ghost<Seq<int>>,
}

impl<B, const MIN_LEAF_OBJECTS: u32, const MAX_LEAF_OBJECTS: u32> BoundingVolumeHierarchy<
    B,
    MIN_LEAF_OBJECTS,
    MAX_LEAF_OBJECTS,
> {
    pub closed spec fn nodes_view(&self) -> Seq<BvhNode<B, MIN_LEAF_OBJECTS, MAX_LEAF_OBJECTS>> {
        self.nodes@
    }

    /// Depth of each node; the root is at depth 0.
    pub closed spec fn depths_view(&self) -> Seq<int> {
        self.depths@
    }

    /// The hierarchy of an empty object list has no nodes.
    pub fn empty() -> (bvh: Self)
        ensures
            bvh.nodes_view().len() == 0,
    {
        let ghost no_depths: Seq<int> = Seq::empty();
        BoundingVolumeHierarchy { nodes: Vec::new(), depths: Ghost(no_depths) }
    }

    pub fn nodes(&self) -> (nodes: &[BvhNode<B, MIN_LEAF_OBJECTS, MAX_LEAF_OBJECTS>])
        ensures
            nodes@ == self.nodes_view(),
    {
        self.nodes.as_slice()
    }

    pub fn into_nodes(self) -> (nodes: Vec<BvhNode<B, MIN_LEAF_OBJECTS, MAX_LEAF_OBJECTS>>)
        ensures
            nodes@ == self.nodes_view(),
    {
        self.nodes
    }
}

/// Lengths of the leaves among `nodes`, in node order.
pub open spec fn leaf_lengths<B, const LO: u32, const HI: u32>(nodes: Seq<BvhNode<B, LO, HI>>) -> Seq<u32>
    decreases nodes.len(),
{
    if nodes.len() == 0 {
        Seq::empty()
    } else if nodes.last().child_node == 0 {
        leaf_lengths(nodes.drop_last()).push(nodes.last().len)
    } else {
        leaf_lengths(nodes.drop_last())
    }
}

/// Sum of the values of `s`, each one taken modulo 2^32.
pub open spec fn sum_as_u32(s: Seq<usize>) -> int
    decreases s.len(),
{
    if s.len() == 0 {
        0
    } else {
        sum_as_u32(s.drop_last()) + (s.last() as u32) as int
    }
}

/// `r` is the least value of `s`, or `default` when `s` is empty.
pub open spec fn is_min_or(s: Seq<u32>, default: u32, r: u32) -> bool {
    if s.len() == 0 {
        r == default
    } else {
        s.contains(r) && forall|i: int| 0 <= i < s.len() ==> r <= #[trigger] s[i]
    }
}

/// `r` is the greatest value of `s`, or `default` when `s` is empty.
pub open spec fn is_max_or(s: Seq<u32>, default: u32, r: u32) -> bool {
    if s.len() == 0 {
        r == default
    } else {
        s.contains(r) && forall|i: int| 0 <= i < s.len() ==> #[trigger] s[i] <= r
    }
}

proof fn lemma_leaf_lengths_push<B, const LO: u32, const HI: u32>(
    nodes: Seq<BvhNode<B, LO, HI>>,
    n: BvhNode<B, LO, HI>,
)
    ensures
        leaf_lengths(nodes.push(n)) == (if n.child_node == 0 {
            leaf_lengths(nodes).push(n.len)
        } else {
            leaf_lengths(nodes)
        }),
{
    assert(nodes.push(n).drop_last() =~= nodes);
}

/// Number of bins a binned split search sorts a node's objects into: the
/// object count, clamped to `16 ..= 32`.
pub fn bin_count(object_count: usize) -> (r: usize)
    ensures
        r == (if object_count < 16 {
            16
        } else if object_count > 32 {
            32
        } else {
            object_count
        }),
        16 <= r <= 32,
        16 <= object_count <= 32 ==> r == object_count,
        object_count < 16 ==> r == 16,
        object_count > 32 ==> r == 32,
{
    if object_count < 16 {
        16
    } else if object_count > 32 {
        32
    } else {
        object_count
    }
}

/// The bin of an object: its position scaled to the bin count and rounded down,
/// with objects at the far end of the bounds put in the last bin.
pub fn bin_index(scaled_position: usize, bin_count: usize) -> (r: usize)
    requires
        bin_count >= 1,
    ensures
        r == (if scaled_position < bin_count - 1 {
            scaled_position
        } else {
            (bin_count - 1) as usize
        }),
        r < bin_count,
{
    if scaled_position < bin_count - 1 {
        scaled_position
    } else {
        bin_count - 1
    }
}

impl<B, const MIN_LEAF_OBJECTS: u32, const MAX_LEAF_OBJECTS: u32> BvhNode<
    B,
    MIN_LEAF_OBJECTS,
    MAX_LEAF_OBJECTS,
> {
    /// Object counts on both sides of a split of the bins before `bin_split`
    /// from the others, or `None` when one side would hold fewer than the
    /// minimum leaf size.
    pub fn binned_split_counts(bin_counts: &[usize], bin_split: usize) -> (r: Option<(u32, u32)>)
        requires
            bin_split <= bin_counts@.len(),
            sum_as_u32(bin_counts@.subrange(0, bin_split as int)) <= u32::MAX,
            sum_as_u32(bin_counts@.subrange(bin_split as int, bin_counts@.len() as int)) <= u32::MAX,
        ensures
            ({
                let lt = sum_as_u32(bin_counts@.subrange(0, bin_split as int));
                let gt = sum_as_u32(bin_counts@.subrange(bin_split as int, bin_counts@.len() as int));
                if lt < MIN_LEAF_OBJECTS || gt < MIN_LEAF_OBJECTS {
                    r is None
                } else {
                    r == Some((lt as u32, gt as u32))
                }
            }),
    {
        let lt = sum_counts(bin_counts, 0, bin_split);
        let gt = sum_counts(bin_counts, bin_split, bin_counts.len());
        if lt < MIN_LEAF_OBJECTS || gt < MIN_LEAF_OBJECTS {
            None
        } else {
            Some((lt, gt))
        }
    }
}

proof fn lemma_sum_as_u32_push(s: Seq<usize>, x: usize)
    ensures
        sum_as_u32(s.push(x)) == sum_as_u32(s) + (x as u32) as int,
{
    assert(s.push(x).drop_last() =~= s);
}

proof fn lemma_sum_as_u32_prefix(s: Seq<usize>, k: int)
    requires
        0 <= k <= s.len(),
    ensures
        sum_as_u32(s.subrange(0, k)) <= sum_as_u32(s),
        sum_as_u32(s.subrange(0, k)) >= 0,
    decreases s.len(),
{
    if s.len() > 0 {
        if k == s.len() {
            assert(s.subrange(0, k) =~= s);
            lemma_sum_as_u32_prefix(s.drop_last(), k - 1);
        } else {
            assert(s.subrange(0, k) =~= s.drop_last().subrange(0, k));
            lemma_sum_as_u32_prefix(s.drop_last(), k);
        }
    } else {
        assert(s.subrange(0, k) =~= s);
    }
}

/// Sum of `counts[from..to]`, each count taken as a `u32`.
fn sum_counts(counts: &[usize], from: usize, to: usize) -> (r: u32)
    requires
        from <= to <= counts@.len(),
        sum_as_u32(counts@.subrange(from as int, to as int)) <= u32::MAX,
    ensures
        r == sum_as_u32(counts@.subrange(from as int, to as int)),
{
    let mut total: u32 = 0;
    let mut i = from;
    proof {
        assert(counts@.subrange(from as int, from as int) =~= Seq::<usize>::empty());
    }
    while i < to
        invariant
            from <= i <= to <= counts@.len(),
            sum_as_u32(counts@.subrange(from as int, to as int)) <= u32::MAX,
            total == sum_as_u32(counts@.subrange(from as int, i as int)),
        decreases to - i,
    {
        proof {
            assert(counts@.subrange(from as int, i + 1) =~= counts@.subrange(from as int, i as int).push(counts@[i as int]));
            lemma_sum_as_u32_push(counts@.subrange(from as int, i as int), counts@[i as int]);
            let whole = counts@.subrange(from as int, to as int);
            assert(whole.subrange(0, i + 1 - from) =~= counts@.subrange(from as int, i + 1));
            lemma_sum_as_u32_prefix(whole, i + 1 - from);
        }
        total = total + counts[i] as u32;
        i = i + 1;
    }
    total
}

impl<B, const MIN_LEAF_OBJECTS: u32, const MAX_LEAF_OBJECTS: u32> BoundingVolumeHierarchy<
    B,
    MIN_LEAF_OBJECTS,
    MAX_LEAF_OBJECTS,
> {
    /// Whether every leaf can meet both leaf size limits: with equal limits the
    /// object count must be a multiple of them, otherwise the maximum must be at
    /// least twice the minimum less one.
    pub fn feasible(object_count: usize) -> (r: bool)
        requires
            MIN_LEAF_OBJECTS != MAX_LEAF_OBJECTS ==> 1 <= MIN_LEAF_OBJECTS <= 0x7fff_ffff,
        ensures
            MIN_LEAF_OBJECTS == MAX_LEAF_OBJECTS ==> r == (if MIN_LEAF_OBJECTS == 0 {
                object_count as u32 == 0
            } else {
                (object_count as u32) % MIN_LEAF_OBJECTS == 0
            }),
            MIN_LEAF_OBJECTS != MAX_LEAF_OBJECTS ==> r == (MAX_LEAF_OBJECTS >= 2
                * MIN_LEAF_OBJECTS - 1),
    {
        if MIN_LEAF_OBJECTS == MAX_LEAF_OBJECTS {
            let count = object_count as u32;
            if MIN_LEAF_OBJECTS == 0 {
                count == 0
            } else {
                count % MIN_LEAF_OBJECTS == 0
            }
        } else {
            MAX_LEAF_OBJECTS >= 2 * MIN_LEAF_OBJECTS - 1
        }
    }

    /// Node capacity reserved before construction: a full binary tree over the
    /// fewest leaves the maximum leaf size allows, `2 * ceil(n / max) - 1`.
    pub open spec fn initial_capacity_spec(object_count: int) -> int {
        2 * ((object_count + MAX_LEAF_OBJECTS - 1) / (MAX_LEAF_OBJECTS as int)) - 1
    }

    pub fn initial_node_capacity(object_count: usize) -> (r: usize)
        requires
            MAX_LEAF_OBJECTS >= 1,
            object_count >= 1,
            2 * ((object_count + MAX_LEAF_OBJECTS - 1) / (MAX_LEAF_OBJECTS as int)) <= usize::MAX,
        ensures
            r == Self::initial_capacity_spec(object_count as int),
    {
        let max = MAX_LEAF_OBJECTS as usize;
        let q = object_count / max;
        let leaves = if object_count % max == 0 {
            q
        } else {
            assert(q < usize::MAX) by (nonlinear_arith)
                requires
                    max >= 1,
                    q == object_count / max,
                    object_count % max != 0,
            ;
            q + 1
        };
        proof {
            assert(leaves == (object_count + max - 1) / (max as int)) by (nonlinear_arith)
                requires
                    max >= 1,
                    q == object_count / max,
                    leaves == (if object_count % max == 0 { q as int } else { q + 1 }),
            ;
            assert(leaves >= 1) by (nonlinear_arith)
                requires
                    max >= 1,
                    object_count >= 1,
                    leaves == (object_count + max - 1) / (max as int),
            ;
        }
        2 * leaves - 1
    }

    /// Lengths of the leaves other than the root, in node order.
    pub fn leaf_node_lengths(&self) -> (lengths: Vec<u32>)
        ensures
            self.nodes_view().len() > 0 ==> lengths@ == leaf_lengths(self.nodes_view().skip(1)),
            self.nodes_view().len() == 0 ==> lengths@.len() == 0,
    {
        let mut lengths: Vec<u32> = Vec::new();
        let mut i: usize = 1;
        let n = self.nodes.len();
        if n == 0 {
            return lengths;
        }
        proof {
            assert(self.nodes@.subrange(1, 1) =~= Seq::<BvhNode<B, MIN_LEAF_OBJECTS, MAX_LEAF_OBJECTS>>::empty());
        }
        while i < n
            invariant
                1 <= i <= n,
                n == self.nodes@.len(),
                lengths@ == leaf_lengths(self.nodes@.subrange(1, i as int)),
            decreases n - i,
        {
            proof {
                assert(self.nodes@.subrange(1, i + 1) =~= self.nodes@.subrange(1, i as int).push(self.nodes@[i as int]));
                lemma_leaf_lengths_push(self.nodes@.subrange(1, i as int), self.nodes@[i as int]);
            }
            if self.nodes[i].child_node == 0 {
                lengths.push(self.nodes[i].len);
            }
            i = i + 1;
        }
        proof {
            assert(self.nodes@.subrange(1, n as int) =~= self.nodes@.skip(1));
        }
        lengths
    }
}

/// Least value of `values`, or `default` when there is none.
pub fn min_or(values: &[u32], default: u32) -> (r: u32)
    ensures
        is_min_or(values@, default, r),
{
    if values.len() == 0 {
        return default;
    }
    let mut best = values[0];
    let mut i: usize = 1;
    proof {
        assert(values@.subrange(0, 1)[0] == best);
    }
    while i < values.len()
        invariant
            1 <= i <= values@.len(),
            values@.subrange(0, i as int).contains(best),
            forall|j: int| 0 <= j < i ==> best <= #[trigger] values@[j],
        decreases values@.len() - i,
    {
        if values[i] < best {
            best = values[i];
        }
        proof {
            assert(values@.subrange(0, i + 1)[i as int] == values@[i as int]);
            if best != values@[i as int] {
                let w = choose|w: int| 0 <= w < i && values@.subrange(0, i as int)[w] == best;
                assert(values@.subrange(0, i + 1)[w] == best);
            }
        }
        i = i + 1;
    }
    proof {
        assert(values@.subrange(0, values@.len() as int) =~= values@);
    }
    best
}

/// Greatest value of `values`, or `default` when there is none.
pub fn max_or(values: &[u32], default: u32) -> (r: u32)
    ensures
        is_max_or(values@, default, r),
{
    if values.len() == 0 {
        return default;
    }
    let mut best = values[0];
    let mut i: usize = 1;
    proof {
        assert(values@.subrange(0, 1)[0] == best);
    }
    while i < values.len()
        invariant
            1 <= i <= values@.len(),
            values@.subrange(0, i as int).contains(best),
            forall|j: int| 0 <= j < i ==> #[trigger] values@[j] <= best,
        decreases values@.len() - i,
    {
        if values[i] > best {
            best = values[i];
        }
        proof {
            assert(values@.subrange(0, i + 1)[i as int] == values@[i as int]);
            if best != values@[i as int] {
                let w = choose|w: int| 0 <= w < i && values@.subrange(0, i as int)[w] == best;
                assert(values@.subrange(0, i + 1)[w] == best);
            }
        }
        i = i + 1;
    }
    proof {
        assert(values@.subrange(0, values@.len() as int) =~= values@);
    }
    best
}

/// Every object of a finished hierarchy lies in exactly one leaf.
pub proof fn lemma_object_in_exactly_one_leaf<B, const LO: u32, const HI: u32>(
    bvh: &BoundingVolumeHierarchy<B, LO, HI>,
    count: int,
    max_depth: int,
    k: int,
)
    requires
        finished_tree(bvh.nodes_view(), bvh.depths_view(), count, max_depth),
        0 <= k < count,
    ensures
        exists|i: int|
            0 <= i < bvh.nodes_view().len() && bvh.nodes_view()[i].child_node == 0
                && #[trigger] covers(shape(bvh.nodes_view()[i]), k),
        forall|i: int, j: int|
            0 <= i < bvh.nodes_view().len() && 0 <= j < bvh.nodes_view().len()
                && bvh.nodes_view()[i].child_node == 0 && bvh.nodes_view()[j].child_node == 0
                && #[trigger] covers(shape(bvh.nodes_view()[i]), k) && #[trigger] covers(
                shape(bvh.nodes_view()[j]),
                k,
            ) ==> i == j,
{
    let nodes = bvh.nodes_view();
    let sh = shapes(nodes);
    shape_exactly_one_leaf(sh, bvh.depths_view(), count, max_depth, false, k);
    let w = choose|w: int| 0 <= w < sh.len() && sh[w].child == 0 && #[trigger] covers(sh[w], k);
    assert(covers(shape(nodes[w]), k));
    assert forall|i: int, j: int|
        0 <= i < nodes.len() && 0 <= j < nodes.len() && nodes[i].child_node == 0
            && nodes[j].child_node == 0 && #[trigger] covers(shape(nodes[i]), k)
            && #[trigger] covers(shape(nodes[j]), k) implies i == j by {
        assert(sh[i] == shape(nodes[i]) && sh[j] == shape(nodes[j]));
    }
}

/// A finished hierarchy over `count` objects has `2 * leaves - 1` nodes, at
/// most `2 * count - 1`, and exactly that many when every leaf holds one object.
pub proof fn lemma_node_count<B, const LO: u32, const HI: u32>(
    bvh: &BoundingVolumeHierarchy<B, LO, HI>,
    count: int,
    max_depth: int,
)
    requires
        finished_tree(bvh.nodes_view(), bvh.depths_view(), count, max_depth),
    ensures
        bvh.nodes_view().len() == 2 * leaf_count(shapes(bvh.nodes_view())) - 1,
        bvh.nodes_view().len() <= 2 * count - 1,
        (forall|i: int|
            0 <= i < bvh.nodes_view().len() && #[trigger] bvh.nodes_view()[i].child_node == 0
                ==> bvh.nodes_view()[i].len == 1) ==> bvh.nodes_view().len() == 2 * count - 1,
{
    let nodes = bvh.nodes_view();
    let sh = shapes(nodes);
    if forall|i: int| 0 <= i < nodes.len() && #[trigger] nodes[i].child_node == 0 ==> nodes[i].len == 1 {
        assert forall|i: int| 0 <= i < sh.len() && #[trigger] sh[i].child == 0 implies sh[i].len == 1 by {
            assert(sh[i] == shape(nodes[i]));
        }
    }
    shape_node_count(sh, bvh.depths_view(), count, max_depth, false);
}

/// The layout of a node list over `count` objects, in node fields: the root
/// covers every object; an internal node's children come after it, the
/// second (`child_node + 1`) covering the lower part of its range and the
/// first the upper part, both non-empty; child pairs start at odd indices and
/// are not shared, and every node but the root is a child of an earlier node,
/// so each has exactly one parent.
pub open spec fn node_layout<B, const LO: u32, const HI: u32>(nodes: Seq<BvhNode<B, LO, HI>>, count: int) -> bool {
    &&& nodes.len() >= 1
    &&& nodes[0].start_index == 0
    &&& nodes[0].len == count
    &&& forall|p: int|
        0 <= p < nodes.len() && #[trigger] nodes[p].child_node != 0 ==> {
            let c = nodes[p].child_node as int;
            &&& p < c
            &&& c + 1 < nodes.len()
            &&& c % 2 == 1
            &&& nodes[c + 1].start_index == nodes[p].start_index
            &&& nodes[c].start_index == nodes[p].start_index + nodes[c + 1].len
            &&& nodes[c].len + nodes[c + 1].len == nodes[p].len
            &&& nodes[c].len >= 1
            &&& nodes[c + 1].len >= 1
        }
    &&& forall|p: int, q: int|
        0 <= p < nodes.len() && 0 <= q < nodes.len() && p != q && #[trigger] nodes[p].child_node != 0
            && #[trigger] nodes[q].child_node != 0 ==> nodes[p].child_node != nodes[q].child_node
    &&& forall|j: int| 1 <= j < nodes.len() ==> #[trigger] child_of_earlier(nodes, j)
}

/// Node `j` is the first or second child of an earlier node.
pub open spec fn child_of_earlier<B, const LO: u32, const HI: u32>(nodes: Seq<BvhNode<B, LO, HI>>, j: int) -> bool {
    exists|p: int|
        0 <= p < j && #[trigger] nodes[p].child_node != 0 && (nodes[p].child_node == j
            || nodes[p].child_node + 1 == j)
}

proof fn lemma_layout_of_hierarchy<B, const LO: u32, const HI: u32>(
    nodes: Seq<BvhNode<B, LO, HI>>,
    depths: Seq<int>,
    count: int,
    max_depth: int,
)
    requires
        hierarchy(shapes(nodes), depths, count, max_depth, false),
    ensures
        node_layout(nodes, count),
{
    let sh = shapes(nodes);
    assert(sh[0] == shape(nodes[0]));
    assert forall|p: int| 0 <= p < nodes.len() && #[trigger] nodes[p].child_node != 0 implies {
        let c = nodes[p].child_node as int;
        &&& p < c
        &&& c + 1 < nodes.len()
        &&& c % 2 == 1
        &&& nodes[c + 1].start_index == nodes[p].start_index
        &&& nodes[c].start_index == nodes[p].start_index + nodes[c + 1].len
        &&& nodes[c].len + nodes[c + 1].len == nodes[p].len
        &&& nodes[c].len >= 1
        &&& nodes[c + 1].len >= 1
    } by {
        let c = nodes[p].child_node as int;
        assert(sh[p] == shape(nodes[p]));
        assert(sh[p].child != 0);
        assert(crate::tree::children_split_parent(sh, p, false));
        assert(sh[c] == shape(nodes[c]));
        assert(sh[c + 1] == shape(nodes[c + 1]));
        assert(sh[c].len >= 1 && sh[c + 1].len >= 1);
    }
    assert forall|p: int, q: int|
        0 <= p < nodes.len() && 0 <= q < nodes.len() && p != q && #[trigger] nodes[p].child_node != 0
            && #[trigger] nodes[q].child_node != 0 implies nodes[p].child_node != nodes[q].child_node by {
        assert(sh[p] == shape(nodes[p]));
        assert(sh[q] == shape(nodes[q]));
        assert(sh[p].child != 0 && sh[q].child != 0);
    }
    assert forall|j: int| 1 <= j < nodes.len() implies #[trigger] child_of_earlier(nodes, j) by {
        assert(crate::tree::has_parent(sh, j));
        let p = choose|p: int|
            0 <= p < j && #[trigger] sh[p].child != 0 && (sh[p].child == j || sh[p].child + 1 == j);
        assert(sh[p] == shape(nodes[p]));
        assert(nodes[p].child_node != 0);
    }
}

/// The law of one split, as `BvhBuilder::split_partition` makes it. Before:
/// `nodes`, with node `i` a leaf over `list[s .. s + len]`, and `lower` the
/// side of each of its objects. After: `list2` and `nodes2`, related to them
/// as `split_partition` states with `k` lower-side objects. Then the nodes
/// before the split are kept except that node `i` points at its new
/// children; the second child covers the lower side `list2[s .. s + k]`,
/// which holds the lower-side objects in their order, the first child the
/// rest `list2[s + k .. s + len]`; both are non-empty leaves; and `list2` is
/// a permutation of `list` that moved nothing outside the node's range.
pub proof fn lemma_split_law<B, const LO: u32, const HI: u32, T>(
    nodes: Seq<BvhNode<B, LO, HI>>,
    nodes2: Seq<BvhNode<B, LO, HI>>,
    i: int,
    k: u32,
    bounds_lt: B,
    bounds_gt: B,
    list: Seq<T>,
    list2: Seq<T>,
    lower: Seq<bool>,
)
    requires
        0 <= i < nodes.len() <= u32::MAX,
        nodes[i].child_node == 0,
        nodes[i].start_index + nodes[i].len <= list.len(),
        nodes[i].start_index + nodes[i].len <= u32::MAX,
        lower.len() == nodes[i].len,
        list2.len() == list.len(),
        ({
            let s = nodes[i].start_index as int;
            let e = s + nodes[i].len;
            let range = list.subrange(s, e);
            &&& k == on_side(range, lower, true).len()
            &&& 0 < k < nodes[i].len
            &&& list2.subrange(s, s + k) == on_side(range, lower, true)
            &&& list2.subrange(s + k, e) == unflagged_order(range, lower)
            &&& forall|j: int| 0 <= j < list.len() && !(s <= j < e) ==> #[trigger] list2[j] == list[j]
        }),
        nodes2 == split_nodes(nodes, i, k, bounds_lt, bounds_gt),
    ensures
        ({
            let m = nodes.len() as int;
            let n = nodes[i];
            let s = n.start_index as int;
            let range = list.subrange(s, s + n.len);
            &&& nodes2.len() == m + 2
            &&& forall|j: int| 0 <= j < m && j != i ==> #[trigger] nodes2[j] == nodes[j]
            &&& nodes2[i] == BvhNode::<B, LO, HI> { child_node: m as u32, ..n }
            &&& nodes2[m + 1] == BvhNode::<B, LO, HI> { bounds: bounds_lt, start_index: n.start_index, len: k, child_node: 0 }
            &&& nodes2[m] == BvhNode::<B, LO, HI> {
                bounds: bounds_gt,
                start_index: (n.start_index + k) as u32,
                len: (n.len - k) as u32,
                child_node: 0,
            }
            &&& nodes2[m].start_index == s + k
            &&& nodes2[m].len + nodes2[m + 1].len == n.len
            &&& list2.subrange(s, s + k) == on_side(range, lower, true)
            &&& list2.subrange(s + k, s + n.len) == unflagged_order(range, lower)
            &&& list2.to_multiset() == list.to_multiset()
        }),
{
    let n = nodes[i];
    let s = n.start_index as int;
    let e = s + n.len;
    let range = list.subrange(s, e);
    crate::scene_bvh::lemma_unflagged_order_holds_lower(range, lower);
    lemma_partition_permutes(list, list2, s, e, lower, k as int);
}

/// Every finished hierarchy over `count` objects has the layout of
/// [`node_layout`]. `finish` gives a finished hierarchy once `next_split`
/// has returned `None`, whatever splits were made, so this holds of every
/// build over one or more objects.
pub proof fn lemma_finished_layout<B, const LO: u32, const HI: u32>(
    bvh: &BoundingVolumeHierarchy<B, LO, HI>,
    count: int,
    max_depth: int,
)
    requires
        finished_tree(bvh.nodes_view(), bvh.depths_view(), count, max_depth),
    ensures
        node_layout(bvh.nodes_view(), count),
{
    lemma_layout_of_hierarchy(bvh.nodes_view(), bvh.depths_view(), count, max_depth);
}

/// Depths of a finished hierarchy: the root is at depth 0, children one level
/// below their parent, every node at most at `max_depth`, and a leaf holding
/// more objects than both one and the maximum leaf size sits at `max_depth`.
pub proof fn lemma_depth_limits<B, const LO: u32, const HI: u32>(
    bvh: &BoundingVolumeHierarchy<B, LO, HI>,
    count: int,
    max_depth: int,
)
    requires
        finished_tree(bvh.nodes_view(), bvh.depths_view(), count, max_depth),
    ensures
        bvh.depths_view()[0] == 0,
        forall|i: int|
            0 <= i < bvh.nodes_view().len() ==> 0 <= #[trigger] bvh.depths_view()[i] <= max_depth,
        forall|i: int|
            0 <= i < bvh.nodes_view().len() && #[trigger] bvh.nodes_view()[i].child_node != 0
                ==> bvh.depths_view()[bvh.nodes_view()[i].child_node as int] == bvh.depths_view()[i] + 1
                && bvh.depths_view()[bvh.nodes_view()[i].child_node + 1] == bvh.depths_view()[i] + 1,
        forall|i: int|
            0 <= i < bvh.nodes_view().len() && #[trigger] bvh.nodes_view()[i].child_node == 0
                && bvh.nodes_view()[i].len > 1 && bvh.nodes_view()[i].len > HI
                ==> bvh.depths_view()[i] == max_depth,
{
    let nodes = bvh.nodes_view();
    let sh = shapes(nodes);
    assert forall|i: int| 0 <= i < nodes.len() && #[trigger] nodes[i].child_node != 0 implies
        bvh.depths_view()[nodes[i].child_node as int] == bvh.depths_view()[i] + 1
        && bvh.depths_view()[nodes[i].child_node + 1] == bvh.depths_view()[i] + 1 by {
        assert(sh[i] == shape(nodes[i]));
        assert(sh[i].child != 0);
    }
}

/// With at most one object per leaf, a finished hierarchy never needs more
/// nodes than the capacity reserved before construction.
pub proof fn lemma_initial_capacity_suffices<B, const LO: u32, const HI: u32>(
    bvh: &BoundingVolumeHierarchy<B, LO, HI>,
    count: int,
    max_depth: int,
)
    requires
        HI == 1,
        finished_tree(bvh.nodes_view(), bvh.depths_view(), count, max_depth),
    ensures
        bvh.nodes_view().len() <= BoundingVolumeHierarchy::<B, LO, HI>::initial_capacity_spec(count),
{
    lemma_node_count(bvh, count, max_depth);
}

} // verus!
