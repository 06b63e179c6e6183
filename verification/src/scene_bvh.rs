//! Bounding volume hierarchy over the meshes of a scene and the triangles of a
//! mesh, with cost-driven splits.
//!
//! A node covers the objects `start_index .. start_index + len`. When a node is
//! split, the objects whose center lies above the split threshold are moved to
//! the front of its range: the first child (at `child_node`) covers them, the
//! second child (at `child_node + 1`) the rest. `child_node == 0` marks a leaf.
//!
//! As with [`crate::bvh`], choosing the split is floating point work done by the
//! caller; [`SceneBvhBuilder`] takes the per-object side of the split and does
//! the partitioning and the bookkeeping.

use vstd::prelude::*;
use vstd::multiset::Multiset;
use crate::tree::{
    NodeShape, hierarchy, split_shapes, valid_children, covers, leaf_count, lemma_split_hierarchy,
    lemma_root_hierarchy, lemma_node_count as shape_node_count,
    lemma_object_in_exactly_one_leaf as shape_exactly_one_leaf,
};

verus! {

broadcast use vstd::seq_lib::group_to_multiset_ensures;

/// A node of the hierarchy. `B` is the bounding volume type.
#[derive(Clone, Copy, Debug)]
pub struct BvhNode<B> {
    pub bounds: B,
    pub start_index: u32,
    pub len: u32,
    pub child_node: u32,
}

/// Fewest objects either side of a split may hold for the split to be looked for.
pub const MIN_OBJECTS_PER_NODE: u32 = 1;

pub open spec fn shape<B>(n: BvhNode<B>) -> NodeShape {
    NodeShape { start: n.start_index as int, len: n.len as int, child: n.child_node as int }
}

pub open spec fn shapes<B>(nodes: Seq<BvhNode<B>>) -> Seq<NodeShape> {
    nodes.map_values(|n: BvhNode<B>| shape(n))
}

/// The packed word of the GPU layout: the low five bits of the length in the
/// top bits, the low 25 bits of the child index below. Leaves of up to 127
/// objects are accepted, but only lengths below 32 survive the packing; the
/// two bits above the length field stay clear.
pub open spec fn packed_word(len: u32, child_node: u32) -> u32 {
    ((len & 0x1f) << 25u32) | (child_node & 0x1ff_ffff)
}

impl<B> BvhNode<B> {
    /// The root of a hierarchy: it covers the whole list and has no children yet.
    pub fn root_with_bounds<T>(list: &mut [T], bounds: B) -> (node: Self)
        ensures
            node.bounds == bounds,
            node.start_index == 0,
            node.len == old(list)@.len() as u32,
            node.child_node == 0,
            final(list)@ == old(list)@,
    {
        BvhNode { bounds, start_index: 0, len: list.len() as u32, child_node: 0 }
    }

    /// The objects covered by this node.
    pub fn slice<'a, T>(self, list: &'a [T]) -> (objects: &'a [T])
        requires
            self.start_index + self.len <= list@.len(),
        ensures
            objects@ == list@.subrange(self.start_index as int, self.start_index + self.len),
    {
        let n = list.len();
        let start = self.start_index as usize;
        let end = start + self.len as usize;
        vstd::slice::slice_subrange(list, start, end)
    }

    /// A split is looked for unless the node is at the maximum depth or holds
    /// at most twice the minimum number of objects per node.
    pub open spec fn stays_leaf(len: u32, depth: u32, max_depth: u32) -> bool {
        depth == max_depth || len <= MIN_OBJECTS_PER_NODE * 2
    }

    pub fn may_split(&self, depth: u32, max_depth: u32) -> (r: bool)
        ensures
            r == !Self::stays_leaf(self.len, depth, max_depth),
            depth == max_depth ==> !r,
            self.len <= 2 * MIN_OBJECTS_PER_NODE ==> !r,
            depth != max_depth && self.len > 2 * MIN_OBJECTS_PER_NODE ==> r,
    {
        !(depth == max_depth || self.len <= MIN_OBJECTS_PER_NODE * 2)
    }

    /// The word that follows the upper bound in the GPU layout of a node, as
    /// [`packed_word`] describes; a leaf's length must be below 128.
    pub fn gpu_packed_word(&self) -> (word: u32)
        requires
            self.child_node == 0 ==> self.len < 128,
        ensures
            word == packed_word(self.len, self.child_node),
    {
        let packed = (self.len & 0b11111) << 25;
        assert((1u32 << 25u32) - 1 == 0x1ff_ffffu32) by (bit_vector);
        packed | (self.child_node & ((1u32 << 25) - 1))
    }
}

/// The elements of `s` whose flag in `f` is `side`, in order.
pub open spec fn on_side<T>(s: Seq<T>, f: Seq<bool>, side: bool) -> Seq<T>
    decreases s.len(),
{
    if s.len() == 0 || f.len() < s.len() {
        Seq::empty()
    } else {
        let prefix = on_side(s.drop_last(), f, side);
        if f[s.len() - 1] == side {
            prefix.push(s.last())
        } else {
            prefix
        }
    }
}

proof fn lemma_on_side_push<T>(s: Seq<T>, f: Seq<bool>, side: bool, x: T)
    requires
        s.len() < f.len(),
    ensures
        on_side(s.push(x), f, side) == (if f[s.len() as int] == side {
            on_side(s, f, side).push(x)
        } else {
            on_side(s, f, side)
        }),
{
    assert(s.push(x).drop_last() =~= s);
}

proof fn lemma_rotate_first_to_end<T>(l: Seq<T>)
    requires
        l.len() > 0,
    ensures
        l.drop_first().push(l[0]).to_multiset() == l.to_multiset(),
{
    assert(l.remove(0) =~= l.drop_first());
    assert(l.to_multiset().remove(l[0]).insert(l[0]) =~= l.to_multiset());
}

/// The order in which `partition_by_flags` leaves the objects whose flag is
/// not set, behind the flagged ones: an unflagged object joins the end of
/// that block when it is reached, and each flagged object reached moves the
/// block's first object to the block's end (it swaps places with it).
pub open spec fn unflagged_order<T>(s: Seq<T>, f: Seq<bool>) -> Seq<T>
    decreases s.len(),
{
    if s.len() == 0 || f.len() < s.len() {
        Seq::empty()
    } else {
        let p = unflagged_order(s.drop_last(), f);
        if f[s.len() - 1] {
            if p.len() > 0 {
                p.drop_first().push(p[0])
            } else {
                p
            }
        } else {
            p.push(s.last())
        }
    }
}

/// The unflagged block holds the unflagged objects.
pub proof fn lemma_unflagged_order_holds_lower<T>(s: Seq<T>, f: Seq<bool>)
    requires
        s.len() <= f.len(),
    ensures
        unflagged_order(s, f).to_multiset() == on_side(s, f, false).to_multiset(),
    decreases s.len(),
{
    broadcast use vstd::seq_lib::group_to_multiset_ensures;

    if s.len() > 0 {
        let q = s.drop_last();
        lemma_unflagged_order_holds_lower(q, f);
        let p = unflagged_order(q, f);
        if f[s.len() - 1] {
            if p.len() > 0 {
                lemma_rotate_first_to_end(p);
            }
        }
    } else {
        assert(unflagged_order(s, f) =~= on_side(s, f, false));
    }
}

/// The two sides of a range hold its elements between them.
pub proof fn lemma_sides_hold_range<T>(s: Seq<T>, f: Seq<bool>)
    requires
        s.len() <= f.len(),
    ensures
        on_side(s, f, true).to_multiset().add(on_side(s, f, false).to_multiset()) == s.to_multiset(),
    decreases s.len(),
{
    broadcast use vstd::seq_lib::group_to_multiset_ensures;
    broadcast use vstd::multiset::group_multiset_axioms;

    if s.len() == 0 {
        assert(on_side(s, f, true).to_multiset() =~= Multiset::empty());
        assert(on_side(s, f, false).to_multiset() =~= Multiset::empty());
        assert(s.to_multiset() =~= Multiset::empty());
    } else {
        let p = s.drop_last();
        lemma_sides_hold_range(p, f);
        assert(s =~= p.push(s.last()));
        assert(s.to_multiset() =~= p.to_multiset().insert(s.last()));
        if f[s.len() - 1] {
            assert(on_side(s, f, true) == on_side(p, f, true).push(s.last()));
            assert(on_side(s, f, false) == on_side(p, f, false));
        } else {
            assert(on_side(s, f, true) == on_side(p, f, true));
            assert(on_side(s, f, false) == on_side(p, f, false).push(s.last()));
        }
        assert(on_side(s, f, true).to_multiset().add(on_side(s, f, false).to_multiset())
            =~= s.to_multiset());
    }
}

/// A list whose range `start .. end` was rearranged as `partition_by_flags`
/// states, one side then the other with everything else in place, holds the
/// same elements as before.
pub proof fn lemma_partition_permutes<T>(before: Seq<T>, after: Seq<T>, start: int, end: int, flags: Seq<bool>, count: int)
    requires
        0 <= start <= end <= before.len(),
        after.len() == before.len(),
        flags.len() == end - start,
        count == on_side(before.subrange(start, end), flags, true).len(),
        start + count <= end,
        after.subrange(start, start + count) == on_side(before.subrange(start, end), flags, true),
        after.subrange(start + count, end).to_multiset() == on_side(before.subrange(start, end), flags, false).to_multiset(),
        forall|k: int| 0 <= k < after.len() && !(start <= k < end) ==> #[trigger] after[k] == before[k],
    ensures
        after.to_multiset() == before.to_multiset(),
{
    broadcast use vstd::multiset::group_multiset_axioms;

    let range = before.subrange(start, end);
    lemma_sides_hold_range(range, flags);
    assert(before.subrange(0, start) =~= after.subrange(0, start));
    assert(before.subrange(end, before.len() as int) =~= after.subrange(end, after.len() as int));
    assert(after =~= after.subrange(0, start) + after.subrange(start, start + count) + after.subrange(start + count, end)
        + after.subrange(end, after.len() as int));
    assert(before =~= before.subrange(0, start) + range + before.subrange(end, before.len() as int));
    assert(after.subrange(start, start + count) + after.subrange(start + count, end) =~= after.subrange(start, end));
    vstd::seq_lib::lemma_multiset_commutative(after.subrange(start, start + count), after.subrange(start + count, end));
    vstd::seq_lib::lemma_multiset_commutative(after.subrange(0, start), after.subrange(start, end));
    vstd::seq_lib::lemma_multiset_commutative(after.subrange(0, start) + after.subrange(start, end), after.subrange(end, after.len() as int));
    vstd::seq_lib::lemma_multiset_commutative(before.subrange(0, start), range);
    vstd::seq_lib::lemma_multiset_commutative(before.subrange(0, start) + range, before.subrange(end, before.len() as int));
    assert(after.subrange(0, start) + after.subrange(start, end) + after.subrange(end, after.len() as int) =~= after);
}

/// Swaps two elements of a slice (`<[T]>::swap`).
#[verifier::external_body]
fn slice_swap<T>(list: &mut [T], a: usize, b: usize)
    requires
        a < old(list)@.len(),
        b < old(list)@.len(),
    ensures
        final(list)@ == old(list)@.update(a as int, old(list)@[b as int]).update(
            b as int,
            old(list)@[a as int],
        ),
{
    list.swap(a, b);
}

/// Moves the objects of `list[start .. start + flags.len()]` whose flag is set to
/// the front of that range, keeping their order, and returns how many there are.
/// The other objects end up behind them, in some order; the rest of the list is
/// left as it was.
pub fn partition_by_flags<T>(list: &mut [T], start: usize, flags: &[bool]) -> (count: usize)
    requires
        start + flags@.len() <= old(list)@.len(),
    ensures
        ({
            let end = start + flags@.len();
            let range = old(list)@.subrange(start as int, end);
            &&& final(list)@.len() == old(list)@.len()
            &&& count <= flags@.len()
            &&& count == on_side(range, flags@, true).len()
            &&& final(list)@.subrange(start as int, start + count) == on_side(range, flags@, true)
            &&& final(list)@.subrange(start + count, end) == unflagged_order(range, flags@)
            &&& final(list)@.subrange(start + count, end).to_multiset() == on_side(
                range,
                flags@,
                false,
            ).to_multiset()
            &&& forall|k: int|
                0 <= k < final(list)@.len() && !(start <= k < end) ==> #[trigger] final(list)@[k]
                    == old(list)@[k]
        }),
{
    let n = flags.len();
    let total = list.len();
    let ghost initial = list@;
    let ghost range = initial.subrange(start as int, start + n);
    let mut count: usize = 0;
    let mut j: usize = 0;
    proof {
        assert(range.subrange(0, 0) =~= Seq::<T>::empty());
        assert(list@.subrange(start as int, start as int) =~= Seq::<T>::empty());
    }
    while j < n
        invariant
            n == flags@.len(),
            start + n <= list@.len(),
            list@.len() == initial.len(),
            list@.len() == total,
            range == initial.subrange(start as int, start + n),
            count <= j <= n,
            list@.subrange(start as int, start + count) == on_side(range.subrange(0, j as int), flags@, true),
            list@.subrange(start + count, start + j) == unflagged_order(range.subrange(0, j as int), flags@),
            count == on_side(range.subrange(0, j as int), flags@, true).len(),
            forall|k: int| start + j <= k < start + n ==> #[trigger] list@[k] == initial[k],
            forall|k: int|
                0 <= k < list@.len() && !(start <= k < start + n) ==> #[trigger] list@[k]
                    == initial[k],
        decreases n - j,
    {
        let ghost before = list@;
        let ghost x = before[start + j];
        proof {
            assert(range.subrange(0, j + 1) =~= range.subrange(0, j as int).push(x));
            lemma_on_side_push(range.subrange(0, j as int), flags@, true, x);
            lemma_on_side_push(range.subrange(0, j as int), flags@, false, x);
            assert(range.subrange(0, j + 1).drop_last() =~= range.subrange(0, j as int));
        }
        if flags[j] {
            slice_swap(list, start + count, start + j);
            proof {
                let low = before.subrange(start + count, start + j);
                assert(list@.subrange(start as int, start + count + 1) =~= before.subrange(
                    start as int,
                    start + count,
                ).push(x));
                if count < j {
                    assert(list@.subrange(start + count + 1, start + j + 1) =~= low.drop_first().push(
                        low[0],
                    ));
                } else {
                    assert(list@.subrange(start + count + 1, start + j + 1) =~= low);
                }
            }
            count = count + 1;
        } else {
            proof {
                assert(list@.subrange(start + count, start + j + 1) =~= before.subrange(
                    start + count,
                    start + j,
                ).push(x));
            }
        }
        j = j + 1;
    }
    proof {
        assert(range.subrange(0, n as int) =~= range);
        lemma_unflagged_order_holds_lower(range, flags@);
    }
    count
}

/// A node waiting for the decision whether and where to split it.
#[derive(Clone, Copy, Debug, PartialEq, Eq, Structural)]
pub struct SceneSplitRequest {
    pub node_index: u32,
    pub start_index: u32,
    pub len: u32,
    pub depth: u32,
}

/// What the caller decided for a [`SceneSplitRequest`].
pub enum SceneSplitOutcome<B> {
    /// The best split found is not cheaper than the node itself.
    Keep,
    /// Split by the side of each object of the node, in the node's current
    /// order (`true` above the threshold), with the bounds of both sides.
    Partition { greater: Vec<bool>, bounds_gt: B, bounds_lt: B },
}

/// Builds a scene hierarchy depth first, alternating
/// [`SceneBvhBuilder::next_split`] and [`SceneBvhBuilder::split`].
pub struct SceneBvhBuilder<B> {
    nodes: Vec<BvhNode<B>>,
    pending: Vec<(u32, u32)>,
    current: Option<SceneSplitRequest>,
    object_count: u32,
    max_depth: u32,
    depths: Ghost<Seq<int>>,
}

pub open spec fn is_pending(pending: Seq<(u32, u32)>, i: int) -> bool {
    exists|q: int| 0 <= q < pending.len() && #[trigger] pending[q].0 == i
}

/// The node list after node `i` was split with `count_gt` objects on the upper
/// side, which sit at the front of its range.
pub open spec fn split_nodes<B>(
    nodes: Seq<BvhNode<B>>,
    i: int,
    count_gt: u32,
    bounds_gt: B,
    bounds_lt: B,
) -> Seq<BvhNode<B>> {
    let n = nodes[i];
    nodes.update(i, BvhNode { child_node: nodes.len() as u32, ..n }).push(
        BvhNode { bounds: bounds_gt, start_index: n.start_index, len: count_gt, child_node: 0 },
    ).push(
        BvhNode {
            bounds: bounds_lt,
            start_index: (n.start_index + count_gt) as u32,
            len: (n.len - count_gt) as u32,
            child_node: 0,
        },
    )
}

impl<B: Copy> SceneBvhBuilder<B> {
    pub closed spec fn nodes_view(&self) -> Seq<BvhNode<B>> {
        self.nodes@
    }

    pub closed spec fn pending_view(&self) -> Seq<(u32, u32)> {
        self.pending@
    }

    pub closed spec fn current_view(&self) -> Option<SceneSplitRequest> {
        self.current
    }

    pub closed spec fn object_count_view(&self) -> u32 {
        self.object_count
    }

    pub closed spec fn max_depth_view(&self) -> u32 {
        self.max_depth
    }

    pub closed spec fn depths_view(&self) -> Seq<int> {
        self.depths@
    }

    pub closed spec fn wf(&self) -> bool {
        let nodes = self.nodes@;
        let depths = self.depths@;
        let pending = self.pending@;
        &&& 1 <= self.object_count <= 0x8000_0000
        &&& hierarchy(shapes(nodes), depths, self.object_count as int, self.max_depth as int, true)
        &&& forall|q: int|
            0 <= q < pending.len() ==> {
                let idx = (#[trigger] pending[q]).0 as int;
                &&& idx < nodes.len()
                &&& nodes[idx].child_node == 0
                &&& depths[idx] == pending[q].1
            }
        &&& forall|q: int, r: int|
            0 <= q < pending.len() && 0 <= r < pending.len() && q != r ==> (#[trigger] pending[q]).0
                != (#[trigger] pending[r]).0
        &&& (self.current matches Some(req) ==> {
            let idx = req.node_index as int;
            &&& idx < nodes.len()
            &&& nodes[idx].child_node == 0
            &&& req.start_index == nodes[idx].start_index
            &&& req.len == nodes[idx].len
            &&& req.depth == depths[idx]
            &&& !BvhNode::<B>::stays_leaf(req.len, req.depth, self.max_depth)
            &&& !is_pending(pending, idx)
        })
    }

    /// Starts the construction from a root node over `root.len` objects.
    pub fn new(root: BvhNode<B>, max_depth: u32) -> (builder: Self)
        requires
            root.start_index == 0,
            root.child_node == 0,
            1 <= root.len <= 0x8000_0000,
        ensures
            builder.wf(),
            builder.nodes_view() == seq![root],
            builder.pending_view() == seq![(0u32, 0u32)],
            builder.current_view() is None,
            builder.object_count_view() == root.len,
            builder.max_depth_view() == max_depth,
    {
        let mut nodes = Vec::new();
        nodes.push(root);
        let mut pending = Vec::new();
        pending.push((0u32, 0u32));
        let ghost root_depths: Seq<int> = seq![0int];
        let b = SceneBvhBuilder {
            nodes,
            pending,
            current: None,
            object_count: root.len,
            max_depth,
            depths: Ghost(root_depths),
        };
        proof {
            assert(shapes(b.nodes@) =~= seq![shape(root)]);
            lemma_root_hierarchy(shape(root), root.len as int, true);
            assert(crate::tree::depths_consistent(seq![shape(root)], seq![0int], max_depth as int));
        }
        b
    }

    /// Pops the stack until a node is found for which a split is to be looked
    /// for; the nodes popped before it stay leaves. `None` once the stack is empty.
    pub fn next_split(&mut self) -> (request: Option<SceneSplitRequest>)
        requires
            old(self).wf(),
            old(self).current_view() is None,
        ensures
            final(self).wf(),
            final(self).nodes_view() == old(self).nodes_view(),
            final(self).depths_view() == old(self).depths_view(),
            final(self).object_count_view() == old(self).object_count_view(),
            final(self).max_depth_view() == old(self).max_depth_view(),
            final(self).current_view() == request,
            ({
                let k = final(self).pending_view().len();
                let old_pending = old(self).pending_view();
                let nodes = old(self).nodes_view();
                &&& k <= old_pending.len()
                &&& final(self).pending_view() == old_pending.subrange(0, k as int)
                &&& forall|q: int|
                    k < q < old_pending.len() ==> {
                        let idx = (#[trigger] old_pending[q]).0 as int;
                        BvhNode::<B>::stays_leaf(nodes[idx].len, old_pending[q].1, old(self).max_depth_view())
                    }
                &&& match request {
                    None => k == 0 && (old_pending.len() > 0 ==> {
                        let idx = old_pending[0].0 as int;
                        BvhNode::<B>::stays_leaf(nodes[idx].len, old_pending[0].1, old(self).max_depth_view())
                    }),
                    Some(req) => k < old_pending.len() && req.node_index == old_pending[k as int].0
                        && req.depth == old_pending[k as int].1 && req.start_index
                        == nodes[req.node_index as int].start_index && req.len
                        == nodes[req.node_index as int].len && !BvhNode::<B>::stays_leaf(
                        req.len,
                        req.depth,
                        old(self).max_depth_view(),
                    ),
                }
            }),
    {
        let ghost old_pending = self.pending@;
        let ghost nodes = self.nodes@;
        while self.pending.len() > 0
            invariant
                self.wf(),
                self.current is None,
                self.nodes@ == nodes,
                self.depths@ == old(self).depths@,
                self.object_count == old(self).object_count,
                self.max_depth == old(self).max_depth,
                nodes == old(self).nodes@,
                old_pending == old(self).pending@,
                self.pending@ == old_pending.subrange(0, self.pending@.len() as int),
                self.pending@.len() <= old_pending.len(),
                forall|q: int|
                    self.pending@.len() <= q < old_pending.len() ==> {
                        let idx = (#[trigger] old_pending[q]).0 as int;
                        BvhNode::<B>::stays_leaf(nodes[idx].len, old_pending[q].1, self.max_depth)
                    },
            decreases self.pending@.len(),
        {
            let ghost before = self.pending@;
            let (idx, depth) = self.pending.pop().unwrap();
            proof {
                assert(before[before.len() - 1] == (idx, depth));
                assert(self.pending@ =~= before.drop_last());
                assert(before[before.len() - 1] == old_pending[before.len() - 1]);
                assert(!is_pending(self.pending@, idx as int)) by {
                    if is_pending(self.pending@, idx as int) {
                        let q = choose|q: int|
                            0 <= q < self.pending@.len() && #[trigger] self.pending@[q].0 == idx;
                        assert(before[q] == self.pending@[q]);
                        assert(before[q].0 != before[before.len() - 1].0);
                    }
                }
            }
            let node = self.nodes[idx as usize];
            if node.may_split(depth, self.max_depth) {
                let req = SceneSplitRequest {
                    node_index: idx,
                    start_index: node.start_index,
                    len: node.len,
                    depth,
                };
                self.current = Some(req);
                return Some(req);
            }
        }
        None
    }

    /// At every step of a construction the nodes built so far have the
    /// layout of [`scene_node_layout`] over the builder's objects.
    pub proof fn lemma_layout(&self)
        requires
            self.wf(),
        ensures
            scene_node_layout(self.nodes_view(), self.object_count_view() as int),
    {
        lemma_scene_layout_of_hierarchy(self.nodes@, self.depths@, self.object_count as int, self.max_depth as int);
    }

    /// The node of the request handed out last, whose bounds the split is
    /// chosen within.
    pub fn current_node(&self) -> (node: &BvhNode<B>)
        requires
            self.wf(),
            self.current_view() is Some,
        ensures
            *node == self.nodes_view()[self.current_view().unwrap().node_index as int],
    {
        let req = self.current.unwrap();
        &self.nodes[req.node_index as usize]
    }

    /// Applies the decision for the current request. With `Partition`, the
    /// node's objects in `list` are reordered upper side first; when both sides
    /// hold objects, the upper-side child then the lower-side child are appended
    /// and pushed so that the upper side is considered first. Otherwise the
    /// node stays a leaf.
    pub fn split<T>(&mut self, list: &mut [T], outcome: SceneSplitOutcome<B>) -> (count_gt: Option<u32>)
        requires
            old(self).wf(),
            old(self).current_view() is Some,
            old(list)@.len() == old(self).object_count_view(),
            outcome matches SceneSplitOutcome::Partition { greater, .. } ==> greater@.len()
                == old(self).current_view().unwrap().len,
        ensures
            final(self).wf(),
            final(self).current_view() is None,
            final(self).object_count_view() == old(self).object_count_view(),
            final(self).max_depth_view() == old(self).max_depth_view(),
            final(list)@.len() == old(list)@.len(),
            final(list)@.to_multiset() == old(list)@.to_multiset(),
            ({
                let req = old(self).current_view().unwrap();
                let i = req.node_index as int;
                let c = old(self).nodes_view().len();
                let start = req.start_index as int;
                let end = start + req.len;
                match outcome {
                    SceneSplitOutcome::Keep => {
                        &&& count_gt is None
                        &&& final(list)@ == old(list)@
                        &&& final(self).nodes_view() == old(self).nodes_view()
                        &&& final(self).pending_view() == old(self).pending_view()
                        &&& final(self).depths_view() == old(self).depths_view()
                    },
                    SceneSplitOutcome::Partition { greater, bounds_gt, bounds_lt } => {
                        let range = old(list)@.subrange(start, end);
                        let upper = on_side(range, greater@, true);
                        &&& count_gt == Some(upper.len() as u32)
                        &&& final(list)@.subrange(start, start + upper.len()) == upper
                        &&& final(list)@.subrange(start + upper.len(), end) == unflagged_order(
                            range,
                            greater@,
                        )
                        &&& final(list)@.subrange(start + upper.len(), end).to_multiset()
                            == on_side(range, greater@, false).to_multiset()
                        &&& forall|k: int|
                            0 <= k < old(list)@.len() && !(start <= k < end)
                                ==> #[trigger] final(list)@[k] == old(list)@[k]
                        &&& if 0 < upper.len() < req.len {
                            &&& final(self).nodes_view() == split_nodes(
                                old(self).nodes_view(),
                                i,
                                upper.len() as u32,
                                bounds_gt,
                                bounds_lt,
                            )
                            &&& final(self).pending_view() == old(self).pending_view().push(
                                ((c + 1) as u32, (req.depth + 1) as u32),
                            ).push((c as u32, (req.depth + 1) as u32))
                            &&& final(self).depths_view() == old(self).depths_view().push(
                                req.depth + 1,
                            ).push(req.depth + 1)
                        } else {
                            &&& final(self).nodes_view() == old(self).nodes_view()
                            &&& final(self).pending_view() == old(self).pending_view()
                            &&& final(self).depths_view() == old(self).depths_view()
                        }
                    },
                }
            }),
    {
        let req = self.current.unwrap();
        self.current = None;
        match outcome {
            SceneSplitOutcome::Keep => None,
            SceneSplitOutcome::Partition { greater, bounds_gt, bounds_lt } => {
                let ghost old_nodes = self.nodes@;
                let ghost old_depths = self.depths@;
                let ghost old_pending = self.pending@;
                proof {
                    assert(shapes(old_nodes)[req.node_index as int] == shape(old_nodes[req.node_index as int]));
                    assert(shapes(old_nodes)[req.node_index as int].child == 0);
                    assert(shapes(old_nodes)[req.node_index as int].start + shapes(old_nodes)[req.node_index as int].len
                        <= self.object_count);
                }
                let count = partition_by_flags(list, req.start_index as usize, greater.as_slice());
                let count_gt = count as u32;
                proof {
                    let range = old(list)@.subrange(req.start_index as int, req.start_index + req.len);
                    assert(greater@.len() == req.len);
                    assert(count == on_side(range, greater@, true).len());
                    lemma_partition_permutes(
                        old(list)@,
                        list@,
                        req.start_index as int,
                        req.start_index + req.len,
                        greater@,
                        count as int,
                    );
                }
                if count_gt > 0 && count_gt < req.len {
                    let i = req.node_index as usize;
                    let c = self.nodes.len();
                    proof {
                        assert(old_nodes.len() <= 2 * self.object_count - 1) by {
                            shape_node_count(shapes(old_nodes), old_depths, self.object_count as int, self.max_depth as int, true);
                        }
                        let n = old_nodes[i as int];
                        let first = BvhNode { bounds: bounds_gt, start_index: n.start_index, len: count_gt, child_node: 0 };
                        let second = BvhNode {
                            bounds: bounds_lt,
                            start_index: (n.start_index + count_gt) as u32,
                            len: (n.len - count_gt) as u32,
                            child_node: 0,
                        };
                        let ni = BvhNode { child_node: old_nodes.len() as u32, ..n };
                        assert(shape(ni) == NodeShape { child: old_nodes.len() as int, ..shapes(old_nodes)[i as int] });
                        assert(shapes(split_nodes(old_nodes, i as int, count_gt, bounds_gt, bounds_lt)) =~= split_shapes(
                            shapes(old_nodes),
                            i as int,
                            shape(first),
                            shape(second),
                        ));
                        assert(valid_children(shapes(old_nodes)[i as int], shape(first), shape(second), true));
                        lemma_split_hierarchy(
                            shapes(old_nodes),
                            old_depths,
                            self.object_count as int,
                            self.max_depth as int,
                            true,
                            i as int,
                            shape(first),
                            shape(second),
                        );
                    }
                    let mut node = self.nodes[i];
                    node.child_node = c as u32;
                    self.nodes.set(i, node);
                    self.nodes.push(BvhNode {
                        bounds: bounds_gt,
                        start_index: req.start_index,
                        len: count_gt,
                        child_node: 0,
                    });
                    self.nodes.push(BvhNode {
                        bounds: bounds_lt,
                        start_index: req.start_index + count_gt,
                        len: req.len - count_gt,
                        child_node: 0,
                    });
                    let child_depth = req.depth + 1;
                    self.pending.push(((c + 1) as u32, child_depth));
                    self.pending.push((c as u32, child_depth));
                    proof {
                        self.depths@ = old_depths.push(child_depth as int).push(child_depth as int);
                        assert(self.nodes@ =~= split_nodes(old_nodes, i as int, count_gt, bounds_gt, bounds_lt));
                        let nodes = self.nodes@;
                        let pending = self.pending@;
                        assert(old_depths[i as int] == req.depth);
                        assert(hierarchy(shapes(nodes), self.depths@, self.object_count as int, self.max_depth as int, true));
                        assert forall|q: int|
                            0 <= q < pending.len() implies {
                                let idx = (#[trigger] pending[q]).0 as int;
                                &&& idx < nodes.len()
                                &&& nodes[idx].child_node == 0
                                &&& self.depths@[idx] == pending[q].1
                            } by {
                            if q < old_pending.len() {
                                assert(pending[q] == old_pending[q]);
                                let idx = pending[q].0 as int;
                                assert(idx != i) by {
                                    assert(is_pending(old_pending, idx)) by {
                                        assert(old_pending[q].0 == idx);
                                    }
                                }
                                assert(nodes[idx] == old_nodes[idx]);
                            }
                        }
                        assert forall|q: int, r: int|
                            0 <= q < pending.len() && 0 <= r < pending.len() && q != r implies (#[trigger] pending[q]).0
                                != (#[trigger] pending[r]).0 by {
                            if q < old_pending.len() && r < old_pending.len() {
                                assert(pending[q] == old_pending[q] && pending[r] == old_pending[r]);
                            } else if q < old_pending.len() {
                                assert(pending[q] == old_pending[q]);
                            } else if r < old_pending.len() {
                                assert(pending[r] == old_pending[r]);
                            }
                        }
                    }
                }
                Some(count_gt)
            },
        }
    }

    /// Ends the construction once no node is left to consider.
    pub fn finish(self) -> (bvh: BoundingVolumeHierarchy<B>)
        requires
            self.wf(),
            self.current_view() is None,
            self.pending_view().len() == 0,
        ensures
            bvh.nodes_view() == self.nodes_view(),
            bvh.depths_view() == self.depths_view(),
            hierarchy(
                shapes(bvh.nodes_view()),
                bvh.depths_view(),
                self.object_count_view() as int,
                self.max_depth_view() as int,
                true,
            ),
    {
        BoundingVolumeHierarchy { nodes: self.nodes, depths: self.depths }
    }
}

/// A finished scene hierarchy: the node list, root first.
pub struct BoundingVolumeHierarchy<B> {
    nodes: Vec<BvhNode<B>>,
    depths: Ghost<Seq<int>>,
}

/// Height of the subtree rooted at node `i`: -1 for a leaf, one more than the
/// higher of its children otherwise.
pub open spec fn subtree_height<B>(nodes: Seq<BvhNode<B>>, i: int) -> int
    decreases nodes.len() - i,
{
    if !(0 <= i < nodes.len()) || nodes[i].child_node == 0 || nodes[i].child_node <= i
        || nodes[i].child_node + 1 >= nodes.len() {
        -1
    } else {
        let a = subtree_height(nodes, nodes[i].child_node as int);
        let b = subtree_height(nodes, nodes[i].child_node + 1);
        (if a > b {
            a
        } else {
            b
        }) + 1
    }
}

impl<B> BoundingVolumeHierarchy<B> {
    pub closed spec fn nodes_view(&self) -> Seq<BvhNode<B>> {
        self.nodes@
    }

    pub closed spec fn depths_view(&self) -> Seq<int> {
        self.depths@
    }

    /// The hierarchy of an empty object list has no nodes.
    pub fn empty() -> (bvh: Self)
        ensures
            bvh.nodes_view().len() == 0,
    {
        let ghost no_depths: Seq<int> = Seq::empty();
        BoundingVolumeHierarchy { nodes: Vec::new(), depths: Ghost(no_depths) }
    }

    /// Node capacity reserved before construction: two thirds of the object count.
    pub fn initial_node_capacity(object_count: usize) -> (r: usize)
        ensures
            r == (object_count as int * 2) / 3,
    {
        (object_count / 3) * 2 + ((object_count % 3) * 2) / 3
    }

    pub fn nodes(&self) -> (nodes: &[BvhNode<B>])
        ensures
            nodes@ == self.nodes_view(),
    {
        self.nodes.as_slice()
    }

    pub fn into_nodes(self) -> (nodes: Vec<BvhNode<B>>)
        ensures
            nodes@ == self.nodes_view(),
    {
        self.nodes
    }
}

/// Height of the subtree rooted at node `index`.
pub fn find_height<B>(nodes: &[BvhNode<B>], index: u32) -> (h: i32)
    requires
        index < nodes@.len() <= 0x7fff_ffff,
        forall|i: int|
            0 <= i < nodes@.len() && #[trigger] nodes@[i].child_node != 0 ==> i < nodes@[i].child_node
                && nodes@[i].child_node + 1 < nodes@.len(),
    ensures
        h == subtree_height(nodes@, index as int),
        -1 <= h < nodes@.len() - index,
        nodes@[index as int].child_node == 0 ==> h == -1,
        nodes@[index as int].child_node != 0 ==> {
            let c = nodes@[index as int].child_node as int;
            &&& h >= subtree_height(nodes@, c) + 1
            &&& h >= subtree_height(nodes@, c + 1) + 1
            &&& (h == subtree_height(nodes@, c) + 1 || h == subtree_height(nodes@, c + 1) + 1)
        },
    decreases nodes@.len() - index,
{
    let child = nodes[index as usize].child_node;
    if child == 0 {
        return -1;
    }
    let a = find_height(nodes, child);
    let b = find_height(nodes, child + 1);
    (if a > b {
        a
    } else {
        b
    }) + 1
}

/// Heights of subtrees: a leaf has height -1, and an internal node is one
/// level above the higher of its two children: its height is at least one
/// more than each child's and exactly one more than one of them.
pub proof fn lemma_height_above_children<B>(nodes: Seq<BvhNode<B>>, i: int)
    requires
        0 <= i < nodes.len(),
        forall|j: int|
            0 <= j < nodes.len() && #[trigger] nodes[j].child_node != 0 ==> j < nodes[j].child_node
                && nodes[j].child_node + 1 < nodes.len(),
    ensures
        nodes[i].child_node == 0 ==> subtree_height(nodes, i) == -1,
        nodes[i].child_node != 0 ==> {
            let c = nodes[i].child_node as int;
            &&& subtree_height(nodes, i) >= subtree_height(nodes, c) + 1
            &&& subtree_height(nodes, i) >= subtree_height(nodes, c + 1) + 1
            &&& (subtree_height(nodes, i) == subtree_height(nodes, c) + 1 || subtree_height(nodes, i)
                == subtree_height(nodes, c + 1) + 1)
        },
{
}

/// Every object of a finished scene hierarchy lies in exactly one leaf.
pub proof fn lemma_scene_object_in_exactly_one_leaf<B>(
    bvh: &BoundingVolumeHierarchy<B>,
    count: int,
    max_depth: int,
    k: int,
)
    requires
        hierarchy(shapes(bvh.nodes_view()), bvh.depths_view(), count, max_depth, true),
        0 <= k < count,
    ensures
        exists|i: int|
            0 <= i < bvh.nodes_view().len() && bvh.nodes_view()[i].child_node == 0
                && #[trigger] covers(shape(bvh.nodes_view()[i]), k),
        forall|i: int, j: int|
            0 <= i < bvh.nodes_view().len() && 0 <= j < bvh.nodes_view().len()
                && bvh.nodes_view()[i].child_node == 0 && bvh.nodes_view()[j].child_node == 0
                && #[trigger] covers(shape(bvh.nodes_view()[i]), k) && #[trigger] covers(
                shape(bvh.nodes_view()[j]),
                k,
            ) ==> i == j,
{
    let nodes = bvh.nodes_view();
    let sh = shapes(nodes);
    shape_exactly_one_leaf(sh, bvh.depths_view(), count, max_depth, true, k);
    let w = choose|w: int| 0 <= w < sh.len() && sh[w].child == 0 && #[trigger] covers(sh[w], k);
    assert(covers(shape(nodes[w]), k));
    assert forall|i: int, j: int|
        0 <= i < nodes.len() && 0 <= j < nodes.len() && nodes[i].child_node == 0
            && nodes[j].child_node == 0 && #[trigger] covers(shape(nodes[i]), k)
            && #[trigger] covers(shape(nodes[j]), k) implies i == j by {
        assert(sh[i] == shape(nodes[i]) && sh[j] == shape(nodes[j]));
    }
}

/// A finished scene hierarchy over `count` objects has `2 * leaves - 1` nodes,
/// at most `2 * count - 1`.
pub proof fn lemma_scene_node_count<B>(bvh: &BoundingVolumeHierarchy<B>, count: int, max_depth: int)
    requires
        hierarchy(shapes(bvh.nodes_view()), bvh.depths_view(), count, max_depth, true),
    ensures
        bvh.nodes_view().len() == 2 * leaf_count(shapes(bvh.nodes_view())) - 1,
        bvh.nodes_view().len() <= 2 * count - 1,
{
    shape_node_count(shapes(bvh.nodes_view()), bvh.depths_view(), count, max_depth, true);
}

/// The layout of a scene node list over `count` objects, in node fields:
/// the root covers every object; an internal node's children come after it,
/// the first (`child_node`) covering the front of its range, which holds the
/// objects on the upper side, and the second the rest, both non-empty;
/// child pairs start at odd indices and are not shared, and every node but
/// the root is a child of an earlier node.
pub open spec fn scene_node_layout<B>(nodes: Seq<BvhNode<B>>, count: int) -> bool {
    &&& nodes.len() >= 1
    &&& nodes[0].start_index == 0
    &&& nodes[0].len == count
    &&& forall|p: int|
        0 <= p < nodes.len() && #[trigger] nodes[p].child_node != 0 ==> {
            let c = nodes[p].child_node as int;
            &&& p < c
            &&& c + 1 < nodes.len()
            &&& c % 2 == 1
            &&& nodes[c].start_index == nodes[p].start_index
            &&& nodes[c + 1].start_index == nodes[p].start_index + nodes[c].len
            &&& nodes[c].len + nodes[c + 1].len == nodes[p].len
            &&& nodes[c].len >= 1
            &&& nodes[c + 1].len >= 1
        }
    &&& forall|p: int, q: int|
        0 <= p < nodes.len() && 0 <= q < nodes.len() && p != q && #[trigger] nodes[p].child_node != 0
            && #[trigger] nodes[q].child_node != 0 ==> nodes[p].child_node != nodes[q].child_node
    &&& forall|j: int| 1 <= j < nodes.len() ==> #[trigger] scene_child_of_earlier(nodes, j)
}

/// Node `j` is the first or second child of an earlier node.
pub open spec fn scene_child_of_earlier<B>(nodes: Seq<BvhNode<B>>, j: int) -> bool {
    exists|p: int|
        0 <= p < j && #[trigger] nodes[p].child_node != 0 && (nodes[p].child_node == j
            || nodes[p].child_node + 1 == j)
}

proof fn lemma_scene_layout_of_hierarchy<B>(nodes: Seq<BvhNode<B>>, depths: Seq<int>, count: int, max_depth: int)
    requires
        hierarchy(shapes(nodes), depths, count, max_depth, true),
    ensures
        scene_node_layout(nodes, count),
{
    let sh = shapes(nodes);
    assert(sh[0] == shape(nodes[0]));
    assert forall|p: int| 0 <= p < nodes.len() && #[trigger] nodes[p].child_node != 0 implies {
        let c = nodes[p].child_node as int;
        &&& p < c
        &&& c + 1 < nodes.len()
        &&& c % 2 == 1
        &&& nodes[c].start_index == nodes[p].start_index
        &&& nodes[c + 1].start_index == nodes[p].start_index + nodes[c].len
        &&& nodes[c].len + nodes[c + 1].len == nodes[p].len
        &&& nodes[c].len >= 1
        &&& nodes[c + 1].len >= 1
    } by {
        let c = nodes[p].child_node as int;
        assert(sh[p] == shape(nodes[p]));
        assert(sh[p].child != 0);
        assert(crate::tree::children_split_parent(sh, p, true));
        assert(sh[c] == shape(nodes[c]));
        assert(sh[c + 1] == shape(nodes[c + 1]));
        assert(sh[c].len >= 1 && sh[c + 1].len >= 1);
    }
    assert forall|p: int, q: int|
        0 <= p < nodes.len() && 0 <= q < nodes.len() && p != q && #[trigger] nodes[p].child_node != 0
            && #[trigger] nodes[q].child_node != 0 implies nodes[p].child_node != nodes[q].child_node by {
        assert(sh[p] == shape(nodes[p]));
        assert(sh[q] == shape(nodes[q]));
        assert(sh[p].child != 0 && sh[q].child != 0);
    }
    assert forall|j: int| 1 <= j < nodes.len() implies #[trigger] scene_child_of_earlier(nodes, j) by {
        assert(crate::tree::has_parent(sh, j));
        let p = choose|p: int|
            0 <= p < j && #[trigger] sh[p].child != 0 && (sh[p].child == j || sh[p].child + 1 == j);
        assert(sh[p] == shape(nodes[p]));
        assert(nodes[p].child_node != 0);
    }
}

/// Every finished scene hierarchy over `count` objects has the layout of
/// [`scene_node_layout`]; `finish` gives one once `next_split` has
/// returned `None`, whatever partitions were made.
pub proof fn lemma_scene_finished_layout<B>(bvh: &BoundingVolumeHierarchy<B>, count: int, max_depth: int)
    requires
        hierarchy(shapes(bvh.nodes_view()), bvh.depths_view(), count, max_depth, true),
    ensures
        scene_node_layout(bvh.nodes_view(), count),
{
    lemma_scene_layout_of_hierarchy(bvh.nodes_view(), bvh.depths_view(), count, max_depth);
}

} // verus!
