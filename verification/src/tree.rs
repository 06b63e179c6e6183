//! The shape of a binary hierarchy stored as a flat node list, independent of
//! what the nodes carry besides their object range and child index.
//!
//! A node covers the objects `start .. start + len`. A node whose `child` is
//! not 0 has two children, at `child` and `child + 1`, which split its range in
//! two. Which child takes the lower part depends on the hierarchy and is given
//! by `lower_first`.

use vstd::prelude::*;

verus! {

/// Object range and first child index of a node.
pub struct NodeShape {
    pub start: int,
    pub len: int,
    pub child: int,
}

/// Is the object with index `k` in the range of `n`?
pub open spec fn covers(n: NodeShape, k: int) -> bool {
    n.start <= k < n.start + n.len
}

/// Do the ranges of two nodes share no object?
pub open spec fn disjoint(a: NodeShape, b: NodeShape) -> bool {
    a.start + a.len <= b.start || b.start + b.len <= a.start
}

/// The children of node `i`, if it has any, sit after it and split its range:
/// with `lower_first` the first child takes the lower part, otherwise the second.
pub open spec fn children_split_parent(nodes: Seq<NodeShape>, i: int, lower_first: bool) -> bool {
    let n = nodes[i];
    n.child != 0 ==> {
        let c = n.child;
        let (low, high) = if lower_first {
            (c, c + 1)
        } else {
            (c + 1, c)
        };
        &&& i < c
        &&& c + 1 < nodes.len()
        &&& nodes[low].start == n.start
        &&& nodes[high].start == n.start + nodes[low].len
        &&& nodes[c].len + nodes[c + 1].len == n.len
    }
}

/// The root covers every one of `count` objects, every node covers at least
/// one object, and children split their parent.
pub open spec fn tree_shape(nodes: Seq<NodeShape>, count: int, lower_first: bool) -> bool {
    &&& nodes.len() >= 1
    &&& nodes[0].start == 0
    &&& nodes[0].len == count
    &&& forall|i: int| 0 <= i < nodes.len() ==> #[trigger] nodes[i].len >= 1
    &&& forall|i: int| 0 <= i < nodes.len() ==> #[trigger] nodes[i].child >= 0
    &&& forall|i: int| 0 <= i < nodes.len() ==> children_split_parent(nodes, i, lower_first)
}

/// Some leaf covers the object with index `k`.
pub open spec fn in_some_leaf(nodes: Seq<NodeShape>, k: int) -> bool {
    exists|i: int| 0 <= i < nodes.len() && nodes[i].child == 0 && #[trigger] covers(nodes[i], k)
}

/// The leaves partition the objects: every object lies in a leaf, leaves do not
/// overlap, and no leaf reaches past the last object.
pub open spec fn leaves_partition(nodes: Seq<NodeShape>, count: int) -> bool {
    &&& forall|k: int| 0 <= k < count ==> #[trigger] in_some_leaf(nodes, k)
    &&& forall|i: int, j: int|
        0 <= i < nodes.len() && 0 <= j < nodes.len() && i != j && nodes[i].child == 0
            && nodes[j].child == 0 ==> #[trigger] disjoint(nodes[i], nodes[j])
    &&& forall|i: int|
        0 <= i < nodes.len() && nodes[i].child == 0 ==> #[trigger] nodes[i].start + nodes[i].len
            <= count
}

/// Node `j` is the first or second child of some earlier node.
pub open spec fn has_parent(nodes: Seq<NodeShape>, j: int) -> bool {
    exists|p: int|
        0 <= p < j && #[trigger] nodes[p].child != 0 && (nodes[p].child == j || nodes[p].child + 1
            == j)
}

/// Every node but the root is the child of exactly one node: child pairs start at
/// odd indices and no two internal nodes share their children.
pub open spec fn parents_unique(nodes: Seq<NodeShape>) -> bool {
    &&& forall|i: int| 0 <= i < nodes.len() && #[trigger] nodes[i].child != 0 ==> nodes[i].child % 2 == 1
    &&& forall|i: int, j: int|
        0 <= i < nodes.len() && 0 <= j < nodes.len() && i != j && #[trigger] nodes[i].child != 0
            && #[trigger] nodes[j].child != 0 ==> nodes[i].child != nodes[j].child
    &&& forall|j: int| 1 <= j < nodes.len() ==> #[trigger] has_parent(nodes, j)
}

/// `depths` gives the depth of every node: the root is at depth 0, children one
/// below their parent, and no node is deeper than `max_depth`.
pub open spec fn depths_consistent(nodes: Seq<NodeShape>, depths: Seq<int>, max_depth: int) -> bool {
    &&& depths.len() == nodes.len()
    &&& depths[0] == 0
    &&& forall|i: int| 0 <= i < depths.len() ==> 0 <= #[trigger] depths[i] <= max_depth
    &&& forall|i: int|
        0 <= i < nodes.len() && #[trigger] nodes[i].child != 0 ==> depths[nodes[i].child] == depths[i]
            + 1 && depths[nodes[i].child + 1] == depths[i] + 1
}

/// Sum over the leaves of (objects in the leaf - 1).
pub open spec fn leaf_excess(nodes: Seq<NodeShape>) -> int
    decreases nodes.len(),
{
    if nodes.len() == 0 {
        0
    } else {
        leaf_excess(nodes.drop_last()) + node_term(nodes.last())
    }
}

/// Number of leaves.
pub open spec fn leaf_count(nodes: Seq<NodeShape>) -> int
    decreases nodes.len(),
{
    if nodes.len() == 0 {
        0
    } else {
        leaf_count(nodes.drop_last()) + leaf_term(nodes.last())
    }
}

pub open spec fn node_term(n: NodeShape) -> int {
    if n.child == 0 {
        n.len - 1
    } else {
        0
    }
}

pub open spec fn leaf_term(n: NodeShape) -> int {
    if n.child == 0 {
        1
    } else {
        0
    }
}

/// A hierarchy over `count` objects with depth limit `max_depth`: its shape,
/// unique parents, leaves partitioning the objects, consistent depths, and the
/// node count of a full binary tree.
pub open spec fn hierarchy(
    nodes: Seq<NodeShape>,
    depths: Seq<int>,
    count: int,
    max_depth: int,
    lower_first: bool,
) -> bool {
    &&& tree_shape(nodes, count, lower_first)
    &&& parents_unique(nodes)
    &&& leaves_partition(nodes, count)
    &&& depths_consistent(nodes, depths, max_depth)
    &&& nodes.len() + 2 * leaf_excess(nodes) == 2 * count - 1
    &&& nodes.len() == 2 * leaf_count(nodes) - 1
}

/// Node `i` given the children `first` and `second`, appended at the end.
pub open spec fn split_shapes(
    nodes: Seq<NodeShape>,
    i: int,
    first: NodeShape,
    second: NodeShape,
) -> Seq<NodeShape> {
    nodes.update(i, NodeShape { child: nodes.len() as int, ..nodes[i] }).push(first).push(second)
}

/// `first` and `second` are leaves that split the range of `n` in two
/// non-empty parts in the given order.
pub open spec fn valid_children(
    n: NodeShape,
    first: NodeShape,
    second: NodeShape,
    lower_first: bool,
) -> bool {
    let (low, high) = if lower_first {
        (first, second)
    } else {
        (second, first)
    };
    &&& first.child == 0
    &&& second.child == 0
    &&& first.len >= 1
    &&& second.len >= 1
    &&& low.start == n.start
    &&& high.start == n.start + low.len
    &&& first.len + second.len == n.len
}

pub proof fn lemma_excess_push(nodes: Seq<NodeShape>, n: NodeShape)
    ensures
        leaf_excess(nodes.push(n)) == leaf_excess(nodes) + node_term(n),
        leaf_count(nodes.push(n)) == leaf_count(nodes) + leaf_term(n),
{
    assert(nodes.push(n).drop_last() =~= nodes);
}

pub proof fn lemma_excess_update(nodes: Seq<NodeShape>, i: int, n: NodeShape)
    requires
        0 <= i < nodes.len(),
    ensures
        leaf_excess(nodes.update(i, n)) == leaf_excess(nodes) - node_term(nodes[i]) + node_term(n),
        leaf_count(nodes.update(i, n)) == leaf_count(nodes) - leaf_term(nodes[i]) + leaf_term(n),
    decreases nodes.len(),
{
    let u = nodes.update(i, n);
    if i == nodes.len() - 1 {
        assert(u.drop_last() =~= nodes.drop_last());
    } else {
        assert(u.drop_last() =~= nodes.drop_last().update(i, n));
        lemma_excess_update(nodes.drop_last(), i, n);
    }
}

pub proof fn lemma_excess_nonneg(nodes: Seq<NodeShape>)
    requires
        forall|i: int| 0 <= i < nodes.len() ==> #[trigger] nodes[i].len >= 1,
    ensures
        leaf_excess(nodes) >= 0,
        leaf_count(nodes) >= 0,
    decreases nodes.len(),
{
    if nodes.len() > 0 {
        let d = nodes.drop_last();
        assert forall|i: int| 0 <= i < d.len() implies #[trigger] d[i].len >= 1 by {
            assert(d[i] == nodes[i]);
        }
        lemma_excess_nonneg(d);
        assert(nodes.last() == nodes[nodes.len() - 1]);
    }
}

pub proof fn lemma_single_leaves_no_excess(nodes: Seq<NodeShape>)
    requires
        forall|i: int| 0 <= i < nodes.len() && #[trigger] nodes[i].child == 0 ==> nodes[i].len == 1,
    ensures
        leaf_excess(nodes) == 0,
    decreases nodes.len(),
{
    if nodes.len() > 0 {
        let d = nodes.drop_last();
        assert forall|i: int| 0 <= i < d.len() && #[trigger] d[i].child == 0 implies d[i].len == 1 by {
            assert(d[i] == nodes[i]);
        }
        lemma_single_leaves_no_excess(d);
        assert(nodes.last() == nodes[nodes.len() - 1]);
    }
}

/// The hierarchy made of a single root over `count` objects.
pub proof fn lemma_root_hierarchy(root: NodeShape, count: int, lower_first: bool)
    requires
        count >= 1,
        root == (NodeShape { start: 0, len: count, child: 0 }),
    ensures
        hierarchy(seq![root], seq![0int], count, 0, lower_first),
        forall|max_depth: int|
            max_depth >= 0 ==> #[trigger] depths_consistent(seq![root], seq![0int], max_depth),
{
    let nodes = seq![root];
    assert(leaf_excess(nodes) == count - 1 && leaf_count(nodes) == 1) by {
        reveal_with_fuel(leaf_excess, 2);
        reveal_with_fuel(leaf_count, 2);
        assert(nodes.drop_last() =~= Seq::<NodeShape>::empty());
    }
    assert forall|k: int| 0 <= k < count implies #[trigger] in_some_leaf(nodes, k) by {
        assert(covers(nodes[0], k));
    }
}

/// Splitting leaf `i` into two valid children keeps a hierarchy a hierarchy,
/// with the children one level below their parent.
pub proof fn lemma_split_hierarchy(
    nodes: Seq<NodeShape>,
    depths: Seq<int>,
    count: int,
    max_depth: int,
    lower_first: bool,
    i: int,
    first: NodeShape,
    second: NodeShape,
)
    requires
        hierarchy(nodes, depths, count, max_depth, lower_first),
        0 <= i < nodes.len(),
        nodes[i].child == 0,
        valid_children(nodes[i], first, second, lower_first),
        depths[i] < max_depth,
    ensures
        ({
            let s = split_shapes(nodes, i, first, second);
            let d = depths.push(depths[i] + 1).push(depths[i] + 1);
            &&& hierarchy(s, d, count, max_depth, lower_first)
            &&& s.len() == nodes.len() + 2
            &&& s.len() <= 2 * count - 1
        }),
{
    let n = nodes[i];
    let c = nodes.len() as int;
    let ni = NodeShape { child: c, ..n };
    let m = nodes.update(i, ni);
    let p = m.push(first);
    let s = p.push(second);
    let d = depths.push(depths[i] + 1).push(depths[i] + 1);
    assert(s == split_shapes(nodes, i, first, second));
    lemma_excess_nonneg(nodes);
    lemma_excess_update(nodes, i, ni);
    lemma_excess_push(m, first);
    lemma_excess_push(p, second);
    assert(s.len() == c + 2);
    assert forall|j: int| 0 <= j < s.len() implies #[trigger] s[j].len >= 1 by {
        if j < c {
            assert(s[j].len == nodes[j].len);
        }
    }
    assert forall|j: int| 0 <= j < s.len() implies #[trigger] s[j].child >= 0 by {
        if j < c && j != i {
            assert(s[j] == nodes[j]);
        }
    }
    lemma_excess_nonneg(s);
    assert forall|j: int| 0 <= j < s.len() implies children_split_parent(s, j, lower_first) by {
        if j < c && j != i {
            assert(children_split_parent(nodes, j, lower_first));
            assert(s[j] == nodes[j]);
            if nodes[j].child != 0 {
                let cj = nodes[j].child;
                assert(s[cj].start == nodes[cj].start && s[cj].len == nodes[cj].len);
                assert(s[cj + 1].start == nodes[cj + 1].start && s[cj + 1].len == nodes[cj + 1].len);
            }
        }
    }
    assert(tree_shape(s, count, lower_first)) by {
        assert(s[0].start == 0);
        assert(s[0].len == count);
    }
    assert(parents_unique(s)) by {
        assert forall|a: int| 0 <= a < s.len() && #[trigger] s[a].child != 0 implies s[a].child % 2 == 1 by {
            if a != i {
                assert(s[a] == nodes[a]);
            }
        }
        assert forall|a: int, b: int|
            0 <= a < s.len() && 0 <= b < s.len() && a != b && #[trigger] s[a].child != 0
                && #[trigger] s[b].child != 0 implies s[a].child != s[b].child by {
            if a != i && b != i {
                assert(s[a] == nodes[a] && s[b] == nodes[b]);
            } else if a == i {
                assert(s[b] == nodes[b]);
                assert(children_split_parent(nodes, b, lower_first));
            } else {
                assert(s[a] == nodes[a]);
                assert(children_split_parent(nodes, a, lower_first));
            }
        }
        assert forall|j: int| 1 <= j < s.len() implies #[trigger] has_parent(s, j) by {
            if j < c {
                assert(has_parent(nodes, j));
                let pp = choose|pp: int|
                    0 <= pp < j && #[trigger] nodes[pp].child != 0 && (nodes[pp].child == j
                        || nodes[pp].child + 1 == j);
                assert(pp != i);
                assert(s[pp] == nodes[pp]);
            } else {
                assert(s[i].child == c);
            }
        }
    }
    assert(depths_consistent(s, d, max_depth)) by {
        assert forall|j: int| 0 <= j < s.len() && #[trigger] s[j].child != 0 implies d[s[j].child]
            == d[j] + 1 && d[s[j].child + 1] == d[j] + 1 by {
            assert(d[j] == depths[j]);
            if j != i {
                assert(s[j] == nodes[j]);
                assert(children_split_parent(nodes, j, lower_first));
                let cj = nodes[j].child;
                assert(d[cj] == depths[cj]);
                assert(d[cj + 1] == depths[cj + 1]);
            }
        }
        assert forall|j: int| 0 <= j < d.len() implies 0 <= #[trigger] d[j] <= max_depth by {
            if j < c {
                assert(d[j] == depths[j]);
            }
        }
    }
    assert(leaves_partition(s, count)) by {
        assert forall|k: int| 0 <= k < count implies #[trigger] in_some_leaf(s, k) by {
            assert(in_some_leaf(nodes, k));
            let w = choose|w: int|
                0 <= w < nodes.len() && nodes[w].child == 0 && #[trigger] covers(nodes[w], k);
            if w == i {
                if covers(first, k) {
                    assert(covers(s[c], k));
                } else {
                    assert(covers(s[c + 1], k));
                }
            } else {
                assert(s[w] == nodes[w]);
                assert(covers(s[w], k));
            }
        }
        assert forall|a: int, b: int|
            0 <= a < s.len() && 0 <= b < s.len() && a != b && s[a].child == 0 && s[b].child
                == 0 implies #[trigger] disjoint(s[a], s[b]) by {
            if a < c && b < c {
                assert(s[a] == nodes[a] && s[b] == nodes[b]);
                assert(disjoint(nodes[a], nodes[b]));
            } else if a < c {
                assert(s[a] == nodes[a]);
                assert(disjoint(nodes[a], nodes[i]));
            } else if b < c {
                assert(s[b] == nodes[b]);
                assert(disjoint(nodes[b], nodes[i]));
            }
        }
        assert forall|j: int| 0 <= j < s.len() && s[j].child == 0 implies #[trigger] s[j].start
            + s[j].len <= count by {
            if j < c {
                assert(s[j] == nodes[j]);
            } else {
                assert(nodes[i].start + nodes[i].len <= count);
            }
        }
    }
}

/// Every object lies in exactly one leaf of a hierarchy.
pub proof fn lemma_object_in_exactly_one_leaf(
    nodes: Seq<NodeShape>,
    depths: Seq<int>,
    count: int,
    max_depth: int,
    lower_first: bool,
    k: int,
)
    requires
        hierarchy(nodes, depths, count, max_depth, lower_first),
        0 <= k < count,
    ensures
        exists|i: int| 0 <= i < nodes.len() && nodes[i].child == 0 && #[trigger] covers(nodes[i], k),
        forall|i: int, j: int|
            0 <= i < nodes.len() && 0 <= j < nodes.len() && nodes[i].child == 0 && nodes[j].child == 0
                && #[trigger] covers(nodes[i], k) && #[trigger] covers(nodes[j], k) ==> i == j,
{
    assert(in_some_leaf(nodes, k));
    assert forall|i: int, j: int|
        0 <= i < nodes.len() && 0 <= j < nodes.len() && nodes[i].child == 0 && nodes[j].child == 0
            && #[trigger] covers(nodes[i], k) && #[trigger] covers(nodes[j], k) implies i == j by {
        if i != j {
            assert(disjoint(nodes[i], nodes[j]));
        }
    }
}

/// A hierarchy over `count` objects has `2 * leaves - 1` nodes, at most
/// `2 * count - 1`, and exactly that many when every leaf holds one object.
pub proof fn lemma_node_count(
    nodes: Seq<NodeShape>,
    depths: Seq<int>,
    count: int,
    max_depth: int,
    lower_first: bool,
)
    requires
        hierarchy(nodes, depths, count, max_depth, lower_first),
    ensures
        nodes.len() == 2 * leaf_count(nodes) - 1,
        nodes.len() <= 2 * count - 1,
        (forall|i: int| 0 <= i < nodes.len() && #[trigger] nodes[i].child == 0 ==> nodes[i].len == 1)
            ==> nodes.len() == 2 * count - 1,
{
    lemma_excess_nonneg(nodes);
    if forall|i: int| 0 <= i < nodes.len() && #[trigger] nodes[i].child == 0 ==> nodes[i].len == 1 {
        lemma_single_leaves_no_excess(nodes);
    }
}

} // verus!
