//! The shape of a finished tree, as the sorter and the flattener read it:
//! which nodes lie below which, in what order their bodies come, and how
//! many nodes a subtree has.

use crate::node::OctantNode;
use vstd::prelude::*;

verus! {

/// The slot of child `k` of node `i`, where the node names one that lies
/// behind it in the array.
pub open spec fn child_at(nodes: Seq<OctantNode>, i: int, k: int) -> Option<int> {
    match nodes[i].children@[k] {
        Some(c) => if i < c < nodes.len() {
            Some(c as int)
        } else {
            None
        },
        None => None,
    }
}

/// The number of bodies in octant `k` of node `i`.
pub open spec fn child_bodies(nodes: Seq<OctantNode>, i: int, k: int) -> nat {
    match child_at(nodes, i, k) {
        Some(c) => nodes[c].bodies as nat,
        None => 0,
    }
}

/// The number of bodies in the octants below `k` of node `i`.
pub open spec fn bodies_below(nodes: Seq<OctantNode>, i: int, k: int) -> nat
    decreases k,
{
    if k <= 0 {
        0
    } else {
        bodies_below(nodes, i, k - 1) + child_bodies(nodes, i, k - 1)
    }
}

/// Whether node `i` is sound: a leaf names a body that exists, and the
/// children of any other node lie behind it and share its bodies out.
pub open spec fn wf_node(nodes: Seq<OctantNode>, i: int, n_bodies: nat) -> bool {
    &&& nodes[i].bodies >= 1
    &&& nodes[i].bodies == 1 ==> nodes[i].one_body < n_bodies
    &&& nodes[i].bodies >= 2 ==> {
        &&& forall|k: int|
            0 <= k < 8 ==> (#[trigger] nodes[i].children@[k] matches Some(c) ==> i < c
                < nodes.len())
        &&& bodies_below(nodes, i, 8) == nodes[i].bodies
    }
}

/// Whether every node of the array is sound.
pub open spec fn wf_tree(nodes: Seq<OctantNode>, n_bodies: nat) -> bool {
    forall|i: int| 0 <= i < nodes.len() ==> #[trigger] wf_node(nodes, i, n_bodies)
}

/// The bodies below node `i`, in the order of a traversal that visits the
/// children of each node in octant order.
pub open spec fn leaf_order(nodes: Seq<OctantNode>, i: int) -> Seq<usize>
    decreases nodes.len() - i, 9int,
{
    if !(0 <= i < nodes.len()) {
        Seq::empty()
    } else if nodes[i].bodies == 1 {
        seq![nodes[i].one_body]
    } else {
        order_below(nodes, i, 8)
    }
}

/// The bodies in the octants below `k` of node `i`, in traversal order.
pub open spec fn order_below(nodes: Seq<OctantNode>, i: int, k: int) -> Seq<usize>
    decreases nodes.len() - i, k,
{
    if k <= 0 || k > 8 || !(0 <= i < nodes.len()) {
        Seq::empty()
    } else {
        order_below(nodes, i, k - 1) + (match child_at(nodes, i, k - 1) {
            Some(c) => leaf_order(nodes, c),
            None => Seq::empty(),
        })
    }
}

/// The number of nodes in the subtree rooted at node `i`.
pub open spec fn subtree_size(nodes: Seq<OctantNode>, i: int) -> nat
    decreases nodes.len() - i, 9int,
{
    if !(0 <= i < nodes.len()) {
        0
    } else if nodes[i].bodies == 1 {
        1
    } else {
        1 + size_below(nodes, i, 8)
    }
}

/// The number of nodes in the subtrees of the octants below `k` of node `i`.
pub open spec fn size_below(nodes: Seq<OctantNode>, i: int, k: int) -> nat
    decreases nodes.len() - i, k,
{
    if k <= 0 || k > 8 || !(0 <= i < nodes.len()) {
        0
    } else {
        size_below(nodes, i, k - 1) + (match child_at(nodes, i, k - 1) {
            Some(c) => subtree_size(nodes, c),
            None => 0,
        })
    }
}

/// Whether every node of the subtree rooted at node `i` records how many
/// nodes its own subtree has.
pub open spec fn counted(nodes: Seq<OctantNode>, i: int) -> bool
    decreases nodes.len() - i, 9int,
{
    if !(0 <= i < nodes.len()) {
        true
    } else if nodes[i].bodies == 1 {
        nodes[i].node_count == 1
    } else {
        nodes[i].node_count == subtree_size(nodes, i) && counted_below(nodes, i, 8)
    }
}

/// Whether the subtrees in the octants below `k` of node `i` are counted.
pub open spec fn counted_below(nodes: Seq<OctantNode>, i: int, k: int) -> bool
    decreases nodes.len() - i, k,
{
    if k <= 0 || k > 8 || !(0 <= i < nodes.len()) {
        true
    } else {
        counted_below(nodes, i, k - 1) && (match child_at(nodes, i, k - 1) {
            Some(c) => counted(nodes, c),
            None => true,
        })
    }
}

/// Whether two arrays hold the same tree, but for the recorded node counts.
pub open spec fn same_shape(a: Seq<OctantNode>, b: Seq<OctantNode>) -> bool {
    &&& a.len() == b.len()
    &&& forall|i: int|
        0 <= i < a.len() ==> (#[trigger] b[i]).cog == a[i].cog && b[i].mass == a[i].mass
            && b[i].bodies == a[i].bodies && b[i].children == a[i].children && b[i].one_body
            == a[i].one_body
}

/// Whether `b` differs from `a` at most in node counts that have been set to
/// the size of the node's subtree.
pub open spec fn counts_filled(a: Seq<OctantNode>, b: Seq<OctantNode>) -> bool {
    &&& same_shape(a, b)
    &&& forall|i: int|
        0 <= i < a.len() ==> (#[trigger] b[i]).node_count == a[i].node_count || b[i].node_count
            == subtree_size(a, i)
}

/// In a sound tree the traversal below a node visits as many bodies as the
/// node has, each of them one that exists.
pub proof fn lemma_leaf_order(nodes: Seq<OctantNode>, n_bodies: nat, i: int)
    requires
        wf_tree(nodes, n_bodies),
        0 <= i < nodes.len(),
    ensures
        leaf_order(nodes, i).len() == nodes[i].bodies,
        forall|j: int| 0 <= j < leaf_order(nodes, i).len() ==> #[trigger] leaf_order(nodes, i)[j]
            < n_bodies,
    decreases nodes.len() - i, 9int,
{
    assert(wf_node(nodes, i, n_bodies));
    if nodes[i].bodies != 1 {
        lemma_order_below(nodes, n_bodies, i, 8);
    }
}

/// The same, for the octants below `k` of a node.
pub proof fn lemma_order_below(nodes: Seq<OctantNode>, n_bodies: nat, i: int, k: int)
    requires
        wf_tree(nodes, n_bodies),
        0 <= i < nodes.len(),
        0 <= k <= 8,
    ensures
        order_below(nodes, i, k).len() == bodies_below(nodes, i, k),
        forall|j: int|
            0 <= j < order_below(nodes, i, k).len() ==> #[trigger] order_below(nodes, i, k)[j]
                < n_bodies,
    decreases nodes.len() - i, k,
{
    if k > 0 {
        lemma_order_below(nodes, n_bodies, i, k - 1);
        match child_at(nodes, i, k - 1) {
            Some(c) => {
                lemma_leaf_order(nodes, n_bodies, c);
            },
            None => {},
        }
    }
}

/// The octants below `k` of a node hold no more bodies than all eight.
pub proof fn lemma_bodies_below_grows(nodes: Seq<OctantNode>, i: int, k: int)
    requires
        0 <= k <= 8,
    ensures
        bodies_below(nodes, i, k) <= bodies_below(nodes, i, 8),
    decreases 8 - k,
{
    if k < 8 {
        lemma_bodies_below_grows(nodes, i, k + 1);
    }
}

/// The subtrees in the octants below `k` of a node hold no more nodes than
/// those of all eight.
pub proof fn lemma_size_below_grows(nodes: Seq<OctantNode>, i: int, k: int)
    requires
        0 <= k <= 8,
        0 <= i < nodes.len(),
    ensures
        size_below(nodes, i, k) <= size_below(nodes, i, 8),
    decreases 8 - k,
{
    if k < 8 {
        lemma_size_below_grows(nodes, i, k + 1);
    }
}

/// The size of a subtree depends on the shape of the tree alone.
pub proof fn lemma_size_shape(a: Seq<OctantNode>, b: Seq<OctantNode>, i: int)
    requires
        same_shape(a, b),
    ensures
        subtree_size(b, i) == subtree_size(a, i),
    decreases a.len() - i, 9int,
{
    if 0 <= i < a.len() {
        assert(b[i].bodies == a[i].bodies);
        if a[i].bodies != 1 {
            lemma_size_below_shape(a, b, i, 8);
        }
    }
}

/// The same, for the octants below `k` of a node.
pub proof fn lemma_size_below_shape(a: Seq<OctantNode>, b: Seq<OctantNode>, i: int, k: int)
    requires
        same_shape(a, b),
        0 <= k <= 8,
    ensures
        size_below(b, i, k) == size_below(a, i, k),
    decreases a.len() - i, k,
{
    if k > 0 && 0 <= i < a.len() {
        lemma_size_below_shape(a, b, i, k - 1);
        assert(b[i].children == a[i].children);
        match child_at(a, i, k - 1) {
            Some(c) => {
                lemma_size_shape(a, b, c);
            },
            None => {},
        }
    }
}

/// A counted subtree stays counted when node counts elsewhere are filled in.
pub proof fn lemma_counted_stays(a: Seq<OctantNode>, b: Seq<OctantNode>, i: int)
    requires
        counts_filled(a, b),
        counted(a, i),
    ensures
        counted(b, i),
    decreases a.len() - i, 9int,
{
    if 0 <= i < a.len() {
        assert(b[i].bodies == a[i].bodies);
        lemma_size_shape(a, b, i);
        if a[i].bodies != 1 {
            lemma_counted_below_stays(a, b, i, 8);
        } else {
            assert(subtree_size(a, i) == 1);
        }
    }
}

/// The same, for the octants below `k` of a node.
pub proof fn lemma_counted_below_stays(a: Seq<OctantNode>, b: Seq<OctantNode>, i: int, k: int)
    requires
        counts_filled(a, b),
        counted_below(a, i, k),
        0 <= k <= 8,
    ensures
        counted_below(b, i, k),
    decreases a.len() - i, k,
{
    if k > 0 && 0 <= i < a.len() {
        lemma_counted_below_stays(a, b, i, k - 1);
        assert(b[i].children == a[i].children);
        match child_at(a, i, k - 1) {
            Some(c) => {
                lemma_counted_stays(a, b, c);
            },
            None => {},
        }
    }
}

/// The traversal order depends on the shape of the tree alone.
pub proof fn lemma_order_shape(a: Seq<OctantNode>, b: Seq<OctantNode>, i: int)
    requires
        same_shape(a, b),
    ensures
        leaf_order(b, i) == leaf_order(a, i),
    decreases a.len() - i, 9int,
{
    if 0 <= i < a.len() {
        assert(b[i].bodies == a[i].bodies);
        if a[i].bodies != 1 {
            lemma_order_below_shape(a, b, i, 8);
        }
    }
}

/// The same, for the octants below `k` of a node.
pub proof fn lemma_order_below_shape(a: Seq<OctantNode>, b: Seq<OctantNode>, i: int, k: int)
    requires
        same_shape(a, b),
        0 <= k <= 8,
    ensures
        order_below(b, i, k) == order_below(a, i, k),
    decreases a.len() - i, k,
{
    if k > 0 && 0 <= i < a.len() {
        lemma_order_below_shape(a, b, i, k - 1);
        assert(b[i].children == a[i].children);
        match child_at(a, i, k - 1) {
            Some(c) => {
                lemma_order_shape(a, b, c);
            },
            None => {},
        }
    }
}

/// How the bodies are shared out depends on the shape of the tree alone.
pub proof fn lemma_bodies_below_shape(a: Seq<OctantNode>, b: Seq<OctantNode>, i: int, k: int)
    requires
        same_shape(a, b),
        0 <= i < a.len(),
        0 <= k <= 8,
    ensures
        bodies_below(b, i, k) == bodies_below(a, i, k),
    decreases k,
{
    if k > 0 {
        lemma_bodies_below_shape(a, b, i, k - 1);
        assert(b[i].children == a[i].children);
        match child_at(a, i, k - 1) {
            Some(c) => {
                assert(b[c].bodies == a[c].bodies);
            },
            None => {},
        }
    }
}

/// Soundness depends on the shape of the tree alone.
pub proof fn lemma_wf_shape(a: Seq<OctantNode>, b: Seq<OctantNode>, n_bodies: nat)
    requires
        same_shape(a, b),
        wf_tree(a, n_bodies),
    ensures
        wf_tree(b, n_bodies),
{
    assert forall|i: int| 0 <= i < b.len() implies #[trigger] wf_node(b, i, n_bodies) by {
        assert(wf_node(a, i, n_bodies));
        assert(b[i].bodies == a[i].bodies);
        assert(b[i].children == a[i].children);
        lemma_bodies_below_shape(a, b, i, 8);
    }
}

/// Filling in node counts twice is filling them in once.
pub proof fn lemma_counts_filled_twice(a: Seq<OctantNode>, b: Seq<OctantNode>, c: Seq<OctantNode>)
    requires
        counts_filled(a, b),
        counts_filled(b, c),
    ensures
        counts_filled(a, c),
{
    assert forall|i: int| 0 <= i < a.len() implies (#[trigger] c[i]).node_count == a[i].node_count
        || c[i].node_count == subtree_size(a, i) by {
        assert(b[i].bodies == a[i].bodies);
        lemma_size_shape(a, b, i);
    }
    assert forall|i: int| 0 <= i < a.len() implies (#[trigger] c[i]).cog == a[i].cog && c[i].mass
        == a[i].mass && c[i].bodies == a[i].bodies && c[i].children == a[i].children
        && c[i].one_body == a[i].one_body by {
        assert(b[i].bodies == a[i].bodies);
    }
}

/// Whether node `j` belongs to the subtree rooted at node `i`.
pub open spec fn in_subtree(nodes: Seq<OctantNode>, i: int, j: int) -> bool
    decreases nodes.len() - i, 9int,
{
    if !(0 <= i < nodes.len()) {
        false
    } else if i == j {
        true
    } else if nodes[i].bodies == 1 {
        false
    } else {
        in_subtree_below(nodes, i, j, 8)
    }
}

/// Whether node `j` belongs to the subtree of one of the octants below `k`
/// of node `i`.
pub open spec fn in_subtree_below(nodes: Seq<OctantNode>, i: int, j: int, k: int) -> bool
    decreases nodes.len() - i, k,
{
    if k <= 0 || k > 8 || !(0 <= i < nodes.len()) {
        false
    } else {
        in_subtree_below(nodes, i, j, k - 1) || (match child_at(nodes, i, k - 1) {
            Some(c) => in_subtree(nodes, c, j),
            None => false,
        })
    }
}

/// Whether `after` is `before` with the node counts of the subtree rooted at
/// node `i` set to the sizes of the subtrees, and nothing else changed.
pub open spec fn counts_set(before: Seq<OctantNode>, after: Seq<OctantNode>, i: int) -> bool {
    &&& same_shape(before, after)
    &&& forall|j: int|
        0 <= j < before.len() ==> (#[trigger] after[j]).node_count == (if in_subtree(before, i, j) {
            subtree_size(before, j) as int
        } else {
            before[j].node_count as int
        })
}

/// The nodes of a subtree stand at or behind its root.
pub proof fn lemma_in_subtree_behind(nodes: Seq<OctantNode>, i: int, j: int)
    requires
        in_subtree(nodes, i, j),
    ensures
        i <= j < nodes.len(),
    decreases nodes.len() - i, 9int,
{
    if i != j {
        lemma_in_subtree_below_behind(nodes, i, j, 8);
    }
}

/// The same, for the octants below `k` of a node.
pub proof fn lemma_in_subtree_below_behind(nodes: Seq<OctantNode>, i: int, j: int, k: int)
    requires
        in_subtree_below(nodes, i, j, k),
    ensures
        i < j < nodes.len(),
    decreases nodes.len() - i, k,
{
    if !in_subtree_below(nodes, i, j, k - 1) {
        let c = child_at(nodes, i, k - 1).unwrap();
        lemma_in_subtree_behind(nodes, c, j);
    } else {
        lemma_in_subtree_below_behind(nodes, i, j, k - 1);
    }
}

/// Which nodes belong to a subtree depends on the shape of the tree alone.
pub proof fn lemma_in_subtree_shape(a: Seq<OctantNode>, b: Seq<OctantNode>, i: int, j: int)
    requires
        same_shape(a, b),
    ensures
        in_subtree(b, i, j) == in_subtree(a, i, j),
    decreases a.len() - i, 9int,
{
    if 0 <= i < a.len() {
        assert(b[i].bodies == a[i].bodies);
        if i != j && a[i].bodies != 1 {
            lemma_in_subtree_below_shape(a, b, i, j, 8);
        }
    }
}

/// The same, for the octants below `k` of a node.
pub proof fn lemma_in_subtree_below_shape(
    a: Seq<OctantNode>,
    b: Seq<OctantNode>,
    i: int,
    j: int,
    k: int,
)
    requires
        same_shape(a, b),
        0 <= k <= 8,
    ensures
        in_subtree_below(b, i, j, k) == in_subtree_below(a, i, j, k),
    decreases a.len() - i, k,
{
    if k > 0 && 0 <= i < a.len() {
        lemma_in_subtree_below_shape(a, b, i, j, k - 1);
        assert(b[i].children == a[i].children);
        match child_at(a, i, k - 1) {
            Some(c) => {
                lemma_in_subtree_shape(a, b, c, j);
            },
            None => {},
        }
    }
}

} // verus!
