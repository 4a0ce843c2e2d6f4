//! The tree flattener: writes the tree into a flat array of nodes that name
//! their children by position.

use crate::node::{no_children, raw_matches, OctantNode, OctantRaw, TraversalMode};
use crate::tree::{child_at, counted, counted_below, size_below, subtree_size};
use vstd::prelude::*;

verus! {

/// Where, in a pre-order layout that has node `i` at `offset`, the child in
/// octant `k` stands: behind the node itself and the subtrees of the octants
/// before it.
pub open spec fn child_offset(nodes: Seq<OctantNode>, i: int, offset: int, k: int) -> int {
    offset + 1 + size_below(nodes, i, k)
}

/// The child entries of node `i` in a pre-order layout that has the node at
/// `offset`: the position of each child, and zero where there is none. A
/// leaf has no child entries.
pub open spec fn child_entries(nodes: Seq<OctantNode>, i: int, offset: int) -> Seq<u32> {
    Seq::new(
        8,
        |k: int|
            if nodes[i].bodies != 1 && child_at(nodes, i, k) is Some {
                child_offset(nodes, i, offset, k) as u32
            } else {
                0u32
            },
    )
}

/// Whether `dst` holds, from `offset` on, the subtree rooted at node `i` in
/// pre-order: the node itself, then the subtrees of its children, octant
/// after octant.
pub open spec fn flat_ok(nodes: Seq<OctantNode>, i: int, dst: Seq<OctantRaw>, offset: int) -> bool
    decreases nodes.len() - i, 9int,
{
    if !(0 <= i < nodes.len()) {
        true
    } else {
        &&& 0 <= offset
        &&& offset + subtree_size(nodes, i) <= dst.len()
        &&& raw_matches(dst[offset], nodes[i], child_entries(nodes, i, offset))
        &&& nodes[i].bodies != 1 ==> flat_below_ok(nodes, i, dst, offset, 8)
    }
}

/// Whether `dst` holds the subtrees of the octants below `k` of node `i`,
/// where the node itself stands at `offset`.
pub open spec fn flat_below_ok(
    nodes: Seq<OctantNode>,
    i: int,
    dst: Seq<OctantRaw>,
    offset: int,
    k: int,
) -> bool
    decreases nodes.len() - i, k,
{
    if k <= 0 || k > 8 || !(0 <= i < nodes.len()) {
        true
    } else {
        flat_below_ok(nodes, i, dst, offset, k - 1) && (match child_at(nodes, i, k - 1) {
            Some(c) => flat_ok(nodes, c, dst, child_offset(nodes, i, offset, k - 1)),
            None => true,
        })
    }
}

/// Whether two arrays agree everywhere but in the places from `offset` up to
/// `end`.
pub open spec fn same_outside(a: Seq<OctantRaw>, b: Seq<OctantRaw>, offset: int, end: int) -> bool {
    &&& a.len() == b.len()
    &&& forall|j: int| 0 <= j < a.len() && !(offset <= j < end) ==> #[trigger] b[j] == a[j]
}

/// A layout stays what it is when the array changes outside of it.
pub proof fn lemma_flat_frame(
    nodes: Seq<OctantNode>,
    i: int,
    a: Seq<OctantRaw>,
    b: Seq<OctantRaw>,
    offset: int,
)
    requires
        flat_ok(nodes, i, a, offset),
        a.len() == b.len(),
        forall|j: int| offset <= j < offset + subtree_size(nodes, i) ==> #[trigger] b[j] == a[j],
    ensures
        flat_ok(nodes, i, b, offset),
    decreases nodes.len() - i, 9int,
{
    if 0 <= i < nodes.len() {
        assert(b[offset] == a[offset]);
        if nodes[i].bodies != 1 {
            lemma_flat_below_frame(nodes, i, a, b, offset, 8);
        }
    }
}

/// The same, for the octants below `k` of a node.
pub proof fn lemma_flat_below_frame(
    nodes: Seq<OctantNode>,
    i: int,
    a: Seq<OctantRaw>,
    b: Seq<OctantRaw>,
    offset: int,
    k: int,
)
    requires
        flat_below_ok(nodes, i, a, offset, k),
        0 <= k <= 8,
        a.len() == b.len(),
        forall|j: int| offset + 1 <= j < offset + 1 + size_below(nodes, i, k) ==> #[trigger] b[j]
            == a[j],
    ensures
        flat_below_ok(nodes, i, b, offset, k),
    decreases nodes.len() - i, k,
{
    if k > 0 && 0 <= i < nodes.len() {
        lemma_flat_below_frame(nodes, i, a, b, offset, k - 1);
        match child_at(nodes, i, k - 1) {
            Some(c) => {
                lemma_flat_frame(nodes, c, a, b, child_offset(nodes, i, offset, k - 1));
            },
            None => {},
        }
    }
}

/// In a counted subtree the child in any octant is counted, and its record
/// is the size of its subtree.
pub proof fn lemma_counted_child(nodes: Seq<OctantNode>, i: int, k: int, upto: int)
    requires
        counted_below(nodes, i, upto),
        0 <= k < upto <= 8,
        0 <= i < nodes.len(),
    ensures
        child_at(nodes, i, k) matches Some(c) ==> counted(nodes, c) && nodes[c].node_count
            == subtree_size(nodes, c),
    decreases upto,
{
    if k < upto - 1 {
        lemma_counted_child(nodes, i, k, upto - 1);
    }
}

/// In a pre-order layout every child stands behind its parent, so that zero
/// can stand for "no child".
pub proof fn lemma_children_follow(
    nodes: Seq<OctantNode>,
    i: int,
    dst: Seq<OctantRaw>,
    offset: int,
    k: int,
)
    requires
        0 <= i < nodes.len(),
        0 <= k < 8,
        flat_ok(nodes, i, dst, offset),
        dst.len() <= u32::MAX,
    ensures
        dst[offset].children@[k] == 0 || dst[offset].children@[k] > offset,
        dst[offset].children@[k] != 0 ==> dst[offset].children@[k] < offset + subtree_size(
            nodes,
            i,
        ),
{
    if nodes[i].bodies != 1 && child_at(nodes, i, k) is Some {
        crate::tree::lemma_size_below_grows(nodes, i, k);
        crate::tree::lemma_size_below_grows(nodes, i, k + 1);
        let c = child_at(nodes, i, k).unwrap();
        assert(size_below(nodes, i, k + 1) == size_below(nodes, i, k) + subtree_size(nodes, c));
        assert(subtree_size(nodes, c) >= 1);
    }
}

/// Writes the subtree rooted at node `node` into `tree_dst` in pre-order,
/// from `offset` on: the node first, then the subtree of each child, octant
/// after octant, every node naming its children by their position in
/// `tree_dst`. Nothing outside that range is touched.
pub fn flatten_octree_pre_order(
    nodes: &[OctantNode],
    node: usize,
    tree_dst: &mut [OctantRaw],
    offset: usize,
)
    requires
        node < nodes@.len(),
        counted(nodes@, node as int),
        offset + subtree_size(nodes@, node as int) <= old(tree_dst)@.len() <= u32::MAX,
    ensures
        flat_ok(nodes@, node as int, final(tree_dst)@, offset as int),
        same_outside(
            old(tree_dst)@,
            final(tree_dst)@,
            offset as int,
            offset + subtree_size(nodes@, node as int),
        ),
    decreases nodes@.len() - node,
{
    let ghost dst0 = tree_dst@;
    let ghost ns = nodes@;
    let this = &nodes[node];
    let raw = OctantRaw::from(this);
    if raw.bodies == 1 {
        tree_dst[offset] = raw;
        proof {
            assert(child_entries(ns, node as int, offset as int) =~= no_children());
        }
        return ;
    }
    let mut entries: [u32; 8] = [0;8];
    let mut child_at_offset: usize = offset + 1;
    let mut k: usize = 0;
    while k < 8
        invariant
            k <= 8,
            ns == nodes@,
            node < ns.len(),
            ns[node as int].bodies != 1,
            *this == ns[node as int],
            counted_below(ns, node as int, 8),
            offset + 1 + size_below(ns, node as int, 8) <= dst0.len() <= u32::MAX,
            child_at_offset == offset + 1 + size_below(ns, node as int, k as int),
            same_outside(dst0, tree_dst@, offset + 1, child_at_offset as int),
            flat_below_ok(ns, node as int, tree_dst@, offset as int, k as int),
            forall|j: int|
                0 <= j < k ==> #[trigger] entries@[j] == child_entries(
                    ns,
                    node as int,
                    offset as int,
                )[j],
            forall|j: int| k <= j < 8 ==> #[trigger] entries@[j] == 0,
        decreases 8 - k,
    {
        let ghost dst1 = tree_dst@;
        proof {
            crate::tree::lemma_size_below_grows(ns, node as int, k + 1);
            lemma_counted_child(ns, node as int, k as int, 8);
        }
        let mut present = false;
        let mut target: usize = 0;
        match this.children[k] {
            Some(c) => {
                if c > node && c < nodes.len() {
                    present = true;
                    target = c;
                }
            },
            None => {},
        }
        if present {
            proof {
                assert(child_at(ns, node as int, k as int) == Some(target as int));
            }
            entries[k] = child_at_offset as u32;
            flatten_octree_pre_order(nodes, target, tree_dst, child_at_offset);
            proof {
                lemma_flat_below_frame(ns, node as int, dst1, tree_dst@, offset as int, k as int);
            }
            child_at_offset = child_at_offset + nodes[target].node_count;
        } else {
            proof {
                assert(child_at(ns, node as int, k as int) is None);
            }
        }
        k += 1;
    }
    let ghost dst2 = tree_dst@;
    let full = OctantRaw { cog: raw.cog, mass: raw.mass, bodies: raw.bodies, children: entries };
    tree_dst[offset] = full;
    proof {
        assert(entries@ =~= child_entries(ns, node as int, offset as int));
        lemma_flat_below_frame(ns, node as int, dst2, tree_dst@, offset as int, 8);
    }
}

/// The level-order layout is not provided: the array is left as it is.
pub fn flatten_octree_level_order(nodes: &[OctantNode], tree_dst: &mut [OctantRaw], offset: u32)
    ensures
        final(tree_dst)@ == old(tree_dst)@,
{
}

/// Writes the tree rooted at node 0 into the front of `tree_dst`, in the
/// layout asked for. In pre-order the tree fills as many places as it has
/// nodes and the rest of the array is left alone. The level-order layout is
/// not provided: asked for it, the array is left as it is. Without nodes
/// there is nothing to do.
pub fn flatten_octree(nodes: &[OctantNode], tree_dst: &mut [OctantRaw], traversal: TraversalMode)
    requires
        traversal == TraversalMode::PreOrder ==> counted(nodes@, 0) && subtree_size(nodes@, 0)
            <= old(tree_dst)@.len() <= u32::MAX,
    ensures
        traversal == TraversalMode::PreOrder ==> flat_ok(nodes@, 0, final(tree_dst)@, 0)
            && same_outside(
            old(tree_dst)@,
            final(tree_dst)@,
            0,
            subtree_size(nodes@, 0) as int,
        ),
        traversal == TraversalMode::LevelOrder ==> final(tree_dst)@ == old(tree_dst)@,
{
    match traversal {
        TraversalMode::LevelOrder => flatten_octree_level_order(nodes, tree_dst, 0),
        TraversalMode::PreOrder => {
            if nodes.len() > 0 {
                flatten_octree_pre_order(nodes, 0, tree_dst, 0);
            }
        },
    }
}

} // verus!
