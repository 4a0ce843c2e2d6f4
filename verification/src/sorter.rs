//! The particle sorter: copies the bodies into the order in which a
//! traversal of the tree meets them, and counts the nodes of every subtree on
//! the way. It only moves the bodies, so it takes them in whatever form the
//! caller keeps them.

use crate::node::OctantNode;
use crate::tree::{
    bodies_below, child_at, counted, counted_below, counts_filled, counts_set, in_subtree,
    in_subtree_below, leaf_order, lemma_bodies_below_grows, lemma_counted_below_stays,
    lemma_counts_filled_twice, lemma_in_subtree_below_behind, lemma_in_subtree_shape,
    lemma_leaf_order, lemma_order_below, lemma_order_shape,
    lemma_size_below_grows, lemma_size_shape, lemma_wf_shape, order_below,
    same_shape, size_below, subtree_size, wf_node, wf_tree,
};
use vstd::prelude::*;

verus! {

/// Whether `after` is `before` with the bodies named by `order` copied from
/// `src` to the places from `offset` on, and nothing else changed.
pub open spec fn placed<T>(
    before: Seq<T>,
    after: Seq<T>,
    src: Seq<T>,
    order: Seq<usize>,
    offset: int,
) -> bool {
    &&& after.len() == before.len()
    &&& forall|j: int|
        0 <= j < before.len() && !(offset <= j < offset + order.len()) ==> #[trigger] after[j]
            == before[j]
    &&& forall|j: int|
        0 <= j < order.len() ==> #[trigger] after[offset + j] == src[order[j] as int]
}

/// The bodies of `src` in the order given by `order`.
pub open spec fn arranged<T>(src: Seq<T>, order: Seq<usize>) -> Seq<T> {
    Seq::new(order.len(), |j: int| src[order[j] as int])
}

/// Sorts the bodies below node `node` into `particles_dst`, from `offset`
/// on, in traversal order, and records in every node of that subtree how
/// many nodes its own subtree has. Nothing outside that range of the
/// destination is touched. Returns the number of nodes in the subtree.
#[verifier::rlimit(50)]
pub fn sort_particles_count_nodes_recursive<T: Copy>(
    nodes: &mut [OctantNode],
    node: usize,
    particles_src: &[T],
    particles_dst: &mut [T],
    offset: usize,
) -> (count: usize)
    requires
        wf_tree(old(nodes)@, particles_src@.len()),
        node < old(nodes)@.len(),
        offset + old(nodes)@[node as int].bodies <= old(particles_dst)@.len(),
        subtree_size(old(nodes)@, node as int) <= usize::MAX,
    ensures
        count == subtree_size(old(nodes)@, node as int),
        counts_set(old(nodes)@, final(nodes)@, node as int),
        counts_filled(old(nodes)@, final(nodes)@),
        counted(final(nodes)@, node as int),
        placed(
            old(particles_dst)@,
            final(particles_dst)@,
            particles_src@,
            leaf_order(old(nodes)@, node as int),
            offset as int,
        ),
    decreases old(nodes)@.len() - node,
{
    let ghost nodes0 = nodes@;
    let ghost dst0 = particles_dst@;
    let ghost src = particles_src@;
    let room = particles_dst.len();
    assert(dst0.len() == room);
    let mut this = nodes[node];
    proof {
        assert(wf_node(nodes0, node as int, src.len()));
    }
    if this.bodies == 1 {
        particles_dst[offset] = particles_src[this.one_body];
        this.node_count = 1;
        nodes[node] = this;
        proof {
            assert(same_shape(nodes0, nodes@));
            assert(leaf_order(nodes0, node as int) =~= seq![this.one_body]);
            assert forall|j: int| 0 <= j < nodes0.len() implies (#[trigger] nodes@[j]).node_count
                == (if in_subtree(nodes0, node as int, j) {
                subtree_size(nodes0, j) as int
            } else {
                nodes0[j].node_count as int
            }) by {}
        }
        return 1;
    }
    let children = this.children;
    let mut total: usize = 0;
    let mut cur: usize = offset;
    let mut k: usize = 0;
    proof {
        assert(same_shape(nodes0, nodes@));
    }
    while k < 8
        invariant
            k <= 8,
            src == particles_src@,
            node < nodes0.len(),
            nodes0[node as int].bodies >= 2,
            children == nodes0[node as int].children,
            wf_tree(nodes0, src.len()),
            counts_filled(nodes0, nodes@),
            forall|j: int|
                0 <= j < nodes0.len() ==> (#[trigger] nodes@[j]).node_count == (if in_subtree_below(
                    nodes0,
                    node as int,
                    j,
                    k as int,
                ) {
                    subtree_size(nodes0, j) as int
                } else {
                    nodes0[j].node_count as int
                }),
            counted_below(nodes@, node as int, k as int),
            total == size_below(nodes0, node as int, k as int),
            cur == offset + bodies_below(nodes0, node as int, k as int),
            placed(dst0, particles_dst@, src, order_below(nodes0, node as int, k as int), offset as int),
            order_below(nodes0, node as int, k as int).len() == bodies_below(
                nodes0,
                node as int,
                k as int,
            ),
            offset + nodes0[node as int].bodies <= dst0.len(),
            bodies_below(nodes0, node as int, 8) == nodes0[node as int].bodies,
            1 + size_below(nodes0, node as int, 8) <= usize::MAX,
            nodes0.len() == old(nodes)@.len(),
            dst0.len() <= usize::MAX,
        decreases 8 - k,
    {
        let ghost nodes1 = nodes@;
        let ghost dst1 = particles_dst@;
        proof {
            lemma_bodies_below_grows(nodes0, node as int, k + 1);
            lemma_size_below_grows(nodes0, node as int, k + 1);
            lemma_order_below(nodes0, src.len(), node as int, k + 1);
            assert(wf_node(nodes0, node as int, src.len()));
        }
        match children[k] {
            Some(c) => {
                proof {
                    assert(child_at(nodes0, node as int, k as int) == Some(c as int));
                    lemma_wf_shape(nodes0, nodes1, src.len());
                    lemma_size_shape(nodes0, nodes1, c as int);
                    lemma_order_shape(nodes0, nodes1, c as int);
                    assert(nodes1[c as int].bodies == nodes0[c as int].bodies);
                    lemma_leaf_order(nodes0, src.len(), c as int);
                    assert(bodies_below(nodes0, node as int, k + 1) == bodies_below(
                        nodes0,
                        node as int,
                        k as int,
                    ) + nodes0[c as int].bodies);
                    assert(size_below(nodes0, node as int, k + 1) == size_below(
                        nodes0,
                        node as int,
                        k as int,
                    ) + subtree_size(nodes0, c as int));
                }
                let child_bodies = nodes[c].bodies as usize;
                let sub = sort_particles_count_nodes_recursive(
                    nodes,
                    c,
                    particles_src,
                    particles_dst,
                    cur,
                );
                proof {
                    lemma_counts_filled_twice(nodes0, nodes1, nodes@);
                    assert forall|j: int| 0 <= j < nodes0.len() implies (
                    #[trigger] nodes@[j]).node_count == (if in_subtree_below(
                        nodes0,
                        node as int,
                        j,
                        k + 1,
                    ) {
                        subtree_size(nodes0, j) as int
                    } else {
                        nodes0[j].node_count as int
                    }) by {
                        lemma_in_subtree_shape(nodes0, nodes1, c as int, j);
                        assert(nodes1[j].bodies == nodes0[j].bodies);
                        lemma_size_shape(nodes0, nodes1, j);
                    }
                    lemma_counted_below_stays(nodes1, nodes@, node as int, k as int);
                    assert(nodes@[node as int].children == nodes0[node as int].children);
                    assert(child_at(nodes@, node as int, k as int) == Some(c as int));
                    let before = order_below(nodes0, node as int, k as int);
                    let part = leaf_order(nodes0, c as int);
                    let after = order_below(nodes0, node as int, k + 1);
                    assert(after == before + part);
                    assert forall|j: int| 0 <= j < after.len() implies #[trigger] particles_dst@[offset
                        + j] == src[after[j] as int] by {
                        if j < before.len() {
                            assert(particles_dst@[offset + j] == dst1[offset + j]);
                        } else {
                            assert(particles_dst@[cur + (j - before.len())] == src[part[j
                                - before.len()] as int]);
                        }
                    }
                }
                cur = cur + child_bodies;
                total = total + sub;
            },
            None => {
                proof {
                    assert(child_at(nodes0, node as int, k as int) is None);
                    assert(nodes@[node as int].children == nodes0[node as int].children);
                    assert(child_at(nodes@, node as int, k as int) is None);
                    assert(order_below(nodes0, node as int, k + 1) =~= order_below(
                        nodes0,
                        node as int,
                        k as int,
                    ));
                }
            },
        }
        k += 1;
    }
    let ghost nodes2 = nodes@;
    let mut this = nodes[node];
    this.node_count = total + 1;
    nodes[node] = this;
    proof {
        assert(same_shape(nodes2, nodes@));
        assert(nodes2[node as int].bodies == nodes0[node as int].bodies);
        lemma_size_shape(nodes0, nodes2, node as int);
        assert forall|i: int| 0 <= i < nodes2.len() implies (#[trigger] nodes@[i]).node_count
            == nodes2[i].node_count || nodes@[i].node_count == subtree_size(nodes2, i) by {}
        assert(counts_filled(nodes2, nodes@));
        lemma_counts_filled_twice(nodes0, nodes2, nodes@);
        lemma_counted_below_stays(nodes2, nodes@, node as int, 8);
        lemma_size_shape(nodes0, nodes@, node as int);
        assert forall|j: int| 0 <= j < nodes0.len() implies (#[trigger] nodes@[j]).node_count == (
        if in_subtree(nodes0, node as int, j) {
            subtree_size(nodes0, j) as int
        } else {
            nodes0[j].node_count as int
        }) by {
            if j != node && in_subtree_below(nodes0, node as int, j, 8) {
                lemma_in_subtree_below_behind(nodes0, node as int, j, 8);
            }
            if j == node && in_subtree_below(nodes0, node as int, j, 8) {
                lemma_in_subtree_below_behind(nodes0, node as int, j, 8);
            }
        }
    }
    total + 1
}

/// Sorts the bodies of the tree rooted at node 0 into the front of
/// `particles_dst`, in traversal order: the bodies below one node come to
/// stand side by side, octant after octant. Records in every node of the
/// tree how many nodes its subtree has, and returns the number of nodes of
/// the whole tree. Without nodes there is nothing to do.
pub fn sort_particles_count_nodes<T: Copy>(
    nodes: &mut [OctantNode],
    particles_src: &[T],
    particles_dst: &mut [T],
) -> (count: usize)
    requires
        wf_tree(old(nodes)@, particles_src@.len()),
        old(nodes)@.len() > 0 ==> old(nodes)@[0].bodies <= old(particles_dst)@.len(),
        subtree_size(old(nodes)@, 0) <= usize::MAX,
    ensures
        count == subtree_size(old(nodes)@, 0),
        counts_set(old(nodes)@, final(nodes)@, 0),
        counted(final(nodes)@, 0),
        placed(
            old(particles_dst)@,
            final(particles_dst)@,
            particles_src@,
            leaf_order(old(nodes)@, 0),
            0,
        ),
{
    if nodes.len() == 0 {
        return 0;
    }
    sort_particles_count_nodes_recursive(nodes, 0, particles_src, particles_dst, 0)
}

} // verus!
