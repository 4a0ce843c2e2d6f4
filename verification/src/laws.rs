//! What holds of every octree: the laws that tie the cells of the tree to
//! the shape of its nodes, to the order of the sorted bodies and to the sums
//! that the nodes hold.

use crate::body::{total_mass, Particle};
use crate::node::OctantNode;
use crate::octant::{lemma_octant_bits, octant_of};
use crate::octree::{
    bucket, bucket_of, cells_upto, child_cell, children_cells, children_upto, expand, in_octant,
    inner_matches, is_octree, leaf_matches, lemma_bucket_valid, level, links_match, node_matches,
    root_cell, valid_bodies, Cell,
};
use crate::octree::{complete_at, lemma_cells_upto_grows, lemma_complete_bounds};
use crate::sorter::arranged;
use crate::tree::{
    bodies_below, child_at, leaf_order, order_below, size_below, subtree_size,
    wf_node, wf_tree,
};
use vstd::multiset::Multiset;
use vstd::prelude::*;

verus! {

/// Whether all the cells name only bodies that exist, and each at least one.
pub open spec fn cells_valid(cells: Seq<Cell>, n: nat) -> bool {
    forall|i: int|
        0 <= i < cells.len() ==> valid_bodies((#[trigger] cells[i]).bodies, n) && cells[i].bodies.len()
            >= 1
}

proof fn lemma_children_valid(ps: Seq<Particle>, cell: Cell, k: int, n: nat)
    requires
        valid_bodies(cell.bodies, n),
        0 <= k <= 8,
    ensures
        cells_valid(children_upto(ps, cell, k), n),
    decreases k,
{
    if k > 0 {
        lemma_children_valid(ps, cell, k - 1, n);
        lemma_bucket_valid(ps, cell.center, cell.bodies, k - 1, n);
    }
}

proof fn lemma_expand_valid(ps: Seq<Particle>, cells: Seq<Cell>, n: nat)
    requires
        cells_valid(cells, n),
    ensures
        cells_valid(expand(ps, cells), n),
    decreases cells.len(),
{
    if cells.len() > 0 {
        let rest = cells.drop_last();
        assert forall|i: int| 0 <= i < rest.len() implies valid_bodies(
            (#[trigger] rest[i]).bodies,
            n,
        ) && rest[i].bodies.len() >= 1 by {
            assert(rest[i] == cells[i]);
        }
        lemma_expand_valid(ps, rest, n);
        assert(valid_bodies(cells[cells.len() - 1].bodies, n));
        lemma_children_valid(ps, cells.last(), 8, n);
    }
}

proof fn lemma_level_valid(ps: Seq<Particle>, root: Cell, depth: nat, n: nat)
    requires
        valid_bodies(root.bodies, n),
    ensures
        cells_valid(level(ps, root, depth), n),
    decreases depth,
{
    if depth > 0 {
        lemma_level_valid(ps, root, (depth - 1) as nat, n);
        lemma_expand_valid(ps, level(ps, root, (depth - 1) as nat), n);
    }
}

/// Every cell of a tree over bodies that exist names bodies that exist, and
/// at least one.
pub proof fn lemma_cells_valid(ps: Seq<Particle>, root: Cell, depth: nat, n: nat)
    requires
        valid_bodies(root.bodies, n),
    ensures
        cells_valid(cells_upto(ps, root, depth), n),
    decreases depth,
{
    lemma_level_valid(ps, root, depth, n);
    if depth > 0 {
        lemma_cells_valid(ps, root, (depth - 1) as nat, n);
    }
}

/// The number of bodies in the octants below `k` around `center`.
pub open spec fn bucket_total(ps: Seq<Particle>, center: Seq<i64>, bodies: Seq<usize>, k: int) -> nat
    decreases k,
{
    if k <= 0 {
        0
    } else {
        bucket_total(ps, center, bodies, k - 1) + bucket_of(ps, center, bodies, k - 1).len()
    }
}

proof fn lemma_bucket_total_push(
    ps: Seq<Particle>,
    center: Seq<i64>,
    rest: Seq<usize>,
    x: usize,
    k: int,
)
    requires
        0 <= k <= 8,
    ensures
        bucket_total(ps, center, rest.push(x), k) == bucket_total(ps, center, rest, k) + (if octant_of(
            center,
            ps[x as int].position,
        ) < k {
            1nat
        } else {
            0nat
        }),
    decreases k,
{
    lemma_octant_bits(center, ps[x as int].position, 0);
    if k > 0 {
        lemma_bucket_total_push(ps, center, rest, x, k - 1);
        rest.lemma_filter_push(x, in_octant(ps, center, k - 1));
    }
}

/// The octants of a cube share its bodies out: each body lies in exactly one
/// of the eight.
pub proof fn lemma_buckets_share_out(ps: Seq<Particle>, center: Seq<i64>, bodies: Seq<usize>)
    ensures
        bucket_total(ps, center, bodies, 8) == bodies.len(),
    decreases bodies.len(),
{
    if bodies.len() == 0 {
        lemma_bucket_total_empty(ps, center, bodies, 8);
    } else {
        let rest = bodies.drop_last();
        let x = bodies.last();
        assert(bodies =~= rest.push(x));
        lemma_buckets_share_out(ps, center, rest);
        lemma_bucket_total_push(ps, center, rest, x, 8);
        lemma_octant_bits(center, ps[x as int].position, 0);
    }
}

proof fn lemma_bucket_total_empty(ps: Seq<Particle>, center: Seq<i64>, bodies: Seq<usize>, k: int)
    requires
        bodies.len() == 0,
        0 <= k <= 8,
    ensures
        bucket_total(ps, center, bodies, k) == 0,
    decreases k,
{
    if k > 0 {
        lemma_bucket_total_empty(ps, center, bodies, k - 1);
        bodies.lemma_filter_len(in_octant(ps, center, k - 1));
    }
}

proof fn lemma_bodies_below_buckets(
    ps: Seq<Particle>,
    nodes: Seq<OctantNode>,
    cells: Seq<Cell>,
    i: int,
    k: int,
)
    requires
        is_octree(ps, nodes, cells),
        0 <= i < nodes.len(),
        cells[i].bodies.len() >= 2,
        0 <= k <= 8,
    ensures
        bodies_below(nodes, i, k) == bucket_total(ps, cells[i].center, cells[i].bodies, k),
    decreases k,
{
    if k > 0 {
        lemma_bodies_below_buckets(ps, nodes, cells, i, k - 1);
        assert(node_matches(ps, nodes[i], cells[i]) && links_match(ps, nodes, cells, i));
        assert(inner_matches(ps, nodes[i], cells[i]));
        match nodes[i].children@[k - 1] {
            Some(c) => {
                assert(child_at(nodes, i, k - 1) == Some(c as int));
                assert(node_matches(ps, nodes[c as int], cells[c as int]));
                assert(cells[c as int] == child_cell(ps, cells[i], k - 1));
            },
            None => {
                assert(bucket(ps, cells[i], k - 1).len() == 0);
            },
        }
    }
}

/// Each node of an octree describes its cell and is linked to the nodes of
/// the cells below it.
pub proof fn lemma_octree_node(
    ps: Seq<Particle>,
    nodes: Seq<OctantNode>,
    cells: Seq<Cell>,
    i: int,
)
    requires
        is_octree(ps, nodes, cells),
        0 <= i < nodes.len(),
    ensures
        nodes.len() == cells.len(),
        node_matches(ps, nodes[i], cells[i]),
        links_match(ps, nodes, cells, i),
{
    assert(node_matches(ps, nodes[i], cells[i]) && links_match(ps, nodes, cells, i));
}

/// The nodes of an octree form a sound tree: a leaf names a body that
/// exists, the children of a node lie behind it, and they share its bodies
/// out.
pub proof fn lemma_octree_wf(ps: Seq<Particle>, nodes: Seq<OctantNode>, cells: Seq<Cell>)
    requires
        is_octree(ps, nodes, cells),
        cells_valid(cells, ps.len()),
    ensures
        wf_tree(nodes, ps.len()),
{
    assert forall|i: int| 0 <= i < nodes.len() implies #[trigger] wf_node(nodes, i, ps.len()) by {
        lemma_octree_node(ps, nodes, cells, i);
        assert(valid_bodies(cells[i].bodies, ps.len()));
        if cells[i].bodies.len() >= 2 {
            lemma_bodies_below_buckets(ps, nodes, cells, i, 8);
            lemma_buckets_share_out(ps, cells[i].center, cells[i].bodies);
        } else {
            assert(leaf_matches(ps, nodes[i], cells[i]));
        }
    }
}

/// The number of cells of the tree below `cell`, itself included, down to
/// `fuel` levels.
pub open spec fn tree_cells(ps: Seq<Particle>, cell: Cell, fuel: nat) -> nat
    decreases fuel, 9int,
{
    if fuel == 0 || cell.bodies.len() < 2 {
        1
    } else {
        1 + kids_cells(ps, cell, fuel, 8)
    }
}

/// The number of cells of the trees below the octants under `k` of `cell`
/// that hold a body, each down to `fuel - 1` levels.
pub open spec fn kids_cells(ps: Seq<Particle>, cell: Cell, fuel: nat, k: int) -> nat
    decreases fuel, k,
{
    if k <= 0 || k > 8 || fuel == 0 {
        0
    } else {
        kids_cells(ps, cell, fuel, k - 1) + (if bucket(ps, cell, k - 1).len() > 0 {
            tree_cells(ps, child_cell(ps, cell, k - 1), (fuel - 1) as nat)
        } else {
            0
        })
    }
}

/// The number of cells of the trees below the given cells, each down to
/// `fuel` levels.
pub open spec fn forest_cells(ps: Seq<Particle>, cells: Seq<Cell>, fuel: nat) -> nat
    decreases cells.len(),
{
    if cells.len() == 0 {
        0
    } else {
        forest_cells(ps, cells.drop_last(), fuel) + tree_cells(ps, cells.last(), fuel)
    }
}

proof fn lemma_forest_concat(ps: Seq<Particle>, a: Seq<Cell>, b: Seq<Cell>, fuel: nat)
    ensures
        forest_cells(ps, a + b, fuel) == forest_cells(ps, a, fuel) + forest_cells(ps, b, fuel),
    decreases b.len(),
{
    if b.len() == 0 {
        assert(a + b =~= a);
    } else {
        assert((a + b).drop_last() =~= a + b.drop_last());
        lemma_forest_concat(ps, a, b.drop_last(), fuel);
    }
}

proof fn lemma_forest_push(ps: Seq<Particle>, a: Seq<Cell>, c: Cell, fuel: nat)
    ensures
        forest_cells(ps, a.push(c), fuel) == forest_cells(ps, a, fuel) + tree_cells(ps, c, fuel),
{
    assert(a.push(c).drop_last() =~= a);
}

proof fn lemma_forest_zero(ps: Seq<Particle>, cells: Seq<Cell>)
    ensures
        forest_cells(ps, cells, 0) == cells.len(),
    decreases cells.len(),
{
    if cells.len() > 0 {
        lemma_forest_zero(ps, cells.drop_last());
    }
}

proof fn lemma_kids_are_forest(ps: Seq<Particle>, cell: Cell, fuel: nat, k: int)
    requires
        fuel > 0,
        0 <= k <= 8,
    ensures
        kids_cells(ps, cell, fuel, k) == forest_cells(
            ps,
            children_upto(ps, cell, k),
            (fuel - 1) as nat,
        ),
    decreases k,
{
    if k > 0 {
        lemma_kids_are_forest(ps, cell, fuel, k - 1);
        if bucket(ps, cell, k - 1).len() > 0 {
            lemma_forest_push(
                ps,
                children_upto(ps, cell, k - 1),
                child_cell(ps, cell, k - 1),
                (fuel - 1) as nat,
            );
        }
    }
}

/// The trees below some cells have as many cells as there are of them, plus
/// the cells of the trees below their children.
proof fn lemma_forest_step(ps: Seq<Particle>, cells: Seq<Cell>, fuel: nat)
    ensures
        forest_cells(ps, cells, fuel + 1) == cells.len() + forest_cells(ps, expand(ps, cells), fuel),
    decreases cells.len(),
{
    if cells.len() > 0 {
        let rest = cells.drop_last();
        let c = cells.last();
        lemma_forest_step(ps, rest, fuel);
        lemma_forest_concat(ps, expand(ps, rest), children_cells(ps, c), fuel);
        if c.bodies.len() >= 2 {
            lemma_kids_are_forest(ps, c, fuel + 1, 8);
        }
    }
}

/// The trees below the cells of one level, down to `fuel` levels, have the
/// cells of that level and of the `fuel` levels below it.
proof fn lemma_forest_levels(ps: Seq<Particle>, root: Cell, depth: nat, fuel: nat)
    ensures
        cells_upto(ps, root, depth).len() + forest_cells(ps, level(ps, root, depth), fuel)
            == level(ps, root, depth).len() + cells_upto(ps, root, depth + fuel).len(),
    decreases fuel,
{
    if fuel == 0 {
        lemma_forest_zero(ps, level(ps, root, depth));
    } else {
        lemma_forest_step(ps, level(ps, root, depth), (fuel - 1) as nat);
        lemma_forest_levels(ps, root, depth + 1, (fuel - 1) as nat);
        assert(depth + 1 + (fuel - 1) as nat == depth + fuel);
    }
}

proof fn lemma_size_is_cells(
    ps: Seq<Particle>,
    nodes: Seq<OctantNode>,
    cells: Seq<Cell>,
    i: int,
    fuel: nat,
)
    requires
        is_octree(ps, nodes, cells),
        0 <= i < nodes.len(),
        fuel >= nodes.len() - i,
    ensures
        subtree_size(nodes, i) == tree_cells(ps, cells[i], fuel),
    decreases nodes.len() - i, 9int,
{
    lemma_octree_node(ps, nodes, cells, i);
    if nodes[i].bodies != 1 {
        lemma_size_below_is_cells(ps, nodes, cells, i, fuel, 8);
    }
}

proof fn lemma_size_below_is_cells(
    ps: Seq<Particle>,
    nodes: Seq<OctantNode>,
    cells: Seq<Cell>,
    i: int,
    fuel: nat,
    k: int,
)
    requires
        is_octree(ps, nodes, cells),
        0 <= i < nodes.len(),
        cells[i].bodies.len() >= 2,
        fuel >= nodes.len() - i,
        0 <= k <= 8,
    ensures
        size_below(nodes, i, k) == kids_cells(ps, cells[i], fuel, k),
    decreases nodes.len() - i, k,
{
    if k > 0 {
        lemma_size_below_is_cells(ps, nodes, cells, i, fuel, k - 1);
        lemma_octree_node(ps, nodes, cells, i);
        assert(inner_matches(ps, nodes[i], cells[i]));
        match nodes[i].children@[k - 1] {
            Some(c) => {
                assert(child_at(nodes, i, k - 1) == Some(c as int));
                assert(cells[c as int] == child_cell(ps, cells[i], k - 1));
                assert(bucket(ps, cells[i], k - 1).len() > 0);
                lemma_size_is_cells(ps, nodes, cells, c as int, (fuel - 1) as nat);
            },
            None => {
                assert(child_at(nodes, i, k - 1) is None);
                assert(bucket(ps, cells[i], k - 1).len() == 0);
            },
        }
    }
}

/// A level that holds a cell lies below as many levels that hold one.
proof fn lemma_levels_fill(ps: Seq<Particle>, root: Cell, depth: nat)
    requires
        level(ps, root, depth).len() > 0,
    ensures
        cells_upto(ps, root, depth).len() >= depth + 1,
    decreases depth,
{
    if depth > 0 {
        let above = level(ps, root, (depth - 1) as nat);
        if above.len() == 0 {
            assert(expand(ps, above) =~= Seq::<Cell>::empty());
        }
        lemma_levels_fill(ps, root, (depth - 1) as nat);
    }
}

/// A finished octree has as many nodes below its root, the root included,
/// as it has nodes at all: every node belongs to the tree, once.
pub proof fn lemma_octree_size(ps: Seq<Particle>, root: Cell, nodes: Seq<OctantNode>, depth: nat)
    requires
        complete_at(ps, root, depth),
        is_octree(ps, nodes, cells_upto(ps, root, depth)),
    ensures
        subtree_size(nodes, 0) == nodes.len(),
{
    let cells = cells_upto(ps, root, depth);
    if nodes.len() > 0 {
        let fuel = nodes.len();
        lemma_size_is_cells(ps, nodes, cells, 0, fuel);
        lemma_first_cell(ps, root, depth);
        lemma_forest_levels(ps, root, 0, fuel);
        assert(level(ps, root, 0) =~= seq![root]);
        assert(seq![root] =~= Seq::<Cell>::empty().push(root));
        lemma_forest_push(ps, Seq::<Cell>::empty(), root, fuel);
        assert(forest_cells(ps, seq![root], fuel) == tree_cells(ps, root, fuel));
        assert(cells_upto(ps, root, 0) == level(ps, root, 0));
        lemma_complete_bounds(ps, root, depth, fuel);
        if level(ps, root, fuel).len() > 0 {
            lemma_levels_fill(ps, root, fuel);
        }
        assert(complete_at(ps, root, fuel));
        lemma_complete_bounds(ps, root, fuel, depth);
    }
}

/// The first cell of a tree that has any is its root.
pub proof fn lemma_first_cell(ps: Seq<Particle>, root: Cell, depth: nat)
    requires
        cells_upto(ps, root, depth).len() > 0,
    ensures
        root.bodies.len() >= 1,
        cells_upto(ps, root, depth)[0] == root,
    decreases depth,
{
    if depth > 0 {
        if cells_upto(ps, root, (depth - 1) as nat).len() > 0 {
            lemma_first_cell(ps, root, (depth - 1) as nat);
        } else {
            lemma_no_cells(ps, root, (depth - 1) as nat, depth);
        }
    }
}

/// A tree without a cell at the top has none anywhere.
proof fn lemma_no_cells(ps: Seq<Particle>, root: Cell, depth: nat, below: nat)
    requires
        cells_upto(ps, root, depth).len() == 0,
    ensures
        cells_upto(ps, root, below).len() == 0,
{
    lemma_cells_upto_grows(ps, root, 0, depth);
    assert(complete_at(ps, root, 0));
    lemma_complete_bounds(ps, root, 0, below);
}

/// The bodies in the octants below `k` around `center`, as a multiset.
pub open spec fn bucket_union(
    ps: Seq<Particle>,
    center: Seq<i64>,
    bodies: Seq<usize>,
    k: int,
) -> Multiset<usize>
    decreases k,
{
    if k <= 0 {
        Multiset::empty()
    } else {
        bucket_union(ps, center, bodies, k - 1).add(
            bucket_of(ps, center, bodies, k - 1).to_multiset(),
        )
    }
}

/// A sequence without items has the empty multiset.
proof fn lemma_empty_multiset(s: Seq<usize>)
    requires
        s.len() == 0,
    ensures
        s.to_multiset() == Multiset::<usize>::empty(),
{
    vstd::seq_lib::to_multiset_len(s);
    vstd::multiset::lemma_multiset_empty_len(s.to_multiset());
    assert(s.to_multiset() =~= Multiset::<usize>::empty());
}

proof fn lemma_bucket_union_empty(ps: Seq<Particle>, center: Seq<i64>, bodies: Seq<usize>, k: int)
    requires
        bodies.len() == 0,
        0 <= k <= 8,
    ensures
        bucket_union(ps, center, bodies, k) == Multiset::<usize>::empty(),
    decreases k,
{
    broadcast use vstd::multiset::group_multiset_axioms;

    if k > 0 {
        lemma_bucket_union_empty(ps, center, bodies, k - 1);
        bodies.lemma_filter_len(in_octant(ps, center, k - 1));
        let b = bucket_of(ps, center, bodies, k - 1);
        lemma_empty_multiset(b);
        assert(bucket_union(ps, center, bodies, k) =~= Multiset::<usize>::empty());
    }
}

proof fn lemma_bucket_union_push(
    ps: Seq<Particle>,
    center: Seq<i64>,
    rest: Seq<usize>,
    x: usize,
    k: int,
)
    requires
        0 <= k <= 8,
    ensures
        bucket_union(ps, center, rest.push(x), k) == (if octant_of(center, ps[x as int].position)
            < k {
            bucket_union(ps, center, rest, k).insert(x)
        } else {
            bucket_union(ps, center, rest, k)
        }),
    decreases k,
{
    broadcast use vstd::multiset::group_multiset_axioms;

    lemma_octant_bits(center, ps[x as int].position, 0);
    if k > 0 {
        lemma_bucket_union_push(ps, center, rest, x, k - 1);
        rest.lemma_filter_push(x, in_octant(ps, center, k - 1));
        let old_bucket = bucket_of(ps, center, rest, k - 1);
        if octant_of(center, ps[x as int].position) == k - 1 {
            vstd::seq_lib::to_multiset_build(old_bucket, x);
        }
        let lhs = bucket_union(ps, center, rest.push(x), k);
        let rhs = if octant_of(center, ps[x as int].position) < k {
            bucket_union(ps, center, rest, k).insert(x)
        } else {
            bucket_union(ps, center, rest, k)
        };
        assert(lhs =~= rhs);
    }
}

/// The octants of a cube hold, between them, exactly the bodies of the cube.
pub proof fn lemma_buckets_partition(ps: Seq<Particle>, center: Seq<i64>, bodies: Seq<usize>)
    ensures
        bucket_union(ps, center, bodies, 8) == bodies.to_multiset(),
    decreases bodies.len(),
{
    broadcast use vstd::multiset::group_multiset_axioms;

    if bodies.len() == 0 {
        lemma_bucket_union_empty(ps, center, bodies, 8);
        lemma_empty_multiset(bodies);
    } else {
        let rest = bodies.drop_last();
        let x = bodies.last();
        assert(bodies =~= rest.push(x));
        lemma_buckets_partition(ps, center, rest);
        lemma_bucket_union_push(ps, center, rest, x, 8);
        lemma_octant_bits(center, ps[x as int].position, 0);
        vstd::seq_lib::to_multiset_build(rest, x);
    }
}

/// The traversal below a node of an octree meets exactly the bodies of the
/// node's cell.
pub proof fn lemma_order_is_cell(
    ps: Seq<Particle>,
    nodes: Seq<OctantNode>,
    cells: Seq<Cell>,
    i: int,
)
    requires
        is_octree(ps, nodes, cells),
        0 <= i < nodes.len(),
    ensures
        leaf_order(nodes, i).to_multiset() == cells[i].bodies.to_multiset(),
    decreases nodes.len() - i, 9int,
{
    broadcast use vstd::multiset::group_multiset_axioms;

    lemma_octree_node(ps, nodes, cells, i);
    if nodes[i].bodies == 1 {
        assert(leaf_matches(ps, nodes[i], cells[i]));
        assert(leaf_order(nodes, i) =~= cells[i].bodies);
    } else {
        lemma_order_below_is_buckets(ps, nodes, cells, i, 8);
        lemma_buckets_partition(ps, cells[i].center, cells[i].bodies);
    }
}

proof fn lemma_order_below_is_buckets(
    ps: Seq<Particle>,
    nodes: Seq<OctantNode>,
    cells: Seq<Cell>,
    i: int,
    k: int,
)
    requires
        is_octree(ps, nodes, cells),
        0 <= i < nodes.len(),
        cells[i].bodies.len() >= 2,
        0 <= k <= 8,
    ensures
        order_below(nodes, i, k).to_multiset() == bucket_union(
            ps,
            cells[i].center,
            cells[i].bodies,
            k,
        ),
    decreases nodes.len() - i, k,
{
    broadcast use vstd::multiset::group_multiset_axioms;

    if k > 0 {
        lemma_order_below_is_buckets(ps, nodes, cells, i, k - 1);
        lemma_octree_node(ps, nodes, cells, i);
        assert(inner_matches(ps, nodes[i], cells[i]));
        let before = order_below(nodes, i, k - 1);
        match child_at(nodes, i, k - 1) {
            Some(c) => {
                assert(nodes[i].children@[k - 1] == Some(c as usize));
                assert(cells[c] == child_cell(ps, cells[i], k - 1));
                lemma_order_is_cell(ps, nodes, cells, c);
                assert(order_below(nodes, i, k) == before + leaf_order(nodes, c));
                vstd::seq_lib::lemma_multiset_commutative(before, leaf_order(nodes, c));
            },
            None => {
                assert(nodes[i].children@[k - 1] is None) by {
                    if nodes[i].children@[k - 1] is Some {
                        assert(links_match(ps, nodes, cells, i));
                    }
                }
                let b = bucket(ps, cells[i], k - 1);
                lemma_empty_multiset(b);
                assert(order_below(nodes, i, k) =~= before);
                assert(bucket_union(ps, cells[i].center, cells[i].bodies, k) =~= bucket_union(
                    ps,
                    cells[i].center,
                    cells[i].bodies,
                    k - 1,
                ));
            },
        }
    } else {
        lemma_empty_multiset(order_below(nodes, i, k));
    }
}

/// Two ways of picking bodies that pick each body equally often pick the
/// same multiset of bodies.
pub proof fn lemma_arranged_multiset<T>(src: Seq<T>, a: Seq<usize>, b: Seq<usize>)
    requires
        a.to_multiset() == b.to_multiset(),
    ensures
        arranged(src, a).to_multiset() == arranged(src, b).to_multiset(),
    decreases a.len(),
{
    broadcast use vstd::multiset::group_multiset_axioms;

    vstd::seq_lib::to_multiset_len(a);
    vstd::seq_lib::to_multiset_len(b);
    if a.len() == 0 {
        assert(arranged(src, a) =~= arranged(src, b));
    } else {
        let x = a.last();
        let a1 = a.drop_last();
        assert(a =~= a1.push(x));
        vstd::seq_lib::to_multiset_build(a1, x);
        vstd::seq_lib::to_multiset_contains(b, x);
        assert(b.to_multiset().count(x) > 0);
        let j = choose|j: int| 0 <= j < b.len() && b[j] == x;
        let b1 = b.remove(j);
        vstd::seq_lib::to_multiset_remove(b, j);
        assert(a1.to_multiset() =~= a.to_multiset().remove(x));
        assert(a1.to_multiset() == b1.to_multiset());
        lemma_arranged_multiset(src, a1, b1);
        let ra = arranged(src, a);
        let rb = arranged(src, b);
        assert(ra =~= arranged(src, a1).push(src[x as int]));
        vstd::seq_lib::to_multiset_build(arranged(src, a1), src[x as int]);
        assert(rb.remove(j) =~= arranged(src, b1));
        vstd::seq_lib::to_multiset_remove(rb, j);
        vstd::seq_lib::to_multiset_contains(rb, src[x as int]);
        assert(rb[j] == src[x as int]);
        assert(rb.contains(src[x as int]));
        assert(rb.to_multiset() =~= arranged(src, b1).to_multiset().insert(src[x as int]));
    }
}

/// The sorted bodies of an octree are the given bodies in another order: the
/// traversal of the tree meets every body exactly once.
pub proof fn lemma_sorted_is_permutation<T>(
    ps: Seq<Particle>,
    src: Seq<T>,
    root: Cell,
    nodes: Seq<OctantNode>,
    depth: nat,
)
    requires
        ps.len() <= usize::MAX,
        src.len() == ps.len(),
        root.bodies == root_cell(root.center, root.width, ps.len()).bodies,
        is_octree(ps, nodes, cells_upto(ps, root, depth)),
    ensures
        arranged(src, leaf_order(nodes, 0)).to_multiset() == src.to_multiset(),
        arranged(src, leaf_order(nodes, 0)).len() == src.len(),
        ps.len() > 0 ==> nodes.len() > 0,
{
    let all = root.bodies;
    let order = leaf_order(nodes, 0);
    if ps.len() > 0 {
        lemma_cells_upto_grows(ps, root, 0, depth);
    }
    if nodes.len() > 0 {
        lemma_first_cell(ps, root, depth);
        lemma_order_is_cell(ps, nodes, cells_upto(ps, root, depth), 0);
    } else {
        assert(order =~= all);
    }
    lemma_arranged_multiset(src, order, all);
    assert(arranged(src, all) =~= src);
    vstd::seq_lib::to_multiset_len(order);
    vstd::seq_lib::to_multiset_len(all);
}

/// The sum of the masses of the first `n` bodies.
pub open spec fn mass_upto(ps: Seq<Particle>, n: nat) -> int
    decreases n,
{
    if n == 0 {
        0
    } else {
        mass_upto(ps, (n - 1) as nat) + ps[n - 1].mass
    }
}

/// The sum of the masses of all bodies.
pub open spec fn mass_sum(ps: Seq<Particle>) -> int {
    mass_upto(ps, ps.len())
}

proof fn lemma_total_mass_of_first(ps: Seq<Particle>, n: nat)
    requires
        n <= ps.len() <= usize::MAX,
    ensures
        total_mass(ps, Seq::new(n, |i: int| i as usize)) == mass_upto(ps, n),
    decreases n,
{
    if n > 0 {
        let all = Seq::new(n, |i: int| i as usize);
        let fewer = Seq::new((n - 1) as nat, |i: int| i as usize);
        assert(all.drop_last() =~= fewer);
        lemma_total_mass_of_first(ps, (n - 1) as nat);
    }
}

/// Mass is conserved: the root of an octree over all bodies holds the sum
/// of their masses.
pub proof fn lemma_mass_conservation(
    ps: Seq<Particle>,
    root: Cell,
    nodes: Seq<OctantNode>,
    depth: nat,
)
    requires
        0 < ps.len() <= usize::MAX,
        root.bodies == root_cell(root.center, root.width, ps.len()).bodies,
        is_octree(ps, nodes, cells_upto(ps, root, depth)),
        nodes.len() > 0,
    ensures
        nodes[0].mass == mass_sum(ps),
        nodes[0].bodies == ps.len(),
{
    let cells = cells_upto(ps, root, depth);
    lemma_first_cell(ps, root, depth);
    lemma_octree_node(ps, nodes, cells, 0);
    lemma_total_mass_of_first(ps, ps.len());
    if ps.len() == 1 {
        assert(leaf_matches(ps, nodes[0], root));
        assert(root.bodies.drop_last() =~= Seq::<usize>::empty());
        assert(total_mass(ps, root.bodies) == ps[0].mass) by {
            assert(total_mass(ps, root.bodies.drop_last()) == 0);
        }
    } else {
        assert(inner_matches(ps, nodes[0], root));
    }
}

/// A leaf of an octree stands for the one body of its cell: it names the
/// body and holds its position and its mass.
pub proof fn lemma_leaf_is_body(
    ps: Seq<Particle>,
    nodes: Seq<OctantNode>,
    cells: Seq<Cell>,
    i: int,
)
    requires
        is_octree(ps, nodes, cells),
        0 <= i < nodes.len(),
        nodes[i].bodies == 1,
    ensures
        cells[i].bodies == seq![nodes[i].one_body],
        nodes[i].cog == ps[nodes[i].one_body as int].position,
        nodes[i].mass == ps[nodes[i].one_body as int].mass,
        forall|k: int| 0 <= k < 8 ==> #[trigger] nodes[i].children@[k] is None,
{
    lemma_octree_node(ps, nodes, cells, i);
    assert(leaf_matches(ps, nodes[i], cells[i]));
    assert(cells[i].bodies =~= seq![nodes[i].one_body]);
}

/// A node of an octree with several bodies holds their number, the sum of
/// their masses and their centre of gravity.
pub proof fn lemma_inner_is_sum(
    ps: Seq<Particle>,
    nodes: Seq<OctantNode>,
    cells: Seq<Cell>,
    i: int,
    axis: int,
)
    requires
        is_octree(ps, nodes, cells),
        0 <= i < nodes.len(),
        nodes[i].bodies != 1,
        0 <= axis < 3,
    ensures
        nodes[i].bodies == cells[i].bodies.len(),
        nodes[i].mass == total_mass(ps, cells[i].bodies),
        nodes[i].cog@[axis] == crate::body::center_of_gravity(ps, cells[i].bodies, axis),
{
    lemma_octree_node(ps, nodes, cells, i);
    assert(inner_matches(ps, nodes[i], cells[i]));
}

/// The sum of the masses of the bodies in the octants below `k`.
pub open spec fn bucket_mass(ps: Seq<Particle>, center: Seq<i64>, bodies: Seq<usize>, k: int) -> int
    decreases k,
{
    if k <= 0 {
        0
    } else {
        bucket_mass(ps, center, bodies, k - 1) + total_mass(
            ps,
            bucket_of(ps, center, bodies, k - 1),
        )
    }
}

proof fn lemma_bucket_mass_push(
    ps: Seq<Particle>,
    center: Seq<i64>,
    rest: Seq<usize>,
    x: usize,
    k: int,
)
    requires
        0 <= k <= 8,
    ensures
        bucket_mass(ps, center, rest.push(x), k) == bucket_mass(ps, center, rest, k) + (if octant_of(
            center,
            ps[x as int].position,
        ) < k {
            ps[x as int].mass as int
        } else {
            0
        }),
    decreases k,
{
    lemma_octant_bits(center, ps[x as int].position, 0);
    if k > 0 {
        lemma_bucket_mass_push(ps, center, rest, x, k - 1);
        rest.lemma_filter_push(x, in_octant(ps, center, k - 1));
        let b = bucket_of(ps, center, rest, k - 1);
        assert(b.push(x).drop_last() =~= b);
    }
}

proof fn lemma_bucket_mass_empty(ps: Seq<Particle>, center: Seq<i64>, bodies: Seq<usize>, k: int)
    requires
        bodies.len() == 0,
        0 <= k <= 8,
    ensures
        bucket_mass(ps, center, bodies, k) == 0,
    decreases k,
{
    if k > 0 {
        lemma_bucket_mass_empty(ps, center, bodies, k - 1);
        bodies.lemma_filter_len(in_octant(ps, center, k - 1));
    }
}

/// The masses in the octants of a cube add up to the mass in the cube.
pub proof fn lemma_bucket_masses_add_up(ps: Seq<Particle>, center: Seq<i64>, bodies: Seq<usize>)
    ensures
        bucket_mass(ps, center, bodies, 8) == total_mass(ps, bodies),
    decreases bodies.len(),
{
    if bodies.len() == 0 {
        lemma_bucket_mass_empty(ps, center, bodies, 8);
    } else {
        let rest = bodies.drop_last();
        let x = bodies.last();
        assert(bodies =~= rest.push(x));
        lemma_bucket_masses_add_up(ps, center, rest);
        lemma_bucket_mass_push(ps, center, rest, x, 8);
        lemma_octant_bits(center, ps[x as int].position, 0);
    }
}

/// The sum of the masses that the children in the octants below `k` of node
/// `i` hold.
pub open spec fn children_mass(nodes: Seq<OctantNode>, i: int, k: int) -> int
    decreases k,
{
    if k <= 0 {
        0
    } else {
        children_mass(nodes, i, k - 1) + (match child_at(nodes, i, k - 1) {
            Some(c) => nodes[c].mass as int,
            None => 0,
        })
    }
}

proof fn lemma_children_mass_buckets(
    ps: Seq<Particle>,
    nodes: Seq<OctantNode>,
    cells: Seq<Cell>,
    i: int,
    k: int,
)
    requires
        is_octree(ps, nodes, cells),
        0 <= i < nodes.len(),
        cells[i].bodies.len() >= 2,
        0 <= k <= 8,
    ensures
        children_mass(nodes, i, k) == bucket_mass(ps, cells[i].center, cells[i].bodies, k),
    decreases k,
{
    if k > 0 {
        lemma_children_mass_buckets(ps, nodes, cells, i, k - 1);
        lemma_octree_node(ps, nodes, cells, i);
        assert(inner_matches(ps, nodes[i], cells[i]));
        let b = bucket(ps, cells[i], k - 1);
        match nodes[i].children@[k - 1] {
            Some(c) => {
                assert(child_at(nodes, i, k - 1) == Some(c as int));
                lemma_octree_node(ps, nodes, cells, c as int);
                assert(cells[c as int] == child_cell(ps, cells[i], k - 1));
                if b.len() == 1 {
                    assert(leaf_matches(ps, nodes[c as int], cells[c as int]));
                    assert(b.drop_last() =~= Seq::<usize>::empty());
                    assert(total_mass(ps, b) == ps[b[0] as int].mass) by {
                        assert(total_mass(ps, b.drop_last()) == 0);
                    }
                } else {
                    assert(inner_matches(ps, nodes[c as int], cells[c as int]));
                }
            },
            None => {
                assert(b.len() == 0);
            },
        }
    }
}

/// A node of an octree with several bodies holds the sum of the masses that
/// its children hold.
pub proof fn lemma_mass_of_children(
    ps: Seq<Particle>,
    nodes: Seq<OctantNode>,
    cells: Seq<Cell>,
    i: int,
)
    requires
        is_octree(ps, nodes, cells),
        0 <= i < nodes.len(),
        nodes[i].bodies != 1,
    ensures
        nodes[i].mass == children_mass(nodes, i, 8),
{
    lemma_octree_node(ps, nodes, cells, i);
    assert(inner_matches(ps, nodes[i], cells[i]));
    lemma_children_mass_buckets(ps, nodes, cells, i, 8);
    lemma_bucket_masses_add_up(ps, cells[i].center, cells[i].bodies);
}

/// The slot that a walk from node `i` along the octants of `path` ends at,
/// if each step finds a child.
pub open spec fn descend(nodes: Seq<OctantNode>, i: int, path: Seq<int>) -> Option<int>
    decreases path.len(),
{
    if path.len() == 0 {
        if 0 <= i < nodes.len() {
            Some(i)
        } else {
            None
        }
    } else {
        match descend(nodes, i, path.drop_last()) {
            Some(p) => if nodes[p].bodies != 1 && 0 <= path.last() < 8 {
                child_at(nodes, p, path.last())
            } else {
                None
            },
            None => None,
        }
    }
}

/// Where, among the sorted bodies below node `i`, the bodies of the node at
/// the end of `path` begin.
pub open spec fn block_start(nodes: Seq<OctantNode>, i: int, path: Seq<int>) -> int
    decreases path.len(),
{
    if path.len() == 0 {
        0
    } else {
        block_start(nodes, i, path.drop_last()) + (match descend(nodes, i, path.drop_last()) {
            Some(p) => bodies_below(nodes, p, path.last()) as int,
            None => 0,
        })
    }
}

proof fn lemma_order_below_prefix(nodes: Seq<OctantNode>, n_bodies: nat, i: int, k: int, upto: int)
    requires
        wf_tree(nodes, n_bodies),
        0 <= i < nodes.len(),
        0 <= k <= upto <= 8,
    ensures
        bodies_below(nodes, i, k) <= bodies_below(nodes, i, upto),
        order_below(nodes, i, upto).len() == bodies_below(nodes, i, upto),
        order_below(nodes, i, upto).take(bodies_below(nodes, i, k) as int) == order_below(
            nodes,
            i,
            k,
        ),
    decreases upto - k,
{
    crate::tree::lemma_order_below(nodes, n_bodies, i, upto);
    crate::tree::lemma_order_below(nodes, n_bodies, i, k);
    if k < upto {
        lemma_order_below_prefix(nodes, n_bodies, i, k, upto - 1);
        crate::tree::lemma_order_below(nodes, n_bodies, i, upto - 1);
        assert(order_below(nodes, i, upto).take(bodies_below(nodes, i, k) as int) =~= order_below(
            nodes,
            i,
            upto - 1,
        ).take(bodies_below(nodes, i, k) as int));
    } else {
        assert(order_below(nodes, i, upto).take(bodies_below(nodes, i, k) as int) =~= order_below(
            nodes,
            i,
            k,
        ));
    }
}

/// Locality: among the sorted bodies below a node, the bodies below any node
/// of its subtree stand side by side, as many as that node has.
pub proof fn lemma_subtree_contiguous(
    nodes: Seq<OctantNode>,
    n_bodies: nat,
    i: int,
    path: Seq<int>,
)
    requires
        wf_tree(nodes, n_bodies),
        descend(nodes, i, path) is Some,
    ensures
        0 <= block_start(nodes, i, path),
        block_start(nodes, i, path) + nodes[descend(nodes, i, path).unwrap()].bodies
            <= nodes[i].bodies,
        leaf_order(nodes, i).subrange(
            block_start(nodes, i, path),
            block_start(nodes, i, path) + nodes[descend(nodes, i, path).unwrap()].bodies,
        ) == leaf_order(nodes, descend(nodes, i, path).unwrap()),
    decreases path.len(),
{
    let t = descend(nodes, i, path).unwrap();
    if path.len() == 0 {
        crate::tree::lemma_leaf_order(nodes, n_bodies, i);
        assert(leaf_order(nodes, i).subrange(0, nodes[i].bodies as int) =~= leaf_order(nodes, i));
    } else {
        let up = path.drop_last();
        let k = path.last();
        let p = descend(nodes, i, up).unwrap();
        lemma_subtree_contiguous(nodes, n_bodies, i, up);
        lemma_descend_range(nodes, i, up);
        assert(wf_node(nodes, p, n_bodies));
        assert(child_at(nodes, p, k) == Some(t));
        let s = block_start(nodes, i, up);
        let whole = leaf_order(nodes, i);
        let at_p = leaf_order(nodes, p);
        assert(at_p == order_below(nodes, p, 8));
        lemma_order_below_prefix(nodes, n_bodies, p, k, 8);
        lemma_order_below_prefix(nodes, n_bodies, p, k + 1, 8);
        crate::tree::lemma_order_below(nodes, n_bodies, p, k);
        crate::tree::lemma_leaf_order(nodes, n_bodies, t);
        crate::tree::lemma_leaf_order(nodes, n_bodies, p);
        let a = bodies_below(nodes, p, k) as int;
        let b = bodies_below(nodes, p, k + 1) as int;
        lemma_descend_root(nodes, i, path);
        crate::tree::lemma_leaf_order(nodes, n_bodies, i);
        assert(bodies_below(nodes, p, 8) == nodes[p].bodies);
        assert(b <= nodes[p].bodies);
        assert(b == a + nodes[t].bodies);
        assert(order_below(nodes, p, k + 1) == order_below(nodes, p, k) + leaf_order(nodes, t));
        assert(at_p.subrange(a, b) =~= at_p.take(b).subrange(a, b));
        assert(at_p.take(b).subrange(a, b) =~= leaf_order(nodes, t));
        assert(whole.subrange(s + a, s + b) =~= whole.subrange(s, s + nodes[p].bodies).subrange(
            a,
            b,
        ));
    }
}

/// A walk that ends at a node began at one.
pub proof fn lemma_descend_root(nodes: Seq<OctantNode>, i: int, path: Seq<int>)
    requires
        descend(nodes, i, path) is Some,
    ensures
        0 <= i < nodes.len(),
    decreases path.len(),
{
    if path.len() > 0 {
        lemma_descend_root(nodes, i, path.drop_last());
    }
}

/// A walk that ends at a node ends inside the array.
pub proof fn lemma_descend_range(nodes: Seq<OctantNode>, i: int, path: Seq<int>)
    requires
        descend(nodes, i, path) is Some,
    ensures
        0 <= descend(nodes, i, path).unwrap() < nodes.len(),
        path.len() > 0 ==> descend(nodes, i, path.drop_last()) is Some && nodes[descend(
            nodes,
            i,
            path.drop_last(),
        ).unwrap()].bodies != 1 && 0 <= path.last() < 8,
    decreases path.len(),
{
    if path.len() > 0 {
        lemma_descend_range(nodes, i, path.drop_last());
    }
}

/// Among the sorted bodies below a node, the bodies below any node of its
/// subtree are the bodies that sorting that subtree alone would give, side
/// by side.
pub proof fn lemma_sorted_subtree<T>(
    nodes: Seq<OctantNode>,
    src: Seq<T>,
    i: int,
    path: Seq<int>,
)
    requires
        wf_tree(nodes, src.len()),
        descend(nodes, i, path) is Some,
    ensures
        arranged(src, leaf_order(nodes, i)).subrange(
            block_start(nodes, i, path),
            block_start(nodes, i, path) + nodes[descend(nodes, i, path).unwrap()].bodies,
        ) == arranged(src, leaf_order(nodes, descend(nodes, i, path).unwrap())),
{
    let t = descend(nodes, i, path).unwrap();
    lemma_subtree_contiguous(nodes, src.len(), i, path);
    lemma_descend_root(nodes, i, path);
    lemma_descend_range(nodes, i, path);
    crate::tree::lemma_leaf_order(nodes, src.len(), i);
    crate::tree::lemma_leaf_order(nodes, src.len(), t);
    let s = block_start(nodes, i, path);
    let whole = leaf_order(nodes, i);
    let part = leaf_order(nodes, t);
    assert forall|j: int| 0 <= j < part.len() implies whole[s + j] == part[j] by {
        assert(whole.subrange(s, s + nodes[t].bodies)[j] == part[j]);
    }
    assert(arranged(src, whole).subrange(s, s + nodes[t].bodies) =~= arranged(src, part));
}

/// Without bodies the tree has no cells, and so no nodes.
pub proof fn lemma_no_bodies(ps: Seq<Particle>, root: Cell, nodes: Seq<OctantNode>, depth: nat)
    requires
        root.bodies.len() == 0,
        is_octree(ps, nodes, cells_upto(ps, root, depth)),
    ensures
        nodes.len() == 0,
{
    assert(cells_upto(ps, root, 0).len() == 0);
    lemma_no_cells(ps, root, 0, depth);
}

/// The tree of a single body is a single leaf that stands for the body.
pub proof fn lemma_single_body(ps: Seq<Particle>, root: Cell, nodes: Seq<OctantNode>, depth: nat)
    requires
        root.bodies == seq![0usize],
        is_octree(ps, nodes, cells_upto(ps, root, depth)),
    ensures
        nodes.len() == 1,
        nodes[0].bodies == 1,
        nodes[0].one_body == 0,
        nodes[0].cog == ps[0].position,
        nodes[0].mass == ps[0].mass,
        forall|k: int| 0 <= k < 8 ==> #[trigger] nodes[0].children@[k] is None,
{
    crate::octree::lemma_lone_cell(ps, root);
    lemma_complete_bounds(ps, root, 1, depth);
    lemma_cells_upto_grows(ps, root, 0, depth);
    lemma_first_cell(ps, root, depth);
    lemma_octree_node(ps, nodes, cells_upto(ps, root, depth), 0);
    assert(leaf_matches(ps, nodes[0], root));
}

} // verus!
