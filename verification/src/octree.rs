//! What the octree of a set of bodies is: the cells it divides space into,
//! level by level, and what each node says of its cell.

use crate::body::{center_of_gravity, total_mass, Particle};
use crate::node::OctantNode;
use crate::octant::{child_center, octant_of};
use vstd::prelude::*;

verus! {

/// A cube of space together with the bodies that were sorted into it.
pub struct Cell {
    pub center: Seq<i64>,
    pub width: i64,
    /// Indices of the bodies, in the order of the input.
    pub bodies: Seq<usize>,
}

/// Holds of the bodies that lie in octant `k` around `center`.
pub open spec fn in_octant(ps: Seq<Particle>, center: Seq<i64>, k: int) -> spec_fn(usize) -> bool {
    |b: usize| octant_of(center, ps[b as int].position) == k
}

/// Those of `bodies` that lie in octant `k` around `center`, in order.
pub open spec fn bucket_of(ps: Seq<Particle>, center: Seq<i64>, bodies: Seq<usize>, k: int) -> Seq<
    usize,
> {
    bodies.filter(in_octant(ps, center, k))
}

/// The bodies of a cell that lie in its octant `k`.
pub open spec fn bucket(ps: Seq<Particle>, cell: Cell, k: int) -> Seq<usize> {
    bucket_of(ps, cell.center, cell.bodies, k)
}

/// Octant `k` of a cell: half as wide, centred a quarter of the width away
/// along each axis, holding the bodies of that octant.
pub open spec fn child_cell(ps: Seq<Particle>, cell: Cell, k: int) -> Cell {
    Cell {
        center: child_center(cell.center, cell.width, k),
        width: (cell.width / 2) as i64,
        bodies: bucket(ps, cell, k),
    }
}

/// The octants below `k` of a cell that hold a body, in octant order.
pub open spec fn children_upto(ps: Seq<Particle>, cell: Cell, k: int) -> Seq<Cell>
    decreases k,
{
    if k <= 0 {
        Seq::empty()
    } else if bucket(ps, cell, k - 1).len() > 0 {
        children_upto(ps, cell, k - 1).push(child_cell(ps, cell, k - 1))
    } else {
        children_upto(ps, cell, k - 1)
    }
}

/// The cells directly below a cell in the tree: none for a cell with a
/// single body, else its octants that hold a body.
pub open spec fn children_cells(ps: Seq<Particle>, cell: Cell) -> Seq<Cell> {
    if cell.bodies.len() >= 2 {
        children_upto(ps, cell, 8)
    } else {
        Seq::empty()
    }
}

/// The cells directly below the given cells, in order.
pub open spec fn expand(ps: Seq<Particle>, cells: Seq<Cell>) -> Seq<Cell>
    decreases cells.len(),
{
    if cells.len() == 0 {
        Seq::empty()
    } else {
        expand(ps, cells.drop_last()) + children_cells(ps, cells.last())
    }
}

/// The cells of the tree at the given depth below `root`, in order. A root
/// without bodies has no cells at all.
pub open spec fn level(ps: Seq<Particle>, root: Cell, depth: nat) -> Seq<Cell>
    decreases depth,
{
    if depth == 0 {
        if root.bodies.len() >= 1 {
            seq![root]
        } else {
            Seq::empty()
        }
    } else {
        expand(ps, level(ps, root, (depth - 1) as nat))
    }
}

/// The cells of the tree down to the given depth, level after level.
pub open spec fn cells_upto(ps: Seq<Particle>, root: Cell, depth: nat) -> Seq<Cell>
    decreases depth,
{
    if depth == 0 {
        level(ps, root, 0)
    } else {
        cells_upto(ps, root, (depth - 1) as nat) + level(ps, root, depth)
    }
}

/// The root cell that holds all `n` bodies.
pub open spec fn root_cell(center: Seq<i64>, width: i64, n: nat) -> Cell {
    Cell { center, width, bodies: Seq::new(n, |i: int| i as usize) }
}

/// Whether the cell names only bodies that exist, and no more of them than
/// there are.
pub open spec fn valid_bodies(bodies: Seq<usize>, n: nat) -> bool {
    &&& bodies.len() <= n
    &&& forall|j: int| 0 <= j < bodies.len() ==> #[trigger] bodies[j] < n
}

/// Whether `node` is the leaf of a cell with one body: it names the body and
/// repeats its position and mass.
pub open spec fn leaf_matches(ps: Seq<Particle>, node: OctantNode, cell: Cell) -> bool {
    &&& node.one_body == cell.bodies[0]
    &&& node.cog == ps[cell.bodies[0] as int].position
    &&& node.mass == ps[cell.bodies[0] as int].mass
    &&& forall|k: int| 0 <= k < 8 ==> #[trigger] node.children@[k] is None
}

/// Whether `node` sums up a cell with several bodies: their total mass,
/// their centre of gravity, and a child in exactly the octants that hold a
/// body.
pub open spec fn inner_matches(ps: Seq<Particle>, node: OctantNode, cell: Cell) -> bool {
    &&& node.one_body == 0
    &&& node.mass == total_mass(ps, cell.bodies)
    &&& forall|axis: int|
        0 <= axis < 3 ==> #[trigger] node.cog@[axis] == center_of_gravity(ps, cell.bodies, axis)
    &&& forall|k: int|
        0 <= k < 8 ==> (#[trigger] node.children@[k] is None <==> bucket(ps, cell, k).len() == 0)
}

/// Whether `node` describes `cell`.
pub open spec fn node_matches(ps: Seq<Particle>, node: OctantNode, cell: Cell) -> bool {
    &&& cell.bodies.len() >= 1
    &&& node.bodies == cell.bodies.len()
    &&& if cell.bodies.len() == 1 {
        leaf_matches(ps, node, cell)
    } else {
        inner_matches(ps, node, cell)
    }
}

/// Whether each child that node `i` names stands later in the array and
/// describes the matching octant of the node's cell.
pub open spec fn links_match(
    ps: Seq<Particle>,
    nodes: Seq<OctantNode>,
    cells: Seq<Cell>,
    i: int,
) -> bool {
    forall|k: int|
        0 <= k < 8 ==> (#[trigger] nodes[i].children@[k] matches Some(c) ==> i < c < nodes.len()
            && cells[c as int] == child_cell(ps, cells[i], k))
}

/// Whether `nodes` is the tree over the cells `cells`: node for node the
/// description of its cell, linked to the nodes of the cells below it.
pub open spec fn is_octree(ps: Seq<Particle>, nodes: Seq<OctantNode>, cells: Seq<Cell>) -> bool {
    &&& nodes.len() == cells.len()
    &&& forall|i: int|
        0 <= i < nodes.len() ==> #[trigger] node_matches(ps, nodes[i], cells[i]) && links_match(
            ps,
            nodes,
            cells,
            i,
        )
}

/// Whether the child links grow with the node and the octant that hold them:
/// the children of an earlier node stand before those of a later one, and
/// the children of one node stand in the order of their octants.
pub open spec fn links_ordered(nodes: Seq<OctantNode>) -> bool {
    forall|i: int, k: int, j: int, m: int|
        0 <= i <= j < nodes.len() && 0 <= k < 8 && 0 <= m < 8 && (i < j || k < m)
            && #[trigger] nodes[i].children@[k] is Some && #[trigger] nodes[j].children@[m] is Some
            ==> nodes[i].children@[k].unwrap() < nodes[j].children@[m].unwrap()
}

/// Whether no node has its subtree counted yet.
pub open spec fn uncounted(nodes: Seq<OctantNode>) -> bool {
    forall|i: int| 0 <= i < nodes.len() ==> (#[trigger] nodes[i]).node_count == 0
}

/// Whether the tree below `root` has no cell at depth `depth`, so that it is
/// complete above it.
pub open spec fn complete_at(ps: Seq<Particle>, root: Cell, depth: nat) -> bool {
    level(ps, root, depth).len() == 0
}

/// Whether the tree below `root` has more than `limit` cells.
pub open spec fn exceeds(ps: Seq<Particle>, root: Cell, limit: nat) -> bool {
    exists|depth: nat| #[trigger] cells_upto(ps, root, depth).len() > limit
}

/// Expanding one cell more adds that cell's children at the end.
pub proof fn lemma_expand_step(ps: Seq<Particle>, cells: Seq<Cell>, j: int)
    requires
        0 <= j < cells.len(),
    ensures
        expand(ps, cells.take(j + 1)) == expand(ps, cells.take(j)) + children_cells(ps, cells[j]),
{
    assert(cells.take(j + 1).drop_last() =~= cells.take(j));
}

/// Cells with a single body add nothing when expanded.
pub proof fn lemma_expand_leaves(ps: Seq<Particle>, cells: Seq<Cell>, a: int, b: int)
    requires
        0 <= a <= b <= cells.len(),
        forall|i: int| a <= i < b ==> (#[trigger] cells[i]).bodies.len() < 2,
    ensures
        expand(ps, cells.take(b)) == expand(ps, cells.take(a)),
    decreases b - a,
{
    if a < b {
        lemma_expand_leaves(ps, cells, a, b - 1);
        lemma_expand_step(ps, cells, b - 1);
        assert(children_cells(ps, cells[b - 1]) =~= Seq::<Cell>::empty());
        assert(expand(ps, cells.take(b - 1)) + Seq::<Cell>::empty() =~= expand(
            ps,
            cells.take(b - 1),
        ));
    }
}

/// Expanding a part of a level gives no more cells than expanding all of it.
pub proof fn lemma_expand_len_monotone(ps: Seq<Particle>, cells: Seq<Cell>, j: int)
    requires
        0 <= j <= cells.len(),
    ensures
        expand(ps, cells.take(j)).len() <= expand(ps, cells).len(),
    decreases cells.len() - j,
{
    if j < cells.len() {
        lemma_expand_len_monotone(ps, cells, j + 1);
        lemma_expand_step(ps, cells, j);
    } else {
        assert(cells.take(j) =~= cells);
    }
}

/// Looking at more octants of a cell never gives fewer children.
pub proof fn lemma_children_upto_len(ps: Seq<Particle>, cell: Cell, k: int)
    requires
        0 <= k <= 8,
    ensures
        children_upto(ps, cell, k).len() <= children_upto(ps, cell, 8).len(),
    decreases 8 - k,
{
    if k < 8 {
        lemma_children_upto_len(ps, cell, k + 1);
    }
}

/// Below a depth at which the tree has no cell it has none either.
pub proof fn lemma_complete_stays(ps: Seq<Particle>, root: Cell, depth: nat, below: nat)
    requires
        complete_at(ps, root, depth),
        depth <= below,
    ensures
        complete_at(ps, root, below),
    decreases below,
{
    if depth < below {
        lemma_complete_stays(ps, root, depth, (below - 1) as nat);
    }
}

/// A tree that is complete at some depth has all its cells above that depth:
/// down to no depth are there more.
pub proof fn lemma_complete_bounds(ps: Seq<Particle>, root: Cell, depth: nat, other: nat)
    requires
        complete_at(ps, root, depth),
    ensures
        cells_upto(ps, root, other).len() <= cells_upto(ps, root, depth).len(),
    decreases depth + other,
{
    if other < depth {
        lemma_cells_upto_grows(ps, root, other, depth);
    } else if other > depth {
        lemma_complete_stays(ps, root, depth, other);
        lemma_complete_bounds(ps, root, depth, (other - 1) as nat);
    }
}

/// The tree down to a greater depth has no fewer cells.
pub proof fn lemma_cells_upto_grows(ps: Seq<Particle>, root: Cell, depth: nat, deeper: nat)
    requires
        depth <= deeper,
    ensures
        cells_upto(ps, root, depth).len() <= cells_upto(ps, root, deeper).len(),
    decreases deeper,
{
    if depth < deeper {
        lemma_cells_upto_grows(ps, root, depth, (deeper - 1) as nat);
    }
}

/// The bodies of an octant are bodies of the cell, and no more than it has.
pub proof fn lemma_bucket_valid(
    ps: Seq<Particle>,
    center: Seq<i64>,
    bodies: Seq<usize>,
    k: int,
    n: nat,
)
    requires
        valid_bodies(bodies, n),
    ensures
        valid_bodies(bucket_of(ps, center, bodies, k), n),
        bucket_of(ps, center, bodies, k).len() <= bodies.len(),
{
    let pred = in_octant(ps, center, k);
    let b = bodies.filter(pred);
    bodies.lemma_filter_len(pred);
    assert forall|j: int| 0 <= j < b.len() implies #[trigger] b[j] < n by {
        assert(b.contains(b[j]));
        bodies.lemma_filter_contains_rev(pred, b[j]);
        let i = choose|i: int| 0 <= i < bodies.len() && bodies[i] == b[j];
        assert(bodies[i] < n);
    }
}

/// The tree below a root with a single body is that root alone.
pub proof fn lemma_lone_cell(ps: Seq<Particle>, root: Cell)
    requires
        root.bodies.len() == 1,
    ensures
        complete_at(ps, root, 1),
        cells_upto(ps, root, 0) == seq![root],
        cells_upto(ps, root, 1) == seq![root],
{
    let first = seq![root];
    assert(level(ps, root, 0) =~= first);
    assert(first.drop_last() =~= Seq::<Cell>::empty());
    assert(expand(ps, Seq::<Cell>::empty()) =~= Seq::<Cell>::empty());
    assert(children_cells(ps, root) =~= Seq::<Cell>::empty());
    assert(expand(ps, first) =~= expand(ps, first.drop_last()) + children_cells(ps, first.last()));
    assert(level(ps, root, 1) == expand(ps, level(ps, root, 0)));
    assert(cells_upto(ps, root, 0) =~= first);
    assert(cells_upto(ps, root, 1) =~= first);
}

} // verus!
