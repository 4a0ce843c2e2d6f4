//! The octree builder: breadth-first, from a queue of partitions, into the
//! slots of an arena.

use crate::body::{center_of_gravity, div_toward_zero, total_mass, weighted_sum, Particle};
use crate::bound::{bounding_estimate, bounding_half_width, root_width};
use crate::index_list::{
    index_list, list_from_range, list_get, list_len, list_push, IndexList,
};
use crate::node::{empty_node, OctantNode};
use crate::octant::{cube_fits, decide_octant, shift_node_center};
use crate::octree::{
    bucket, bucket_of, cells_upto, child_cell, children_cells, children_upto, complete_at, exceeds,
    expand, in_octant, inner_matches, is_octree, leaf_matches, lemma_bucket_valid,
    lemma_children_upto_len, lemma_complete_bounds, lemma_expand_leaves,
    lemma_expand_len_monotone, lemma_expand_step, lemma_lone_cell, level, links_match,
    links_ordered, node_matches, root_cell, uncounted, valid_bodies, Cell,
};
use crate::slice_alloc::{AllocError, Reserve, SliceAlloc};
use std::collections::VecDeque;
use vstd::prelude::*;

verus! {

/// A piece of work for the builder: a cube, the bodies in it, and the slot
/// that its node goes to.
pub struct Partition<'b> {
    pub center: [i64; 3],
    pub width: i64,
    pub octant: Reserve,
    pub particles_ix: IndexList<'b>,
}

impl<'b> Partition<'b> {
    /// The cell that the partition stands for.
    pub open spec fn cell(&self) -> Cell {
        Cell { center: self.center@, width: self.width, bodies: index_list(self.particles_ix) }
    }
}

/// The masses of `bodies` add up to no more than their number times the
/// largest mass.
proof fn lemma_total_mass_bound(ps: Seq<Particle>, bodies: Seq<usize>)
    ensures
        0 <= total_mass(ps, bodies) <= bodies.len() * 0xffff_ffff,
    decreases bodies.len(),
{
    if bodies.len() > 0 {
        lemma_total_mass_bound(ps, bodies.drop_last());
    }
}

/// A mass-weighted sum of coordinates lies between the total mass times the
/// least and times the largest coordinate.
proof fn lemma_weighted_sum_bound(ps: Seq<Particle>, bodies: Seq<usize>, axis: int)
    ensures
        -0x8000_0000 * total_mass(ps, bodies) <= weighted_sum(ps, bodies, axis) <= 0x7fff_ffff
            * total_mass(ps, bodies),
    decreases bodies.len(),
{
    if bodies.len() > 0 {
        lemma_weighted_sum_bound(ps, bodies.drop_last(), axis);
        let m = ps[bodies.last() as int].mass as int;
        let x = ps[bodies.last() as int].position[axis] as int;
        assert(-0x8000_0000 * m <= m * x <= 0x7fff_ffff * m) by (nonlinear_arith)
            requires
                0 <= m,
                -0x8000_0000 <= x <= 0x7fff_ffff,
        ;
    }
}

/// The sums over a partition, and its bodies sorted by octant.
struct Tally<'b> {
    mass: u64,
    moment: [i128; 3],
    buckets: Vec<IndexList<'b>>,
}

/// Goes once through the bodies of a partition: adds up mass and
/// mass-weighted position, and sorts each body into the list of its octant.
fn tally_partition<'b>(
    particle_data: &[Particle],
    center: &[i64; 3],
    list: &IndexList<'_>,
    bump: &'b bumpalo::Bump,
) -> (tally: Tally<'b>)
    requires
        particle_data@.len() <= u32::MAX,
        valid_bodies(index_list(*list), particle_data@.len()),
    ensures
        tally.mass == total_mass(particle_data@, index_list(*list)),
        forall|axis: int|
            0 <= axis < 3 ==> #[trigger] tally.moment@[axis] == weighted_sum(
                particle_data@,
                index_list(*list),
                axis,
            ),
        tally.buckets@.len() == 8,
        forall|k: int|
            0 <= k < 8 ==> index_list(#[trigger] tally.buckets@[k]) == bucket_of(
                particle_data@,
                center@,
                index_list(*list),
                k,
            ),
{
    let ghost ps = particle_data@;
    let ghost bodies = index_list(*list);
    let mut buckets: Vec<IndexList<'b>> = Vec::new();
    let mut k: usize = 0;
    while k < 8
        invariant
            k <= 8,
            buckets@.len() == k,
            forall|j: int| 0 <= j < k ==> index_list(#[trigger] buckets@[j]) == Seq::<usize>::empty(),
        decreases 8 - k,
    {
        let empty = list_from_range(0, 0, bump);
        assert(index_list(empty) =~= Seq::<usize>::empty());
        buckets.push(empty);
        k += 1;
    }
    let mut mass: u64 = 0;
    let mut mx: i128 = 0;
    let mut my: i128 = 0;
    let mut mz: i128 = 0;
    let n = list_len(list);
    let mut i: usize = 0;
    proof {
        reveal(Seq::filter);
        assert(bodies.take(0) =~= Seq::<usize>::empty());
        assert forall|j: int| 0 <= j < 8 implies index_list(#[trigger] buckets@[j]) == bucket_of(
            ps,
            center@,
            bodies.take(0),
            j,
        ) by {}
    }
    while i < n
        invariant
            ps == particle_data@,
            bodies == index_list(*list),
            n == bodies.len(),
            i <= n,
            ps.len() <= u32::MAX,
            valid_bodies(bodies, ps.len()),
            buckets@.len() == 8,
            mass == total_mass(ps, bodies.take(i as int)),
            mx == weighted_sum(ps, bodies.take(i as int), 0),
            my == weighted_sum(ps, bodies.take(i as int), 1),
            mz == weighted_sum(ps, bodies.take(i as int), 2),
            forall|j: int|
                0 <= j < 8 ==> index_list(#[trigger] buckets@[j]) == bucket_of(
                    ps,
                    center@,
                    bodies.take(i as int),
                    j,
                ),
        decreases n - i,
    {
        let ix = list_get(list, i);
        let p = &particle_data[ix];
        let ghost before = bodies.take(i as int);
        let ghost after = bodies.take(i as int + 1);
        proof {
            assert(after.drop_last() =~= before);
            assert(after.last() == ix);
            assert(after =~= before.push(ix));
            lemma_total_mass_bound(ps, before);
            lemma_total_mass_bound(ps, after);
            lemma_weighted_sum_bound(ps, before, 0);
            lemma_weighted_sum_bound(ps, before, 1);
            lemma_weighted_sum_bound(ps, before, 2);
            lemma_weighted_sum_bound(ps, after, 0);
            lemma_weighted_sum_bound(ps, after, 1);
            lemma_weighted_sum_bound(ps, after, 2);
            assert(after.len() * 0xffff_ffff <= 0xffff_ffff * 0xffff_ffff);
            assert(before.len() * 0xffff_ffff <= 0xffff_ffff * 0xffff_ffff);
        }
        mass = mass + p.mass as u64;
        let m = p.mass as i128;
        assert(-0x8000_0000 * m <= m * p.position[0] <= 0x7fff_ffff * m) by (nonlinear_arith)
            requires
                0 <= m,
                -0x8000_0000 <= p.position[0] <= 0x7fff_ffff,
        ;
        assert(-0x8000_0000 * m <= m * p.position[1] <= 0x7fff_ffff * m) by (nonlinear_arith)
            requires
                0 <= m,
                -0x8000_0000 <= p.position[1] <= 0x7fff_ffff,
        ;
        assert(-0x8000_0000 * m <= m * p.position[2] <= 0x7fff_ffff * m) by (nonlinear_arith)
            requires
                0 <= m,
                -0x8000_0000 <= p.position[2] <= 0x7fff_ffff,
        ;
        mx = mx + m * (p.position[0] as i128);
        my = my + m * (p.position[1] as i128);
        mz = mz + m * (p.position[2] as i128);
        let child_ix = decide_octant(center, &p.position);
        list_push(&mut buckets[child_ix], ix);
        proof {
            assert forall|j: int| 0 <= j < 8 implies index_list(#[trigger] buckets@[j])
                == bucket_of(ps, center@, after, j) by {
                before.lemma_filter_push(ix, in_octant(ps, center@, j));
            }
        }
        i += 1;
    }
    proof {
        assert(bodies.take(n as int) =~= bodies);
    }
    let moment = [mx, my, mz];
    Tally { mass, moment, buckets }
}

/// The coordinate of a centre of gravity from the sums over a group.
fn balance(moment: i128, mass: u64) -> (c: i32)
    requires
        -0x8000_0000 * mass <= moment <= 0x7fff_ffff * mass,
    ensures
        mass == 0 ==> c == 0,
        mass > 0 ==> c == div_toward_zero(moment as int, mass as int),
{
    if mass == 0 {
        0
    } else {
        let m = mass as i128;
        proof {
            let w = moment as int;
            let mm = mass as int;
            if w >= 0 {
                assert(0 <= w / mm <= 0x7fff_ffff) by (nonlinear_arith)
                    requires
                        mm > 0,
                        0 <= w <= 0x7fff_ffff * mm,
                ;
            } else {
                assert(0 <= (-w) / mm <= 0x8000_0000) by (nonlinear_arith)
                    requires
                        mm > 0,
                        0 <= -w <= 0x8000_0000 * mm,
                ;
            }
        }
        (moment / m) as i32
    }
}

/// Whether a cell can be worked on: its bodies exist, there is at least one,
/// and its cube can be divided.
spec fn cell_ok(cell: Cell, n: nat) -> bool {
    &&& valid_bodies(cell.bodies, n)
    &&& cell.bodies.len() >= 1
    &&& cube_fits(cell.center, cell.width)
}

/// Whether slot `i` holds the finished node of its cell.
spec fn slot_ok(ps: Seq<Particle>, nodes: Seq<OctantNode>, cells: Seq<Cell>, i: int) -> bool {
    &&& node_matches(ps, nodes[i], cells[i])
    &&& nodes[i].node_count == 0
    &&& forall|k: int|
        0 <= k < 8 ==> (#[trigger] nodes[i].children@[k] matches Some(c) ==> i < c < cells.len()
            && cells[c as int] == child_cell(ps, cells[i], k))
}

/// The slots from `lo` up to `hi` whose cell has several bodies, in order:
/// those whose node is yet to be worked out.
spec fn pending(cells: Seq<Cell>, lo: int, hi: int) -> Seq<int>
    decreases hi - lo,
{
    if hi <= lo {
        Seq::empty()
    } else if cells[hi - 1].bodies.len() >= 2 {
        pending(cells, lo, hi - 1).push(hi - 1)
    } else {
        pending(cells, lo, hi - 1)
    }
}

proof fn lemma_pending_empty(cells: Seq<Cell>, lo: int, hi: int)
    requires
        pending(cells, lo, hi).len() == 0,
    ensures
        forall|i: int| lo <= i < hi ==> (#[trigger] cells[i]).bodies.len() < 2,
    decreases hi - lo,
{
    if lo < hi {
        lemma_pending_empty(cells, lo, hi - 1);
    }
}

proof fn lemma_pending_front(cells: Seq<Cell>, lo: int, hi: int)
    requires
        pending(cells, lo, hi).len() > 0,
    ensures
        lo <= pending(cells, lo, hi)[0] < hi,
        cells[pending(cells, lo, hi)[0]].bodies.len() >= 2,
        forall|i: int| lo <= i < pending(cells, lo, hi)[0] ==> (#[trigger] cells[i]).bodies.len() < 2,
        pending(cells, pending(cells, lo, hi)[0] + 1, hi) == pending(cells, lo, hi).skip(1),
    decreases hi - lo,
{
    let rest = pending(cells, lo, hi - 1);
    if rest.len() > 0 {
        lemma_pending_front(cells, lo, hi - 1);
        let f = rest[0];
        if cells[hi - 1].bodies.len() >= 2 {
            assert(pending(cells, f + 1, hi) =~= pending(cells, lo, hi).skip(1));
        } else {
            assert(pending(cells, f + 1, hi) =~= pending(cells, lo, hi).skip(1));
        }
    } else {
        lemma_pending_empty(cells, lo, hi - 1);
        assert(pending(cells, hi, hi) =~= pending(cells, lo, hi).skip(1));
    }
}

proof fn lemma_pending_prefix(cells: Seq<Cell>, longer: Seq<Cell>, lo: int, hi: int)
    requires
        0 <= lo,
        hi <= cells.len() <= longer.len(),
        forall|i: int| 0 <= i < cells.len() ==> cells[i] == longer[i],
    ensures
        pending(longer, lo, hi) == pending(cells, lo, hi),
    decreases hi - lo,
{
    if lo < hi {
        lemma_pending_prefix(cells, longer, lo, hi - 1);
    }
}

proof fn lemma_pending_split(cells: Seq<Cell>, lo: int, mid: int, hi: int)
    requires
        lo <= mid <= hi,
    ensures
        pending(cells, lo, hi) == pending(cells, lo, mid) + pending(cells, mid, hi),
    decreases hi - mid,
{
    if mid < hi {
        lemma_pending_split(cells, lo, mid, hi - 1);
        if cells[hi - 1].bodies.len() >= 2 {
            assert(pending(cells, lo, hi) =~= pending(cells, lo, mid) + pending(cells, mid, hi));
        }
    } else {
        assert(pending(cells, lo, hi) =~= pending(cells, lo, mid) + pending(cells, mid, hi));
    }
}

/// Whether the queue holds, in order, the partitions of the pending slots
/// from `lo` up to `hi`, and after them nothing.
spec fn queue_ok(queue: Seq<Partition>, from: int, cells: Seq<Cell>, lo: int, hi: int) -> bool {
    &&& 0 <= from
    &&& queue.len() == from + pending(cells, lo, hi).len()
    &&& forall|j: int|
        from <= j < queue.len() ==> (#[trigger] queue[j]).octant.slot() == pending(cells, lo, hi)[j
            - from] && queue[j].cell() == cells[pending(cells, lo, hi)[j - from]]
}

/// Whether the cells that have a slot are the tree down to `depth`,
/// followed by the children of the cells of that level before `next`.
#[verifier::opaque]
spec fn levels_ok(
    ps: Seq<Particle>,
    root: Cell,
    cells: Seq<Cell>,
    depth: nat,
    lo: int,
    hi: int,
    next: int,
) -> bool {
    &&& 0 <= lo <= next <= hi <= cells.len()
    &&& cells.take(hi) == cells_upto(ps, root, depth)
    &&& cells.subrange(lo, hi) == level(ps, root, depth)
    &&& cells == cells.take(hi) + expand(ps, level(ps, root, depth).take(next - lo))
}

/// Whether the child links of the nodes before `next` grow with the node and
/// the octant that hold them.
spec fn links_grow(nodes: Seq<OctantNode>, next: int) -> bool {
    forall|i: int, k: int, j: int, m: int|
        0 <= i <= j < next && 0 <= k < 8 && 0 <= m < 8 && (i < j || k < m)
            && #[trigger] nodes[i].children@[k] is Some && #[trigger] nodes[j].children@[m] is Some
            ==> nodes[i].children@[k].unwrap() < nodes[j].children@[m].unwrap()
}

/// Where the builder stands: which cells have a slot, which level is being
/// divided and how far, which nodes are finished and which wait in the
/// queue.
spec fn build_inv(
    ps: Seq<Particle>,
    root: Cell,
    nodes: Seq<OctantNode>,
    used: nat,
    cells: Seq<Cell>,
    queue: Seq<Partition>,
    depth: nat,
    lo: int,
    hi: int,
    next: int,
) -> bool {
    &&& cells.len() == used <= nodes.len()
    &&& levels_ok(ps, root, cells, depth, lo, hi, next)
    &&& forall|i: int| 0 <= i < used ==> cell_ok(#[trigger] cells[i], ps.len())
    &&& forall|i: int|
        0 <= i < used && (cells[i].bodies.len() < 2 || i < next) ==> #[trigger] slot_ok(
            ps,
            nodes,
            cells,
            i,
        )
    &&& queue_ok(queue, 0, cells, next, used as int)
    &&& next <= used
    &&& links_grow(nodes, next)
}

proof fn lemma_pending_none(cells: Seq<Cell>, lo: int, hi: int)
    requires
        forall|i: int| lo <= i < hi ==> (#[trigger] cells[i]).bodies.len() < 2,
    ensures
        pending(cells, lo, hi).len() == 0,
    decreases hi - lo,
{
    if lo < hi {
        lemma_pending_none(cells, lo, hi - 1);
    }
}

/// Moves the cursor of the levels to slot `f`, past cells with a single
/// body, and on to the next level where the current one is used up.
proof fn lemma_seek_levels(
    ps: Seq<Particle>,
    root: Cell,
    cells: Seq<Cell>,
    depth: nat,
    lo: int,
    hi: int,
    next: int,
    f: int,
) -> (r: (nat, int, int))
    requires
        levels_ok(ps, root, cells, depth, lo, hi, next),
        next <= f < cells.len(),
        forall|i: int| next <= i < f ==> (#[trigger] cells[i]).bodies.len() < 2,
    ensures
        levels_ok(ps, root, cells, r.0, r.1, r.2, f),
        r.1 <= f < r.2,
{
    reveal(levels_ok);
    let used = cells.len() as int;
    let lev = level(ps, root, depth);
    if f >= hi {
        assert forall|i: int| next - lo <= i < hi - lo implies (#[trigger] lev[i]).bodies.len()
            < 2 by {
            assert(lev[i] == cells.subrange(lo, hi)[i]);
            assert(cells[lo + i].bodies.len() < 2);
        }
        lemma_expand_leaves(ps, lev, next - lo, hi - lo);
        assert(lev.take(hi - lo) =~= lev);
        let lev2 = level(ps, root, depth + 1);
        assert(lev2 == expand(ps, lev));
        assert(cells == cells.take(hi) + lev2);
        assert(cells_upto(ps, root, depth + 1) == cells);
        assert(cells.take(used) =~= cells);
        assert(cells.subrange(hi, used) =~= lev2);
        assert forall|i: int| 0 <= i < f - hi implies (#[trigger] lev2[i]).bodies.len() < 2 by {
            assert(lev2[i] == cells.subrange(hi, used)[i]);
            assert(cells[hi + i].bodies.len() < 2);
        }
        lemma_expand_leaves(ps, lev2, 0, f - hi);
        assert(lev2.take(0) =~= Seq::<Cell>::empty());
        assert(expand(ps, lev2.take(0)) =~= Seq::<Cell>::empty());
        assert(cells =~= cells.take(used) + expand(ps, lev2.take(f - hi)));
        (depth + 1, hi, used)
    } else {
        assert forall|i: int| next - lo <= i < f - lo implies (#[trigger] lev[i]).bodies.len()
            < 2 by {
            assert(lev[i] == cells.subrange(lo, hi)[i]);
            assert(cells[lo + i].bodies.len() < 2);
        }
        lemma_expand_leaves(ps, lev, next - lo, f - lo);
        (depth, lo, hi)
    }
}

/// Moves the builder's cursor to the first pending slot: past cells with a
/// single body, and on to the next level where the current one is used up.
proof fn lemma_seek(
    ps: Seq<Particle>,
    root: Cell,
    nodes: Seq<OctantNode>,
    used: nat,
    cells: Seq<Cell>,
    queue: Seq<Partition>,
    depth: nat,
    lo: int,
    hi: int,
    next: int,
) -> (r: (nat, int, int))
    requires
        build_inv(ps, root, nodes, used, cells, queue, depth, lo, hi, next),
        pending(cells, next, used as int).len() > 0,
    ensures
        build_inv(
            ps,
            root,
            nodes,
            used,
            cells,
            queue,
            r.0,
            r.1,
            r.2,
            pending(cells, next, used as int)[0],
        ),
        r.1 <= pending(cells, next, used as int)[0] < r.2,
        pending(cells, pending(cells, next, used as int)[0], used as int) == pending(
            cells,
            next,
            used as int,
        ),
{
    let f = pending(cells, next, used as int)[0];
    lemma_pending_front(cells, next, used as int);
    lemma_pending_split(cells, next, f, used as int);
    lemma_pending_none(cells, next, f);
    assert(pending(cells, f, used as int) =~= pending(cells, next, used as int));
    assert forall|i: int, k: int, j: int, m: int|
        0 <= i <= j < f && 0 <= k < 8 && 0 <= m < 8 && (i < j || k < m)
            && #[trigger] nodes[i].children@[k] is Some
            && #[trigger] nodes[j].children@[m] is Some implies
            nodes[i].children@[k].unwrap()
        < nodes[j].children@[m].unwrap() by {
        if j >= next {
            assert(slot_ok(ps, nodes, cells, j));
        }
    }
    lemma_seek_levels(ps, root, cells, depth, lo, hi, next, f)
}

/// Once the cells behind the cursor all have a single body, the tree is
/// complete: some depth holds no cell, and the cells that have a slot are
/// the whole tree.
proof fn lemma_finish_levels(
    ps: Seq<Particle>,
    root: Cell,
    cells: Seq<Cell>,
    depth: nat,
    lo: int,
    hi: int,
    next: int,
) -> (end: nat)
    requires
        levels_ok(ps, root, cells, depth, lo, hi, next),
        forall|i: int| next <= i < cells.len() ==> (#[trigger] cells[i]).bodies.len() < 2,
    ensures
        complete_at(ps, root, end),
        cells_upto(ps, root, end) == cells,
{
    reveal(levels_ok);
    let used = cells.len() as int;
    let lev = level(ps, root, depth);
    assert forall|i: int| next - lo <= i < hi - lo implies (#[trigger] lev[i]).bodies.len() < 2 by {
        assert(lev[i] == cells.subrange(lo, hi)[i]);
        assert(cells[lo + i].bodies.len() < 2);
    }
    lemma_expand_leaves(ps, lev, next - lo, hi - lo);
    assert(lev.take(hi - lo) =~= lev);
    let lev2 = level(ps, root, depth + 1);
    assert(lev2 == expand(ps, lev));
    assert(cells == cells.take(hi) + lev2);
    assert(cells_upto(ps, root, depth + 1) == cells);
    assert(cells.subrange(hi, used) =~= lev2);
    assert forall|i: int| 0 <= i < lev2.len() implies (#[trigger] lev2[i]).bodies.len() < 2 by {
        assert(lev2[i] == cells.subrange(hi, used)[i]);
        assert(cells[hi + i].bodies.len() < 2);
    }
    lemma_expand_leaves(ps, lev2, 0, lev2.len() as int);
    assert(lev2.take(0) =~= Seq::<Cell>::empty());
    assert(lev2.take(lev2.len() as int) =~= lev2);
    let lev3 = level(ps, root, depth + 2);
    assert(lev3 == expand(ps, lev2));
    assert(lev3.len() == 0);
    assert(cells_upto(ps, root, depth + 2) =~= cells);
    depth + 2
}

/// Once nothing is pending the tree is complete: some depth holds no cell,
/// and the slots hold the tree down to that depth.
proof fn lemma_finish(
    ps: Seq<Particle>,
    root: Cell,
    nodes: Seq<OctantNode>,
    used: nat,
    cells: Seq<Cell>,
    queue: Seq<Partition>,
    depth: nat,
    lo: int,
    hi: int,
    next: int,
) -> (end: nat)
    requires
        build_inv(ps, root, nodes, used, cells, queue, depth, lo, hi, next),
        queue.len() == 0,
    ensures
        complete_at(ps, root, end),
        cells_upto(ps, root, end) == cells,
        is_octree(ps, nodes.take(used as int), cells),
        uncounted(nodes.take(used as int)),
        links_ordered(nodes.take(used as int)),
{
    lemma_pending_empty(cells, next, used as int);
    let end = lemma_finish_levels(ps, root, cells, depth, lo, hi, next);
    let filled = nodes.take(used as int);
    assert forall|i: int, k: int, j: int, m: int|
        0 <= i <= j < filled.len() && 0 <= k < 8 && 0 <= m < 8 && (i < j || k < m)
            && #[trigger] filled[i].children@[k] is Some
            && #[trigger] filled[j].children@[m] is Some implies
            filled[i].children@[k].unwrap()
        < filled[j].children@[m].unwrap() by {
        if j >= next {
            assert(slot_ok(ps, nodes, cells, j));
        }
        if i >= next {
            assert(slot_ok(ps, nodes, cells, i));
        }
    }
    assert forall|i: int| 0 <= i < filled.len() implies #[trigger] node_matches(
        ps,
        filled[i],
        cells[i],
    ) && links_match(ps, filled, cells, i) by {
        assert(slot_ok(ps, nodes, cells, i));
    }
    assert forall|i: int| 0 <= i < filled.len() implies (#[trigger] filled[i]).node_count == 0 by {
        assert(slot_ok(ps, nodes, cells, i));
    }
    end
}

proof fn lemma_pending_range(cells: Seq<Cell>, lo: int, hi: int, j: int)
    requires
        0 <= j < pending(cells, lo, hi).len(),
    ensures
        lo <= pending(cells, lo, hi)[j] < hi,
    decreases hi - lo,
{
    if lo < hi {
        if j < pending(cells, lo, hi - 1).len() {
            lemma_pending_range(cells, lo, hi - 1, j);
        }
    }
}

/// Where the builder stands while it hands out slots to the children of one
/// cell, octant by octant.
spec fn spawn_inv(
    ps: Seq<Particle>,
    cell: Cell,
    f: int,
    nodes0: Seq<OctantNode>,
    used0: nat,
    cells0: Seq<Cell>,
    queue0: Seq<Partition>,
    nodes: Seq<OctantNode>,
    used: nat,
    cells: Seq<Cell>,
    queue: Seq<Partition>,
    k: int,
    children: Seq<Option<usize>>,
) -> bool {
    &&& cells == cells0 + children_upto(ps, cell, k)
    &&& cells0.len() == used0
    &&& 0 <= f < used0
    &&& cells.len() == used <= nodes.len()
    &&& nodes.len() == nodes0.len()
    &&& children.len() == 8
    &&& forall|i: int| 0 <= i < used0 ==> #[trigger] nodes[i] == nodes0[i]
    &&& forall|i: int| used0 <= i < used ==> cell_ok(#[trigger] cells[i], ps.len())
    &&& forall|i: int|
        used0 <= i < used && cells[i].bodies.len() < 2 ==> #[trigger] slot_ok(ps, nodes, cells, i)
    &&& queue0.len() <= queue.len()
    &&& forall|j: int| 0 <= j < queue0.len() ==> #[trigger] queue[j] == queue0[j]
    &&& queue_ok(queue, queue0.len() as int, cells, used0 as int, used as int)
    &&& forall|j: int|
        0 <= j < k ==> (#[trigger] children[j] is None <==> bucket(ps, cell, j).len() == 0)
    &&& forall|j: int|
        0 <= j < k ==> (#[trigger] children[j] matches Some(c) ==> f < c < cells.len()
            && cells[c as int] == child_cell(ps, cell, j))
    &&& forall|j: int| k <= j < 8 ==> #[trigger] children[j] is None
    &&& forall|j: int| 0 <= j < k ==> (#[trigger] children[j] matches Some(c) ==> used0 <= c)
    &&& forall|j: int, m: int|
        0 <= j < m < k && #[trigger] children[j] is Some && #[trigger] children[m] is Some
            ==> children[j].unwrap() < children[m].unwrap()
    &&& 2 * (nodes.len() - used) + queue.len() <= 2 * (nodes0.len() - used0) + queue0.len()
}

/// Whether the tree down to `depth` has more cells than `base` and the
/// children of `cell` in the octants below any octant that holds a body.
spec fn overflow_at(ps: Seq<Particle>, root: Cell, depth: nat, base: int, cell: Cell) -> bool {
    forall|k: int|
        0 <= k < 8 && bucket(ps, cell, k).len() > 0 ==> cells_upto(ps, root, depth).len() > base
            + #[trigger] children_upto(ps, cell, k).len()
}

/// Dividing the cell at slot `f` appends its children to the cells that have
/// a slot, and moves the cursor past it.
proof fn lemma_level_step(
    ps: Seq<Particle>,
    root: Cell,
    cells: Seq<Cell>,
    depth: nat,
    lo: int,
    hi: int,
    f: int,
)
    requires
        levels_ok(ps, root, cells, depth, lo, hi, f),
        lo <= f < hi,
    ensures
        levels_ok(ps, root, cells + children_cells(ps, cells[f]), depth, lo, hi, f + 1),
{
    reveal(levels_ok);
    let lev = level(ps, root, depth);
    let kids = children_cells(ps, cells[f]);
    let more = cells + kids;
    assert(lev[f - lo] == cells.subrange(lo, hi)[f - lo]);
    assert(lev[f - lo] == cells[f]);
    lemma_expand_step(ps, lev, f - lo);
    let before = expand(ps, lev.take(f - lo));
    assert(expand(ps, lev.take(f + 1 - lo)) == before + kids);
    assert(more.take(hi) =~= cells.take(hi));
    assert(more.subrange(lo, hi) =~= cells.subrange(lo, hi));
    assert(more =~= more.take(hi) + (before + kids));
}

/// The cells that the builder has given a slot, and the children still to
/// come of the cell it works on, all belong to the tree one level down.
proof fn lemma_overflow_at(
    ps: Seq<Particle>,
    root: Cell,
    cells: Seq<Cell>,
    depth: nat,
    lo: int,
    hi: int,
    f: int,
)
    requires
        levels_ok(ps, root, cells, depth, lo, hi, f),
        lo <= f < hi,
        cells[f].bodies.len() >= 2,
    ensures
        overflow_at(ps, root, depth + 1, cells.len() as int, cells[f]),
{
    reveal(levels_ok);
    let lev = level(ps, root, depth);
    let kids = children_cells(ps, cells[f]);
    lemma_level_step(ps, root, cells, depth, lo, hi, f);
    let more = cells + kids;
    let tail = expand(ps, lev.take(f + 1 - lo));
    assert(more == more.take(hi) + tail);
    assert(more.take(hi).len() == hi);
    assert(more.len() == hi + tail.len());
    assert(tail.len() == cells.len() + kids.len() - hi);
    lemma_expand_len_monotone(ps, lev, f + 1 - lo);
    let whole = cells_upto(ps, root, depth + 1);
    assert(whole == cells_upto(ps, root, depth) + expand(ps, lev));
    assert(cells_upto(ps, root, depth).len() == hi);
    assert(whole.len() >= cells.len() + kids.len());
    assert(kids == children_upto(ps, cells[f], 8));
    assert forall|k: int| 0 <= k < 8 && bucket(ps, cells[f], k).len() > 0 implies whole.len()
        > cells.len() + #[trigger] children_upto(ps, cells[f], k).len() by {
        lemma_children_upto_len(ps, cells[f], k + 1);
        assert(children_upto(ps, cells[f], k + 1).len() == children_upto(ps, cells[f], k).len()
            + 1);
    }
}

/// One more child has its slot: a leaf that is written at once, or a
/// partition that joins the queue.
#[verifier::rlimit(50)]
proof fn lemma_spawn_child(
    ps: Seq<Particle>,
    cell: Cell,
    f: int,
    nodes0: Seq<OctantNode>,
    used0: nat,
    cells0: Seq<Cell>,
    queue0: Seq<Partition>,
    nodes: Seq<OctantNode>,
    used: nat,
    cells: Seq<Cell>,
    queue: Seq<Partition>,
    k: int,
    children: Seq<Option<usize>>,
    nodes2: Seq<OctantNode>,
    queue2: Seq<Partition>,
    leaf: OctantNode,
    part: Partition,
)
    requires
        spawn_inv(ps, cell, f, nodes0, used0, cells0, queue0, nodes, used, cells, queue, k, children),
        0 <= k < 8,
        cell_ok(cell, ps.len()),
        bucket(ps, cell, k).len() > 0,
        used < nodes.len(),
        used <= usize::MAX,
        cube_fits(child_cell(ps, cell, k).center, child_cell(ps, cell, k).width),
        bucket(ps, cell, k).len() == 1 ==> nodes2 == nodes.update(used as int, leaf) && leaf_matches(
            ps,
            leaf,
            child_cell(ps, cell, k),
        ) && leaf.bodies == 1 && leaf.node_count == 0 && queue2 == queue,
        bucket(ps, cell, k).len() >= 2 ==> nodes2 == nodes && queue2 == queue.push(part)
            && part.octant.slot() == used && part.cell() == child_cell(ps, cell, k),
    ensures
        spawn_inv(
            ps,
            cell,
            f,
            nodes0,
            used0,
            cells0,
            queue0,
            nodes2,
            (used + 1) as nat,
            cells.push(child_cell(ps, cell, k)),
            queue2,
            k + 1,
            children.update(k, Some(used as usize)),
        ),
{
    let child = child_cell(ps, cell, k);
    let cells2 = cells.push(child);
    let children2 = children.update(k, Some(used as usize));
    lemma_bucket_valid(ps, cell.center, cell.bodies, k, ps.len());
    assert(cell_ok(child, ps.len()));
    assert(cells2 =~= cells0 + children_upto(ps, cell, k + 1));
    lemma_pending_prefix(cells, cells2, used0 as int, used as int);
    let pend = pending(cells, used0 as int, used as int);
    let pend2 = pending(cells2, used0 as int, used as int + 1);
    assert forall|j: int| queue0.len() <= j < queue2.len() implies (#[trigger] queue2[j]).octant.slot()
        == pend2[j - queue0.len()] && queue2[j].cell() == cells2[pend2[j - queue0.len()]] by {
        if j < queue.len() {
            lemma_pending_range(cells, used0 as int, used as int, j - queue0.len());
            assert(queue2[j] == queue[j]);
        }
    }
    assert forall|i: int|
        used0 <= i < used + 1 && cells2[i].bodies.len() < 2 implies #[trigger] slot_ok(
        ps,
        nodes2,
        cells2,
        i,
    ) by {
        if i < used {
            assert(slot_ok(ps, nodes, cells, i));
            assert(cells2[i] == cells[i]);
            assert(nodes2[i] == nodes[i]);
        }
    }
    assert forall|j: int| 0 <= j < k + 1 implies (#[trigger] children2[j] matches Some(c) ==> f < c
        < cells2.len() && cells2[c as int] == child_cell(ps, cell, j)) by {
        if j < k {
            assert(children2[j] == children[j]);
        }
    }
    assert forall|j: int| 0 <= j < k + 1 implies (#[trigger] children2[j] is None <==> bucket(
        ps,
        cell,
        j,
    ).len() == 0) by {
        if j < k {
            assert(children2[j] == children[j]);
        }
    }
    assert forall|j: int| 0 <= j < k + 1 implies (#[trigger] children2[j] matches Some(c) ==> used0
        <= c) by {
        if j < k {
            assert(children2[j] == children[j]);
        }
    }
    assert forall|j: int, m: int|
        0 <= j < m < k + 1 && #[trigger] children2[j] is Some
            && #[trigger] children2[m] is Some implies children2[j].unwrap()
        < children2[m].unwrap() by {
        assert(children2[j] == children[j]);
        if m < k {
            assert(children2[m] == children[m]);
        }
    }
}

/// The node of the cell that was divided is written: the cursor moves on.
#[verifier::rlimit(50)]
proof fn lemma_spawned(
    ps: Seq<Particle>,
    root: Cell,
    f: int,
    nodes0: Seq<OctantNode>,
    used0: nat,
    cells0: Seq<Cell>,
    queue_start: Seq<Partition>,
    nodes: Seq<OctantNode>,
    used: nat,
    cells: Seq<Cell>,
    queue: Seq<Partition>,
    node: OctantNode,
    depth: nat,
    lo: int,
    hi: int,
)
    requires
        build_inv(ps, root, nodes0, used0, cells0, queue_start, depth, lo, hi, f),
        lo <= f < hi,
        queue_start.len() > 0,
        pending(cells0, f, used0 as int).len() > 0,
        pending(cells0, f, used0 as int)[0] == f,
        cells0[f].bodies.len() >= 2,
        spawn_inv(
            ps,
            cells0[f],
            f,
            nodes0,
            used0,
            cells0,
            queue_start.subrange(1, queue_start.len() as int),
            nodes,
            used,
            cells,
            queue,
            8,
            node.children@,
        ),
        node.one_body == 0,
        node.node_count == 0,
        node.bodies == cells0[f].bodies.len(),
        node.mass == total_mass(ps, cells0[f].bodies),
        forall|axis: int|
            0 <= axis < 3 ==> #[trigger] node.cog@[axis] == center_of_gravity(
                ps,
                cells0[f].bodies,
                axis,
            ),
    ensures
        build_inv(ps, root, nodes.update(f, node), used, cells, queue, depth, lo, hi, f + 1),
{
    let cell = cells0[f];
    let nodes2 = nodes.update(f, node);
    let queue0 = queue_start.subrange(1, queue_start.len() as int);
    lemma_level_step(ps, root, cells0, depth, lo, hi, f);
    assert(children_cells(ps, cell) == children_upto(ps, cell, 8));
    assert(cells == cells0 + children_cells(ps, cell));
    assert(levels_ok(ps, root, cells, depth, lo, hi, f + 1));
    assert forall|i: int| 0 <= i < used implies cell_ok(#[trigger] cells[i], ps.len()) by {
        if i < used0 {
            assert(cells[i] == cells0[i]);
        }
    }
    lemma_pending_front(cells0, f, used0 as int);
    assert forall|i: int|
        0 <= i < used && (cells[i].bodies.len() < 2 || i < f + 1) implies #[trigger] slot_ok(
        ps,
        nodes2,
        cells,
        i,
    ) by {
        if i == f {
            assert(cells[f] == cell);
            assert(inner_matches(ps, node, cell));
        } else if i < used0 {
            assert(cells[i] == cells0[i]);
            assert(slot_ok(ps, nodes0, cells0, i));
            assert(nodes2[i] == nodes0[i]);
            assert forall|k: int| 0 <= k < 8 implies (#[trigger] nodes2[i].children@[k] matches Some(
                c,
            ) ==> i < c < cells.len() && cells[c as int] == child_cell(ps, cells[i], k)) by {
                if nodes0[i].children@[k] is Some {
                    let c = nodes0[i].children@[k].unwrap();
                    assert(cells[c as int] == cells0[c as int]);
                }
            }
        } else {
            assert(slot_ok(ps, nodes, cells, i));
            assert(nodes2[i] == nodes[i]);
        }
    }
    assert forall|i: int, k: int, j: int, m: int|
        0 <= i <= j < f + 1 && 0 <= k < 8 && 0 <= m < 8 && (i < j || k < m)
            && #[trigger] nodes2[i].children@[k] is Some
            && #[trigger] nodes2[j].children@[m] is Some implies
            nodes2[i].children@[k].unwrap()
        < nodes2[j].children@[m].unwrap() by {
        if j < f {
            assert(nodes2[i] == nodes0[i]);
            assert(nodes2[j] == nodes0[j]);
        } else if i < f {
            assert(nodes2[i] == nodes0[i]);
            assert(slot_ok(ps, nodes0, cells0, i));
        }
    }
    lemma_pending_split(cells, f + 1, used0 as int, used as int);
    lemma_pending_prefix(cells0, cells, f + 1, used0 as int);
    let pend_old = pending(cells0, f + 1, used0 as int);
    let pend_new = pending(cells, used0 as int, used as int);
    let pend = pending(cells, f + 1, used as int);
    assert(pend == pend_old + pend_new);
    assert(pend_old == pending(cells0, f, used0 as int).skip(1));
    assert forall|j: int| 0 <= j < queue.len() implies (#[trigger] queue[j]).octant.slot() == pend[j]
        && queue[j].cell() == cells[pend[j]] by {
        if j < queue0.len() {
            assert(queue[j] == queue0[j]);
            assert(queue0[j] == queue_start[j + 1]);
            assert(pend[j] == pending(cells0, f, used0 as int)[j + 1]);
            lemma_pending_range(cells0, f, used0 as int, j + 1);
            assert(cells[pend[j]] == cells0[pend[j]]);
        } else {
            assert(pend[j] == pend_new[j - queue0.len()]);
        }
    }
}

/// Builds the octree of the bodies in the cube (`center`, `width`) into the
/// arena, level by level: slot 0 holds the root, and the nodes of each level
/// follow those of the level above, in the order of their parents and, below
/// one parent, of their octants. The arena is reset first. A node with one
/// body is a leaf that names the body; a node with more sums them up and
/// names a child for each octant that holds a body.
///
/// Fails, with the arena full, exactly when the tree has more nodes than the
/// arena has slots; that is also how bodies at the same place end.
#[verifier::rlimit(50)]
pub fn build_tree_in<'b>(
    particle_data: &[Particle],
    center: [i64; 3],
    width: i64,
    arena: &mut SliceAlloc<OctantNode>,
    bump: &'b bumpalo::Bump,
) -> (res: Result<(), AllocError>)
    requires
        particle_data@.len() <= u32::MAX,
        cube_fits(center@, width),
    ensures
        final(arena).capacity() == old(arena).capacity(),
        final(arena).used() <= final(arena).capacity(),
        forall|i: int|
            final(arena).used() <= i < old(arena).capacity() ==> #[trigger] final(arena)@[i] == old(
                arena,
            )@[i],
        res is Err <==> exceeds(
            particle_data@,
            root_cell(center@, width, particle_data@.len()),
            old(arena).capacity(),
        ),
        res is Err ==> final(arena).used() == old(arena).capacity(),
        res is Ok ==> uncounted(final(arena).filled()) && links_ordered(final(arena).filled()),
        res is Ok ==> exists|depth: nat|
            complete_at(
                particle_data@,
                root_cell(center@, width, particle_data@.len()),
                depth,
            ) && #[trigger] is_octree(
                particle_data@,
                final(arena).filled(),
                cells_upto(
                    particle_data@,
                    root_cell(center@, width, particle_data@.len()),
                    depth,
                ),
            ),
{
    let ghost ps = particle_data@;
    let n = particle_data.len();
    let ghost root = root_cell(center@, width, n as nat);
    arena.reset();
    let ghost cap = arena.capacity();
    if n == 0 {
        proof {
            assert(complete_at(ps, root, 0));
            assert(arena.filled() =~= Seq::<OctantNode>::empty());
            assert(is_octree(ps, arena.filled(), cells_upto(ps, root, 0)));
            assert(uncounted(arena.filled()));
            assert forall|depth: nat| !(#[trigger] cells_upto(ps, root, depth).len() > cap) by {
                lemma_complete_bounds(ps, root, 0, depth);
            }
        }
        return Ok(());
    }
    proof {
        assert(forall|j: int| 0 <= j < n ==> #[trigger] root.bodies[j] == j);
        assert(cell_ok(root, ps.len()));
    }
    let root_slot = match arena.reserve() {
        Ok(slot) => slot,
        Err(e) => {
            proof {
                assert(cells_upto(ps, root, 0).len() > cap);
            }
            return Err(e);
        },
    };
    if n == 1 {
        let p = &particle_data[0];
        let leaf = OctantNode {
            cog: p.position,
            mass: p.mass as u64,
            bodies: 1,
            node_count: 0,
            children: [None;8],
            one_body: 0,
        };
        arena.write(&root_slot, leaf);
        proof {
            lemma_lone_cell(ps, root);
            assert(leaf_matches(ps, leaf, root));
            assert(arena.filled() =~= seq![leaf]);
            assert(is_octree(ps, arena.filled(), cells_upto(ps, root, 1)));
            assert(uncounted(arena.filled()));
            assert forall|depth: nat| !(#[trigger] cells_upto(ps, root, depth).len() > cap) by {
                lemma_complete_bounds(ps, root, 1, depth);
            }
        }
        return Ok(());
    }
    let mut part_queue: VecDeque<Partition<'b>> = VecDeque::new();
    let all = list_from_range(0, n, bump);
    proof {
        assert(index_list(all) =~= root.bodies);
    }
    part_queue.push_back(Partition { center, width, octant: root_slot, particles_ix: all });
    let ghost mut cells: Seq<Cell> = seq![root];
    let ghost mut depth: nat = 0;
    let ghost mut lo: int = 0;
    let ghost mut hi: int = 1;
    let ghost mut next: int = 0;
    proof {
        assert(cells.take(1) =~= cells);
        assert(cells.subrange(0, 1) =~= cells);
        assert(level(ps, root, 0).take(0) =~= Seq::<Cell>::empty());
        assert(cells =~= cells.take(1) + expand(ps, level(ps, root, 0).take(0)));
        assert(pending(cells, 0, 0) =~= Seq::<int>::empty());
        assert(pending(cells, 0, 1) =~= seq![0int]);
        assert(part_queue@[0].cell() == root);
        assert(levels_ok(ps, root, cells, depth, lo, hi, next)) by {
            reveal(levels_ok);
        }
        assert(build_inv(ps, root, arena@, arena.used(), cells, part_queue@, depth, lo, hi, next));
    }
    while part_queue.len() > 0
        invariant
            ps == particle_data@,
            n == ps.len(),
            2 <= n <= u32::MAX,
            root == root_cell(center@, width, n as nat),
            cap == arena.capacity(),
            cap == old(arena).capacity(),
            cube_fits(center@, width),
            forall|i: int| arena.used() <= i < cap ==> #[trigger] arena@[i] == old(arena)@[i],
            build_inv(ps, root, arena@, arena.used(), cells, part_queue@, depth, lo, hi, next),
        decreases 2 * (cap - arena.used()) + part_queue@.len(),
    {
        let ghost queue_start = part_queue@;
        let ghost nodes0 = arena@;
        let ghost used0 = arena.used();
        let ghost cells0 = cells;
        proof {
            let r = lemma_seek(ps, root, nodes0, used0, cells, queue_start, depth, lo, hi, next);
            lemma_pending_front(cells, next, used0 as int);
            next = pending(cells, next, used0 as int)[0];
            depth = r.0;
            lo = r.1;
            hi = r.2;
        }
        let part = part_queue.pop_front().unwrap();
        let ghost f = next;
        let ghost cell = cells[f];
        let ghost queue0 = part_queue@;
        proof {
            assert(part == queue_start[0]);
            assert(part.octant.slot() == f);
            assert(part.cell() == cell);
            assert(cell_ok(cell, ps.len()));
            lemma_overflow_at(ps, root, cells0, depth, lo, hi, f);
        }
        let tally = tally_partition(particle_data, &part.center, &part.particles_ix, bump);
        let count = list_len(&part.particles_ix);
        let mut buckets = tally.buckets;
        let mut children: [Option<usize>; 8] = [None;8];
        let mut k: usize = 0;
        proof {
            assert(cells =~= cells0 + children_upto(ps, cell, 0));
            assert(pending(cells, used0 as int, used0 as int) =~= Seq::<int>::empty());
            assert(spawn_inv(
                ps,
                cell,
                f,
                nodes0,
                used0,
                cells0,
                queue0,
                arena@,
                arena.used(),
                cells,
                part_queue@,
                0,
                children@,
            ));
        }
        while k < 8
            invariant
                k <= 8,
                ps == particle_data@,
                n == ps.len(),
                2 <= n <= u32::MAX,
                cap == arena.capacity(),
                cell == part.cell(),
                cell_ok(cell, ps.len()),
                cell.bodies.len() >= 2,
                buckets@.len() == 8 - k,
                forall|j: int|
                    0 <= j < 8 - k ==> index_list(#[trigger] buckets@[j]) == bucket(
                        ps,
                        cell,
                        k + j,
                    ),
                spawn_inv(
                    ps,
                    cell,
                    f,
                    nodes0,
                    used0,
                    cells0,
                    queue0,
                    arena@,
                    arena.used(),
                    cells,
                    part_queue@,
                    k as int,
                    children@,
                ),
                overflow_at(ps, root, depth + 1, used0 as int, cell),
                forall|i: int| arena.used() <= i < cap ==> #[trigger] arena@[i] == old(arena)@[i],
                old(arena).capacity() == cap,
                root == root_cell(center@, width, n as nat),
            decreases 8 - k,
        {
            let bucket_list = buckets.remove(0);
            let bucket_len = list_len(&bucket_list);
            let ghost nodes1 = arena@;
            let ghost used1 = arena.used();
            let ghost cells1 = cells;
            let ghost queue1 = part_queue@;
            let ghost children1 = children@;
            proof {
                assert(index_list(bucket_list) == bucket(ps, cell, k as int));
                assert forall|j: int| 0 <= j < 8 - (k + 1) implies index_list(
                    #[trigger] buckets@[j],
                ) == bucket(ps, cell, k + 1 + j) by {}
                lemma_bucket_valid(ps, cell.center, cell.bodies, k as int, ps.len());
            }
            if bucket_len > 0 {
                let slot = match arena.reserve() {
                    Ok(slot) => slot,
                    Err(e) => {
                        proof {
                            assert(cells_upto(ps, root, depth + 1).len() > cap);
                        }
                        return Err(e);
                    },
                };
                let slot_ix = slot.index();
                let ghost child = child_cell(ps, cell, k as int);
                let child_center = shift_node_center(&part.center, part.width, k);
                children[k] = Some(slot_ix);
                if bucket_len == 1 {
                    let b = list_get(&bucket_list, 0);
                    let p = &particle_data[b];
                    let leaf = OctantNode {
                        cog: p.position,
                        mass: p.mass as u64,
                        bodies: 1,
                        node_count: 0,
                        children: [None;8],
                        one_body: b,
                    };
                    arena.write(&slot, leaf);
                    proof {
                        assert(leaf_matches(ps, leaf, child));
                        lemma_spawn_child(
                            ps,
                            cell,
                            f,
                            nodes0,
                            used0,
                            cells0,
                            queue0,
                            nodes1,
                            used1,
                            cells1,
                            queue1,
                            k as int,
                            children1,
                            arena@,
                            part_queue@,
                            leaf,
                            part,
                        );
                        cells = cells.push(child);
                    }
                } else {
                    let queued = Partition {
                        center: child_center,
                        width: part.width / 2,
                        octant: slot,
                        particles_ix: bucket_list,
                    };
                    let ghost queued_copy = queued;
                    part_queue.push_back(queued);
                    proof {
                        assert(queued_copy.cell() == child);
                        lemma_spawn_child(
                            ps,
                            cell,
                            f,
                            nodes0,
                            used0,
                            cells0,
                            queue0,
                            nodes1,
                            used1,
                            cells1,
                            queue1,
                            k as int,
                            children1,
                            arena@,
                            part_queue@,
                            empty_node(),
                            queued_copy,
                        );
                        cells = cells.push(child);
                    }
                }
            } else {
                proof {
                    assert(cells =~= cells0 + children_upto(ps, cell, k + 1));
                }
            }
            k += 1;
        }
        proof {
            lemma_weighted_sum_bound(ps, cell.bodies, 0);
            lemma_weighted_sum_bound(ps, cell.bodies, 1);
            lemma_weighted_sum_bound(ps, cell.bodies, 2);
        }
        let node = OctantNode {
            cog: [
                balance(tally.moment[0], tally.mass),
                balance(tally.moment[1], tally.mass),
                balance(tally.moment[2], tally.mass),
            ],
            mass: tally.mass,
            bodies: count as u32,
            node_count: 0,
            children,
            one_body: 0,
        };
        let ghost nodes_spawned = arena@;
        arena.write(&part.octant, node);
        proof {
            assert(queue0 =~= queue_start.subrange(1, queue_start.len() as int));
            lemma_spawned(
                ps,
                root,
                f,
                nodes0,
                used0,
                cells0,
                queue_start,
                nodes_spawned,
                arena.used(),
                cells,
                part_queue@,
                node,
                depth,
                lo,
                hi,
            );
            next = f + 1;
        }
    }
    proof {
        let end = lemma_finish(
            ps,
            root,
            arena@,
            arena.used(),
            cells,
            part_queue@,
            depth,
            lo,
            hi,
            next,
        );
        assert(is_octree(ps, arena.filled(), cells_upto(ps, root, end)));
        assert forall|d: nat| !(#[trigger] cells_upto(ps, root, d).len() > cap) by {
            lemma_complete_bounds(ps, root, end, d);
        }
    }
    Ok(())
}

/// The centre of the root cube: the origin.
pub open spec fn origin() -> Seq<i64> {
    seq![0i64, 0i64, 0i64]
}

/// The root cell of a set of bodies: the cube around the origin that is
/// twice as wide as their bounding half-width, with all of them in it.
pub open spec fn bounding_cell(ps: Seq<Particle>) -> Cell {
    root_cell(origin(), (2 * bounding_half_width(ps)) as i64, ps.len())
}

/// Builds the octree of the bodies into the arena: estimates their bound,
/// and divides the cube around the origin that is twice as wide (see
/// [`build_tree_in`]). Returns the width of that root cube, which whoever
/// evaluates the tree needs to know.
///
/// Fails exactly when the tree has more nodes than the arena has slots.
pub fn build_tree<'b>(
    particle_data: &[Particle],
    arena: &mut SliceAlloc<OctantNode>,
    bump: &'b bumpalo::Bump,
) -> (res: Result<i64, AllocError>)
    requires
        particle_data@.len() <= u32::MAX,
    ensures
        final(arena).capacity() == old(arena).capacity(),
        final(arena).used() <= final(arena).capacity(),
        res is Err <==> exceeds(
            particle_data@,
            bounding_cell(particle_data@),
            old(arena).capacity(),
        ),
        forall|i: int|
            final(arena).used() <= i < old(arena).capacity() ==> #[trigger] final(arena)@[i] == old(
                arena,
            )@[i],
        res is Err ==> final(arena).used() == old(arena).capacity(),
        res is Ok ==> uncounted(final(arena).filled()) && links_ordered(final(arena).filled()),
        res matches Ok(width) ==> width == 2 * bounding_half_width(particle_data@) && exists|
            depth: nat,
        |
            complete_at(particle_data@, bounding_cell(particle_data@), depth) && #[trigger] is_octree(
                particle_data@,
                final(arena).filled(),
                cells_upto(particle_data@, bounding_cell(particle_data@), depth),
            ),
{
    let bound = bounding_estimate(particle_data);
    let width = root_width(bound);
    let center: [i64; 3] = [0, 0, 0];
    proof {
        assert(center@ =~= origin());
    }
    match build_tree_in(particle_data, center, width, arena, bump) {
        Ok(()) => Ok(width),
        Err(e) => Err(e),
    }
}

} // verus!
