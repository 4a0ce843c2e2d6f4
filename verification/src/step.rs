//! The step coordinator: what one tick of the simulation does between
//! reading the bodies and handing tree and bodies on, in the order that the
//! parts need.

use crate::body::{Particle, SimParams};
use crate::bound::bounding_half_width;
use crate::builder::{bounding_cell, build_tree};
use crate::flatten::{flat_ok, flatten_octree, same_outside};
use crate::laws::{
    lemma_cells_valid, lemma_first_cell, lemma_octree_node, lemma_octree_size, lemma_octree_wf,
    lemma_sorted_is_permutation,
};
use crate::node::{OctantNode, OctantRaw, TraversalMode};
use crate::octree::{
    cells_upto, complete_at, exceeds, is_octree, links_match, links_ordered, node_matches,
};
use crate::slice_alloc::{AllocError, SliceAlloc};
use crate::sorter::{arranged, sort_particles_count_nodes};
use crate::tree::{counted, leaf_order, lemma_size_shape, same_shape, subtree_size};
use vstd::prelude::*;

verus! {

/// How many bodies one work group of the force evaluation takes.
pub const PARTICLES_PER_GROUP: u32 = 64;

/// What a tick hands on besides the sorted bodies and the flat tree.
#[derive(Clone, Copy, Debug, PartialEq, Eq)]
pub struct StepReport {
    /// Width of the root cube that the tree was built in.
    pub root_width: i64,
    /// Number of nodes of the tree: so many places of the flat array are in
    /// use.
    pub node_count: usize,
}

/// Runs the ticks of a simulation of a fixed number of bodies. It owns the
/// arena's buffer, which has room for four nodes per body, and counts the
/// ticks, by which the two generations of bodies take turns.
pub struct StepCoordinator {
    sim_params: SimParams,
    step_num: usize,
    scratch: Vec<OctantNode>,
    used: usize,
}

/// The nodes of an octree stay one when their node counts are filled in.
pub proof fn lemma_octree_shape(
    ps: Seq<Particle>,
    a: Seq<OctantNode>,
    b: Seq<OctantNode>,
    cells: Seq<crate::octree::Cell>,
)
    requires
        is_octree(ps, a, cells),
        same_shape(a, b),
    ensures
        is_octree(ps, b, cells),
{
    assert forall|i: int| 0 <= i < b.len() implies #[trigger] node_matches(ps, b[i], cells[i])
        && links_match(ps, b, cells, i) by {
        lemma_octree_node(ps, a, cells, i);
        assert(b[i].cog == a[i].cog && b[i].children == a[i].children);
    }
}

/// What a finished tick leaves behind: the tree of the bodies, counted; the
/// bodies sorted along it, none lost and none added; the tree laid out flat
/// in pre-order at the front of the flat array; and the report.
pub open spec fn step_done<T>(
    ps: Seq<Particle>,
    src: Seq<T>,
    tree: Seq<OctantNode>,
    sorted: Seq<T>,
    flat_before: Seq<OctantRaw>,
    flat: Seq<OctantRaw>,
    report: StepReport,
) -> bool {
    &&& exists|depth: nat|
        complete_at(ps, bounding_cell(ps), depth) && #[trigger] is_octree(
            ps,
            tree,
            cells_upto(ps, bounding_cell(ps), depth),
        )
    &&& links_ordered(tree)
    &&& counted(tree, 0)
    &&& sorted == arranged(src, leaf_order(tree, 0))
    &&& sorted.to_multiset() == src.to_multiset()
    &&& report.node_count == subtree_size(tree, 0)
    &&& report.node_count == tree.len() <= 4 * ps.len()
    &&& report.root_width == 2 * bounding_half_width(ps)
    &&& flat_ok(tree, 0, flat, 0)
    &&& same_outside(flat_before, flat, 0, report.node_count as int)
}

impl StepCoordinator {
    /// Whether the coordinator is in order: its buffer has four slots per
    /// body.
    pub closed spec fn wf(&self) -> bool {
        &&& self.scratch@.len() == 4 * self.sim_params.particle_num
        &&& self.scratch@.len() <= u32::MAX
        &&& self.used <= self.scratch@.len()
    }

    /// The parameters of the simulation.
    pub closed spec fn params(&self) -> SimParams {
        self.sim_params
    }

    /// How many ticks have gone by, counted modulo the range of `usize`.
    pub closed spec fn steps(&self) -> nat {
        self.step_num as nat
    }

    /// The nodes of the tree that the last tick built.
    pub closed spec fn tree(&self) -> Seq<OctantNode> {
        self.scratch@.take(self.used as int)
    }

    /// A coordinator for a simulation with these parameters, before its
    /// first tick; `None` where four nodes per body are more than a flat
    /// tree can name.
    pub fn new(sim_params: SimParams) -> (res: Option<StepCoordinator>)
        ensures
            res is Some <==> 4 * sim_params.particle_num <= u32::MAX,
            res matches Some(c) ==> c.wf() && c.params() == sim_params && c.steps() == 0
                && c.tree().len() == 0,
    {
        if sim_params.particle_num > u32::MAX / 4 {
            return None;
        }
        let slots = sim_params.particle_num as usize * 4;
        let mut scratch: Vec<OctantNode> = Vec::new();
        let mut i: usize = 0;
        while i < slots
            invariant
                i <= slots,
                scratch@.len() == i,
            decreases slots - i,
        {
            scratch.push(OctantNode::default());
            i += 1;
        }
        Some(StepCoordinator { sim_params, step_num: 0, scratch, used: 0 })
    }

    /// The parameters of the simulation.
    pub fn sim_params(&self) -> (p: SimParams)
        ensures
            p == self.params(),
    {
        self.sim_params
    }

    /// How many ticks have gone by.
    pub fn step_num(&self) -> (n: usize)
        ensures
            n == self.steps(),
    {
        self.step_num
    }

    /// Which of the two generations of bodies the next tick reads.
    pub fn source_index(&self) -> (ix: usize)
        ensures
            ix == self.steps() % 2,
    {
        self.step_num % 2
    }

    /// Which of the two generations of bodies the next tick leaves for
    /// whoever wants the positions: the other one.
    pub fn dest_index(&self) -> (ix: usize)
        ensures
            ix == (self.steps() + 1) % 2,
            ix != self.steps() % 2,
    {
        1 - self.step_num % 2
    }

    /// How many slots the arena has: four per body.
    pub fn tree_capacity(&self) -> (n: usize)
        requires
            self.wf(),
        ensures
            n == 4 * self.params().particle_num,
    {
        self.scratch.len()
    }

    /// How many work groups the force evaluation needs: the number of
    /// bodies divided by the size of a group, rounded up.
    pub fn work_group_count(&self) -> (n: u32)
        ensures
            n * PARTICLES_PER_GROUP >= self.params().particle_num,
            (n - 1) * PARTICLES_PER_GROUP < self.params().particle_num || n == 0,
    {
        let n = self.sim_params.particle_num;
        if n % PARTICLES_PER_GROUP == 0 {
            n / PARTICLES_PER_GROUP
        } else {
            n / PARTICLES_PER_GROUP + 1
        }
    }

    /// The nodes of the tree that the last tick built.
    pub fn nodes(&self) -> (s: &[OctantNode])
        requires
            self.wf(),
        ensures
            s@ == self.tree(),
    {
        vstd::slice::slice_subrange(self.scratch.as_slice(), 0, self.used)
    }

    /// One tick: builds the tree of the bodies in `bodies`, sorts the
    /// particles of `particles_src` along it into `particles_dst`, and lays
    /// the tree out flat in pre-order at the front of `tree_dst`; then the
    /// next generation's turn has come. Body `i` is what the tree is built
    /// from for particle `i`; the particles themselves are only moved.
    ///
    /// Fails exactly when the tree has more than four nodes per body; then
    /// nothing is written and the tick does not count.
    pub fn step<T: Copy>(
        &mut self,
        bodies: &[Particle],
        particles_src: &[T],
        particles_dst: &mut [T],
        tree_dst: &mut [OctantRaw],
        bump: &bumpalo::Bump,
    ) -> (res: Result<StepReport, AllocError>)
        requires
            old(self).wf(),
            bodies@.len() == old(self).params().particle_num,
            particles_src@.len() == bodies@.len(),
            old(particles_dst)@.len() == bodies@.len(),
            old(tree_dst)@.len() == 4 * bodies@.len(),
        ensures
            final(self).wf(),
            final(self).params() == old(self).params(),
            res is Err <==> exceeds(bodies@, bounding_cell(bodies@), 4 * bodies@.len()),
            res matches Ok(report) ==> step_done(
                bodies@,
                particles_src@,
                final(self).tree(),
                final(particles_dst)@,
                old(tree_dst)@,
                final(tree_dst)@,
                report,
            ) && final(self).steps() % 2 != old(self).steps() % 2,
            res is Err ==> final(particles_dst)@ == old(particles_dst)@ && final(tree_dst)@ == old(
                tree_dst,
            )@ && final(self).steps() == old(self).steps() && final(self).tree().len() == 0,
    {
        let ghost ps = bodies@;
        let ghost src = particles_src@;
        let ghost root = bounding_cell(ps);
        let mut buffer: Vec<OctantNode> = Vec::new();
        core::mem::swap(&mut self.scratch, &mut buffer);
        let mut arena = SliceAlloc::wrap(buffer);
        let built = build_tree(bodies, &mut arena, bump);
        let used = arena.len();
        let ghost filled = arena.filled();
        let mut buffer = arena.into_inner();
        let width = match built {
            Ok(width) => width,
            Err(e) => {
                self.scratch = buffer;
                self.used = 0;
                return Err(e);
            },
        };
        let ghost depth = choose|depth: nat|
            complete_at(ps, root, depth) && #[trigger] is_octree(
                ps,
                filled,
                cells_upto(ps, root, depth),
            );
        let ghost cells = cells_upto(ps, root, depth);
        proof {
            assert(forall|j: int| 0 <= j < ps.len() ==> #[trigger] root.bodies[j] == j);
            lemma_cells_valid(ps, root, depth, ps.len());
            lemma_octree_wf(ps, filled, cells);
            lemma_octree_size(ps, root, filled, depth);
            lemma_sorted_is_permutation(ps, src, root, filled, depth);
            if filled.len() > 0 {
                lemma_first_cell(ps, root, depth);
                lemma_octree_node(ps, filled, cells, 0);
            }
        }
        let whole = buffer.as_mut_slice();
        let (nodes, _rest) = whole.split_at_mut(used);
        let count = sort_particles_count_nodes(nodes, particles_src, particles_dst);
        proof {
            lemma_size_shape(filled, nodes@, 0);
            lemma_octree_shape(ps, filled, nodes@, cells);
            assert(links_ordered(nodes@)) by {
                assert forall|i: int, k: int, j: int, m: int|
                    0 <= i <= j < nodes@.len() && 0 <= k < 8 && 0 <= m < 8 && (i < j || k < m)
                        && #[trigger] nodes@[i].children@[k] is Some
                        && #[trigger] nodes@[j].children@[m] is Some implies
                        nodes@[i].children@[k].unwrap()
                    < nodes@[j].children@[m].unwrap() by {
                    assert(nodes@[i].children == filled[i].children);
                    assert(nodes@[j].children == filled[j].children);
                }
            }
            crate::tree::lemma_order_shape(filled, nodes@, 0);
            crate::tree::lemma_wf_shape(filled, nodes@, ps.len());
            if filled.len() > 0 {
                crate::tree::lemma_leaf_order(filled, ps.len(), 0);
            }
        }
        flatten_octree(nodes, tree_dst, TraversalMode::PreOrder);
        let ghost tree = nodes@;
        proof {
            let order = leaf_order(tree, 0);
            assert(order == leaf_order(filled, 0));
            assert(order.len() == ps.len());
            assert forall|j: int| 0 <= j < order.len() implies particles_dst@[j]
                == src[order[j] as int] by {
                assert(particles_dst@[0 + j] == src[order[j] as int]);
            }
            assert(particles_dst@ =~= arranged(src, order));
        }
        self.scratch = buffer;
        self.used = used;
        self.step_num = self.step_num.wrapping_add(1);
        proof {
            assert(self.scratch@.take(used as int) =~= tree);
        }
        Ok(StepReport { root_width: width, node_count: count })
    }
}

} // verus!
