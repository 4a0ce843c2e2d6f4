//! The nodes of the tree: the form that the builder fills in, and the flat
//! form that is handed on.

use vstd::prelude::*;

verus! {

/// A node of the tree while it is built and traversed. Its children are named
/// by their slot in the arena. A node with exactly one body is a leaf.
#[derive(Clone, Copy, Debug, PartialEq, Eq)]
pub struct OctantNode {
    /// Centre of gravity of the bodies below this node.
    pub cog: [i32; 3],
    /// Sum of the masses of the bodies below this node.
    pub mass: u64,
    /// Number of bodies below this node.
    pub bodies: u32,
    /// Number of nodes in the subtree rooted here, once counted.
    pub node_count: usize,
    /// Arena slot of the child in each octant.
    pub children: [Option<usize>; 8],
    /// For a leaf, the index of its body; otherwise zero.
    pub one_body: usize,
}

/// A node in the flat form. A child is named by its position in the flat
/// array; zero stands for no child.
///
/// Child octant positions:
/// ```text
/// Front: -z   Back: +z
/// |---|---|   |---|---|
/// | 2 | 3 |   | 6 | 7 |
/// |---|---|   |---|---|
/// | 0 | 1 |   | 4 | 5 |
/// |---|---|   |---|---|
/// ```
#[derive(Clone, Copy, Debug, PartialEq, Eq)]
pub struct OctantRaw {
    pub cog: [i32; 3],
    pub mass: u64,
    pub bodies: u32,
    pub children: [u32; 8],
}

/// How the flat array is laid out.
#[derive(Clone, Copy, Debug, PartialEq, Eq)]
pub enum TraversalMode {
    LevelOrder,
    PreOrder,
}

/// The node without bodies, mass or children.
pub open spec fn empty_node() -> OctantNode {
    OctantNode {
        cog: [0i32, 0i32, 0i32],
        mass: 0,
        bodies: 0,
        node_count: 0,
        children: [
            None::<usize>,
            None::<usize>,
            None::<usize>,
            None::<usize>,
            None::<usize>,
            None::<usize>,
            None::<usize>,
            None::<usize>,
        ],
        one_body: 0,
    }
}

impl Default for OctantNode {
    fn default() -> (node: OctantNode)
        ensures
            node == empty_node(),
    {
        OctantNode {
            cog: [0, 0, 0],
            mass: 0,
            bodies: 0,
            node_count: 0,
            children: [None, None, None, None, None, None, None, None],
            one_body: 0,
        }
    }
}

/// Whether `raw` is the flat form of `node` with its children at the given
/// positions.
pub open spec fn raw_matches(raw: OctantRaw, node: OctantNode, children: Seq<u32>) -> bool {
    &&& raw.cog == node.cog
    &&& raw.mass == node.mass
    &&& raw.bodies == node.bodies
    &&& raw.children@ == children
}

/// Eight times "no child".
pub open spec fn no_children() -> Seq<u32> {
    Seq::new(8, |k: int| 0u32)
}

impl OctantRaw {
    /// The flat form of a node, with no child entered yet.
    pub fn from(o: &OctantNode) -> (raw: OctantRaw)
        ensures
            raw_matches(raw, *o, no_children()),
    {
        let raw = OctantRaw { cog: o.cog, mass: o.mass, bodies: o.bodies, children: [0; 8] };
        assert(raw.children@ =~= no_children());
        raw
    }
}

} // verus!
