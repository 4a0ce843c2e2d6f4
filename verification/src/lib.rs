//! Barnes-Hut octree construction over fixed-point bodies, with proved
//! contracts.
//!
//! One tick of an n-body simulation needs, from the bodies as they stand, a
//! tree that sums up distant groups of bodies, the bodies reordered along
//! that tree, and the tree in a flat form:
//!
//! - [`bound`] finds the cube around the origin that holds every body;
//! - [`slice_alloc`] hands out the slots of a fixed buffer, one reservation
//!   each;
//! - [`builder`] builds the tree into such slots, level by level, from a
//!   queue of partitions ([`octant`] has the geometry, [`index_list`] the
//!   lists of bodies, [`octree`] says what the tree of a set of bodies is);
//! - [`sorter`] copies the bodies into tree order and counts the nodes of
//!   every subtree;
//! - [`flatten`] lays the tree out in pre-order, children named by position;
//! - [`step`] runs these in the order they need one another;
//! - [`laws`] proves what holds of every such tree: mass is conserved, a leaf
//!   is its body, sorting permutes, subtrees lie side by side.
//!
//! Coordinates and masses are integers (see [`body`]), so every sum here is
//! exact and every contract is an equation.

pub mod body;
pub mod bound;
pub mod builder;
pub mod flatten;
pub mod index_list;
pub mod laws;
pub mod node;
pub mod octant;
pub mod octree;
pub mod slice_alloc;
pub mod sorter;
pub mod step;
pub mod tree;
