//! The bodies of the simulation. Coordinates and masses are fixed-point
//! integers: a coordinate counts steps of `1 / ONE`, a mass counts whatever
//! unit the caller fixes.

use vstd::prelude::*;

verus! {

/// The coordinate value that stands for the length one.
pub const ONE: i32 = 65536;

/// One body: where it is, how it moves, and how heavy it is.
#[derive(Clone, Copy, Debug, PartialEq, Eq)]
pub struct Particle {
    pub position: [i32; 3],
    pub velocity: [i32; 3],
    pub acceleration: [i32; 3],
    pub mass: u32,
}

/// The parameters of a simulation that the tree pipeline carries along. Only
/// `particle_num` is read here; the others are words that belong to the
/// force evaluation and are passed on as they are.
#[derive(Clone, Copy, Debug, PartialEq, Eq)]
pub struct SimParams {
    /// Number of bodies.
    pub particle_num: u32,
    /// Gravitational constant, as the force evaluation encodes it.
    pub g: u32,
    /// Softening length, as the force evaluation encodes it.
    pub e: u32,
    /// Time step, as the force evaluation encodes it.
    pub dt: u32,
}

/// The sum of the masses of the bodies named by `bodies`.
pub open spec fn total_mass(ps: Seq<Particle>, bodies: Seq<usize>) -> int
    decreases bodies.len(),
{
    if bodies.len() == 0 {
        0
    } else {
        total_mass(ps, bodies.drop_last()) + ps[bodies.last() as int].mass
    }
}

/// The sum over the bodies named by `bodies` of mass times coordinate along
/// `axis`.
pub open spec fn weighted_sum(ps: Seq<Particle>, bodies: Seq<usize>, axis: int) -> int
    decreases bodies.len(),
{
    if bodies.len() == 0 {
        0
    } else {
        weighted_sum(ps, bodies.drop_last(), axis) + ps[bodies.last() as int].mass
            * ps[bodies.last() as int].position[axis]
    }
}

/// The quotient of `num` by a positive `den`, rounded towards zero.
pub open spec fn div_toward_zero(num: int, den: int) -> int {
    if num >= 0 {
        num / den
    } else {
        -((-num) / den)
    }
}

/// The centre of gravity along `axis` of the bodies named by `bodies`: the
/// mass-weighted mean of their coordinates, rounded towards zero. A group
/// without mass has its centre at zero.
pub open spec fn center_of_gravity(ps: Seq<Particle>, bodies: Seq<usize>, axis: int) -> int {
    if total_mass(ps, bodies) == 0 {
        0
    } else {
        div_toward_zero(weighted_sum(ps, bodies, axis), total_mass(ps, bodies))
    }
}

} // verus!
