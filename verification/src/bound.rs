//! The bounding estimator: the half-width of a cube around the origin that
//! holds every body.

use crate::body::{Particle, ONE};
use rayon::iter::{IntoParallelRefIterator, ParallelIterator};
use vstd::prelude::*;

verus! {

/// The distance of a coordinate from zero.
pub open spec fn magnitude(x: i32) -> int {
    if x < 0 {
        -(x as int)
    } else {
        x as int
    }
}

/// The larger of two integers.
pub open spec fn larger(a: int, b: int) -> int {
    if a >= b {
        a
    } else {
        b
    }
}

/// The largest distance from zero, along `axis`, of any of the bodies; zero
/// where there is no body.
pub open spec fn peak(ps: Seq<Particle>, axis: int) -> int
    decreases ps.len(),
{
    if ps.len() == 0 {
        0
    } else {
        larger(peak(ps.drop_last(), axis), magnitude(ps.last().position[axis]))
    }
}

/// The half-width of the bounding cube: the largest distance from zero of any
/// coordinate of any body, and at least one unit of length.
pub open spec fn bounding_half_width(ps: Seq<Particle>) -> int {
    larger(ONE as int, larger(peak(ps, 0), larger(peak(ps, 1), peak(ps, 2))))
}

/// The extent that stands in for an empty range of bodies: one unit along
/// each axis.
pub fn unit_extent() -> (e: [i64; 3])
    ensures
        forall|axis: int| 0 <= axis < 3 ==> #[trigger] e@[axis] == ONE,
{
    [ONE as i64, ONE as i64, ONE as i64]
}

/// The distance of one coordinate from zero.
fn coordinate_magnitude(x: i32) -> (m: i64)
    ensures
        m == magnitude(x),
{
    if x < 0 {
        -(x as i64)
    } else {
        x as i64
    }
}

/// The extent of a single body: the distance of each coordinate from zero.
pub fn extent_of(p: &Particle) -> (e: [i64; 3])
    ensures
        forall|axis: int| 0 <= axis < 3 ==> #[trigger] e@[axis] == magnitude(p.position[axis]),
{
    [
        coordinate_magnitude(p.position[0]),
        coordinate_magnitude(p.position[1]),
        coordinate_magnitude(p.position[2]),
    ]
}

/// The larger of two values.
fn larger_of(a: i64, b: i64) -> (m: i64)
    ensures
        m == larger(a as int, b as int),
{
    if a >= b {
        a
    } else {
        b
    }
}

/// Joins two extents: along each axis the larger of the two.
pub fn merge_extent(a: [i64; 3], b: [i64; 3]) -> (e: [i64; 3])
    ensures
        forall|axis: int|
            0 <= axis < 3 ==> #[trigger] e@[axis] == larger(a@[axis] as int, b@[axis] as int),
{
    [larger_of(a[0], b[0]), larger_of(a[1], b[1]), larger_of(a[2], b[2])]
}

/// rayon's `ParallelIterator::reduce`, over the extents of the bodies, with
/// `unit_extent` as the identity and `merge_extent` as the operation.
/// Trusted: rayon splits the range as it sees fit, starts each part from the
/// identity and joins the parts with the operation, so along each axis the
/// result is the largest extent of any body, with or without the unit
/// extent joined in.
#[verifier::external_body]
fn reduce_extents(particles: &[Particle]) -> (e: [i64; 3])
    ensures
        forall|axis: int|
            0 <= axis < 3 ==> #[trigger] e@[axis] == peak(particles@, axis) || e@[axis] == larger(
                ONE as int,
                peak(particles@, axis),
            ),
{
    particles.par_iter().map(|p| extent_of(p)).reduce(|| unit_extent(), |a, b| merge_extent(a, b))
}

/// The half-width of a cube around the origin that holds every body, and at
/// least one unit of length (which is what an empty input gives).
pub fn bounding_estimate(particles: &[Particle]) -> (bound: i64)
    ensures
        bound == bounding_half_width(particles@),
        ONE <= bound <= 0x8000_0000,
{
    let e = reduce_extents(particles);
    proof {
        lemma_peak_range(particles@, 0);
        lemma_peak_range(particles@, 1);
        lemma_peak_range(particles@, 2);
    }
    larger_of(ONE as i64, larger_of(e[0], larger_of(e[1], e[2])))
}

/// The width of the root cube that goes with a bounding half-width.
pub fn root_width(bound: i64) -> (width: i64)
    requires
        0 <= bound <= 0x8000_0000,
    ensures
        width == 2 * bound,
{
    2 * bound
}

/// A peak is a distance: never negative, never beyond what a coordinate can
/// hold.
pub proof fn lemma_peak_range(ps: Seq<Particle>, axis: int)
    requires
        0 <= axis < 3,
    ensures
        0 <= peak(ps, axis) <= 0x8000_0000,
    decreases ps.len(),
{
    if ps.len() > 0 {
        lemma_peak_range(ps.drop_last(), axis);
    }
}

/// No body has a coordinate further from zero than the peak along that axis.
pub proof fn lemma_peak_covers(ps: Seq<Particle>, i: int, axis: int)
    requires
        0 <= i < ps.len(),
        0 <= axis < 3,
    ensures
        magnitude(ps[i].position[axis]) <= peak(ps, axis),
    decreases ps.len(),
{
    if i < ps.len() - 1 {
        lemma_peak_covers(ps.drop_last(), i, axis);
    }
}

/// Every body lies in the cube of the bounding half-width around the origin.
pub proof fn lemma_bound_covers(ps: Seq<Particle>, i: int, axis: int)
    requires
        0 <= i < ps.len(),
        0 <= axis < 3,
    ensures
        -bounding_half_width(ps) <= ps[i].position[axis] <= bounding_half_width(ps),
{
    lemma_peak_covers(ps, i, axis);
}

} // verus!
