//! The eight octants of a cube and the geometry of subdividing it.

use vstd::prelude::*;

verus! {

/// Bit `axis` of an octant code: 1 for the upper half along that axis.
pub open spec fn octant_bit(code: int, axis: int) -> int {
    if axis == 0 {
        code % 2
    } else if axis == 1 {
        (code / 2) % 2
    } else {
        (code / 4) % 2
    }
}

/// 1 where the point lies strictly above the centre along `axis`, else 0.
pub open spec fn upper_half(center: Seq<i64>, point: [i32; 3], axis: int) -> int {
    if point[axis] > center[axis] {
        1
    } else {
        0
    }
}

/// The octant of `point` in a cube centred at `center`: bit 0 is set for the
/// upper half in x, bit 1 in y, bit 2 in z. A coordinate equal to the
/// centre's counts as the lower half.
pub open spec fn octant_of(center: Seq<i64>, point: [i32; 3]) -> int {
    upper_half(center, point, 0) + 2 * upper_half(center, point, 1) + 4 * upper_half(
        center,
        point,
        2,
    )
}

/// The coordinate along `axis` of the centre of child `code` of a cube.
pub open spec fn child_coordinate(center: Seq<i64>, width: i64, code: int, axis: int) -> int {
    if octant_bit(code, axis) == 1 {
        center[axis] + width / 4
    } else {
        center[axis] - width / 4
    }
}

/// Whether the centres of all children of the cube are representable.
pub open spec fn cube_fits(center: Seq<i64>, width: i64) -> bool {
    &&& 0 <= width
    &&& forall|axis: int|
        0 <= axis < 3 ==> i64::MIN <= #[trigger] center[axis] - width / 2 && center[axis] + width
            / 2 <= i64::MAX
}

/// The centre of child `code` of the cube (`center`, `width`).
pub open spec fn child_center(center: Seq<i64>, width: i64, code: int) -> Seq<i64> {
    Seq::new(3, |axis: int| child_coordinate(center, width, code, axis) as i64)
}

/// Classifies `point` into one of the eight octants around `center`.
pub fn decide_octant(center: &[i64; 3], point: &[i32; 3]) -> (code: usize)
    ensures
        code == octant_of(center@, *point),
        code < 8,
        forall|axis: int|
            0 <= axis < 3 ==> (#[trigger] octant_bit(code as int, axis) == 1 <==> point[axis]
                > center[axis]),
{
    let mut code: usize = 0;
    if point[0] as i64 > center[0] {
        code += 1;
    }
    if point[1] as i64 > center[1] {
        code += 2;
    }
    if point[2] as i64 > center[2] {
        code += 4;
    }
    code
}

/// A point that shares a coordinate with the centre falls into the lower half
/// along that axis, and the octant depends on the two arguments alone.
pub proof fn lemma_octant_ties_go_low(center: Seq<i64>, point: [i32; 3], axis: int)
    requires
        0 <= axis < 3,
        point[axis] == center[axis],
    ensures
        octant_bit(octant_of(center, point), axis) == 0,
{
}

/// The octant code says, axis by axis, on which side of the centre the point
/// lies.
pub proof fn lemma_octant_bits(center: Seq<i64>, point: [i32; 3], axis: int)
    requires
        0 <= axis < 3,
    ensures
        0 <= octant_of(center, point) < 8,
        octant_bit(octant_of(center, point), axis) == upper_half(center, point, axis),
{
}

/// Moves the centre of a cube of width `node_width` to the centre of its
/// child `child_octant`: a quarter of the width up or down along each axis,
/// as the bits of the octant code say.
pub fn shift_node_center(node_center: &[i64; 3], node_width: i64, child_octant: usize) -> (shifted:
    [i64; 3])
    requires
        cube_fits(node_center@, node_width),
    ensures
        shifted@ == child_center(node_center@, node_width, child_octant as int),
        cube_fits(shifted@, (node_width / 2) as i64),
{
    let quarter = node_width / 4;
    assert(node_center@[0] - node_width / 2 >= i64::MIN);
    assert(node_center@[1] - node_width / 2 >= i64::MIN);
    assert(node_center@[2] - node_width / 2 >= i64::MIN);
    let x = if child_octant % 2 == 1 {
        node_center[0] + quarter
    } else {
        node_center[0] - quarter
    };
    let y = if (child_octant / 2) % 2 == 1 {
        node_center[1] + quarter
    } else {
        node_center[1] - quarter
    };
    let z = if (child_octant / 4) % 2 == 1 {
        node_center[2] + quarter
    } else {
        node_center[2] - quarter
    };
    let shifted = [x, y, z];
    assert(shifted@ =~= child_center(node_center@, node_width, child_octant as int));
    assert forall|axis: int| 0 <= axis < 3 implies i64::MIN <= #[trigger] shifted@[axis] - (
    node_width / 2) as i64 / 2 && shifted@[axis] + (node_width / 2) as i64 / 2 <= i64::MAX by {
        assert(node_center@[axis] - node_width / 2 >= i64::MIN);
    }
    shifted
}

} // verus!
