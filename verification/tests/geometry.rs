use barnes_hut::body::{Particle, ONE};
use barnes_hut::bound::{bounding_estimate, extent_of, merge_extent, root_width, unit_extent};
use barnes_hut::octant::{decide_octant, shift_node_center};

fn body(position: [i32; 3]) -> Particle {
    Particle { position, velocity: [0; 3], acceleration: [0; 3], mass: 1 }
}

#[test]
fn octant_codes_follow_the_bits() {
    let center = [0i64, 0, 0];
    assert_eq!(decide_octant(&center, &[-1, -1, -1]), 0);
    assert_eq!(decide_octant(&center, &[1, -1, -1]), 1);
    assert_eq!(decide_octant(&center, &[-1, 1, -1]), 2);
    assert_eq!(decide_octant(&center, &[1, 1, -1]), 3);
    assert_eq!(decide_octant(&center, &[-1, -1, 1]), 4);
    assert_eq!(decide_octant(&center, &[1, -1, 1]), 5);
    assert_eq!(decide_octant(&center, &[-1, 1, 1]), 6);
    assert_eq!(decide_octant(&center, &[1, 1, 1]), 7);
}

#[test]
fn octant_ties_go_to_the_lower_half() {
    let center = [10i64, -20, 30];
    assert_eq!(decide_octant(&center, &[10, -20, 30]), 0);
    assert_eq!(decide_octant(&center, &[11, -20, 30]), 1);
    assert_eq!(decide_octant(&center, &[10, -19, 30]), 2);
    assert_eq!(decide_octant(&center, &[10, -20, 31]), 4);
    assert_eq!(decide_octant(&center, &[11, -20, 31]), 5);
}

#[test]
fn octant_is_the_same_on_every_call() {
    let center = [3i64, 4, 5];
    let point = [7, 4, -2];
    let first = decide_octant(&center, &point);
    for _ in 0..10 {
        assert_eq!(decide_octant(&center, &point), first);
    }
    assert_eq!(first, 1);
}

#[test]
fn octant_at_the_ends_of_the_range() {
    let center = [i64::MAX, i64::MIN, 0];
    assert_eq!(decide_octant(&center, &[i32::MAX, i32::MIN, 0]), 2);
    let low = [i64::MIN, i64::MIN, i64::MIN];
    assert_eq!(decide_octant(&low, &[i32::MIN, i32::MIN, i32::MIN]), 7);
}

#[test]
fn shift_moves_a_quarter_width_per_axis() {
    let center = [0i64, 0, 0];
    assert_eq!(shift_node_center(&center, 4, 0), [-1, -1, -1]);
    assert_eq!(shift_node_center(&center, 4, 7), [1, 1, 1]);
    assert_eq!(shift_node_center(&center, 4, 1), [1, -1, -1]);
    assert_eq!(shift_node_center(&center, 4, 2), [-1, 1, -1]);
    assert_eq!(shift_node_center(&center, 4, 4), [-1, -1, 1]);
    assert_eq!(shift_node_center(&[100, 200, 300], 40, 5), [110, 190, 310]);
}

#[test]
fn shift_rounds_the_quarter_down() {
    assert_eq!(shift_node_center(&[0, 0, 0], 7, 7), [1, 1, 1]);
    assert_eq!(shift_node_center(&[0, 0, 0], 7, 0), [-1, -1, -1]);
    assert_eq!(shift_node_center(&[5, 5, 5], 3, 3), [5, 5, 5]);
    assert_eq!(shift_node_center(&[5, 5, 5], 0, 6), [5, 5, 5]);
}

#[test]
fn shift_reads_only_the_low_three_bits() {
    assert_eq!(shift_node_center(&[0, 0, 0], 8, 8), [-2, -2, -2]);
    assert_eq!(shift_node_center(&[0, 0, 0], 8, 9), [2, -2, -2]);
    assert_eq!(shift_node_center(&[0, 0, 0], 8, 15), [2, 2, 2]);
}

#[test]
fn bound_of_nothing_is_one() {
    assert_eq!(bounding_estimate(&[]), ONE as i64);
    assert_eq!(ONE, 65536);
}

#[test]
fn bound_is_at_least_one() {
    let bodies = [body([0, 0, 0]), body([10, -20, 30])];
    assert_eq!(bounding_estimate(&bodies), 65536);
}

#[test]
fn bound_is_the_largest_magnitude() {
    let bodies = [body([70000, 1, 2]), body([3, -80000, 4]), body([5, 6, 75000])];
    assert_eq!(bounding_estimate(&bodies), 80000);
    let bodies = [body([-70000, 1, 2]), body([3, 4, -90000])];
    assert_eq!(bounding_estimate(&bodies), 90000);
}

#[test]
fn bound_of_the_least_coordinate() {
    let bodies = [body([i32::MIN, 0, 0]), body([i32::MAX, 0, 0])];
    assert_eq!(bounding_estimate(&bodies), 2147483648);
    assert_eq!(root_width(2147483648), 4294967296);
}

#[test]
fn bound_over_many_bodies() {
    let mut bodies = Vec::new();
    for i in 0..20000i32 {
        bodies.push(body([i * 7 % 100003, -(i * 13 % 200003), i]));
    }
    bodies[12345].position = [0, 0, -654321];
    assert_eq!(bounding_estimate(&bodies), 654321);
    bodies[12345].position = [0, 0, 0];
    bodies[19999].position = [777777, 0, 0];
    assert_eq!(bounding_estimate(&bodies), 777777);
}

#[test]
fn extents_merge_axis_by_axis() {
    assert_eq!(unit_extent(), [65536, 65536, 65536]);
    assert_eq!(extent_of(&body([-5, 6, i32::MIN])), [5, 6, 2147483648]);
    assert_eq!(merge_extent([1, 9, 3], [4, 2, 3]), [4, 9, 3]);
}

#[test]
fn root_width_is_twice_the_bound() {
    assert_eq!(root_width(65536), 131072);
    assert_eq!(root_width(0), 0);
}
