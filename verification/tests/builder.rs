use barnes_hut::body::Particle;
use barnes_hut::builder::{build_tree, build_tree_in};
use barnes_hut::node::OctantNode;
use barnes_hut::slice_alloc::{AllocError, SliceAlloc};

fn body(position: [i32; 3], mass: u32) -> Particle {
    Particle { position, velocity: [1, 2, 3], acceleration: [4, 5, 6], mass }
}

fn arena(slots: usize) -> SliceAlloc<OctantNode> {
    SliceAlloc::wrap(vec![OctantNode::default(); slots])
}

fn children_of(node: &OctantNode) -> Vec<(usize, usize)> {
    let mut found = Vec::new();
    for k in 0..8 {
        if let Some(c) = node.children[k] {
            found.push((k, c));
        }
    }
    found
}

#[test]
fn two_bodies_in_opposite_corners() {
    let bodies = [body([-1, -1, -1], 1), body([1, 1, 1], 1)];
    let bump = bumpalo::Bump::new();
    let mut nodes = arena(8);
    let built = build_tree_in(&bodies, [0, 0, 0], 4, &mut nodes, &bump);
    assert!(built.is_ok());
    assert_eq!(nodes.len(), 3);
    let tree = nodes.as_slice();
    assert_eq!(tree[0].bodies, 2);
    assert_eq!(tree[0].mass, 2);
    assert_eq!(tree[0].cog, [0, 0, 0]);
    assert_eq!(children_of(&tree[0]), vec![(0, 1), (7, 2)]);
    assert_eq!(tree[1].bodies, 1);
    assert_eq!(tree[1].cog, [-1, -1, -1]);
    assert_eq!(tree[1].mass, 1);
    assert_eq!(tree[1].one_body, 0);
    assert_eq!(tree[2].bodies, 1);
    assert_eq!(tree[2].cog, [1, 1, 1]);
    assert_eq!(tree[2].mass, 1);
    assert_eq!(tree[2].one_body, 1);
    assert!(children_of(&tree[1]).is_empty());
    assert!(children_of(&tree[2]).is_empty());
}

#[test]
fn no_bodies_no_nodes() {
    let bump = bumpalo::Bump::new();
    let mut nodes = arena(4);
    assert!(build_tree_in(&[], [0, 0, 0], 4, &mut nodes, &bump).is_ok());
    assert_eq!(nodes.len(), 0);
    let mut none = arena(0);
    assert_eq!(build_tree(&[], &mut none, &bump), Ok(131072));
    assert_eq!(none.len(), 0);
}

#[test]
fn one_body_is_a_leaf_root() {
    let bodies = [body([5, -6, 7], 9)];
    let bump = bumpalo::Bump::new();
    let mut nodes = arena(4);
    assert!(build_tree_in(&bodies, [0, 0, 0], 64, &mut nodes, &bump).is_ok());
    assert_eq!(nodes.len(), 1);
    let root = nodes.as_slice()[0];
    assert_eq!(root.bodies, 1);
    assert_eq!(root.cog, [5, -6, 7]);
    assert_eq!(root.mass, 9);
    assert_eq!(root.one_body, 0);
    assert!(children_of(&root).is_empty());
}

#[test]
fn one_body_needs_one_slot() {
    let bodies = [body([5, -6, 7], 9)];
    let bump = bumpalo::Bump::new();
    let mut none = arena(0);
    assert_eq!(
        build_tree_in(&bodies, [0, 0, 0], 64, &mut none, &bump),
        Err(AllocError::CapacityExceeded)
    );
}

#[test]
fn build_resets_the_arena_first() {
    let bodies = [body([-1, -1, -1], 1), body([1, 1, 1], 1)];
    let bump = bumpalo::Bump::new();
    let mut nodes = arena(3);
    let _ = nodes.reserve();
    let _ = nodes.reserve();
    assert!(build_tree_in(&bodies, [0, 0, 0], 4, &mut nodes, &bump).is_ok());
    assert_eq!(nodes.len(), 3);
    assert!(build_tree_in(&bodies, [0, 0, 0], 4, &mut nodes, &bump).is_ok());
    assert_eq!(nodes.len(), 3);
}

#[test]
fn nodes_come_level_by_level() {
    let bodies = [
        body([-3, -3, -3], 1),
        body([-1, -1, -1], 1),
        body([3, 3, 3], 1),
        body([1, 1, 1], 1),
    ];
    let bump = bumpalo::Bump::new();
    let mut nodes = arena(16);
    assert!(build_tree_in(&bodies, [0, 0, 0], 8, &mut nodes, &bump).is_ok());
    assert_eq!(nodes.len(), 7);
    let tree = nodes.as_slice();
    assert_eq!(children_of(&tree[0]), vec![(0, 1), (7, 2)]);
    assert_eq!(children_of(&tree[1]), vec![(0, 3), (7, 4)]);
    assert_eq!(children_of(&tree[2]), vec![(0, 5), (7, 6)]);
    assert_eq!(tree[0].bodies, 4);
    assert_eq!(tree[1].bodies, 2);
    assert_eq!(tree[2].bodies, 2);
    assert_eq!(tree[3].one_body, 0);
    assert_eq!(tree[4].one_body, 1);
    assert_eq!(tree[5].one_body, 3);
    assert_eq!(tree[6].one_body, 2);
    assert_eq!(tree[0].cog, [0, 0, 0]);
    assert_eq!(tree[1].cog, [-2, -2, -2]);
    assert_eq!(tree[2].cog, [2, 2, 2]);
    assert_eq!(tree[0].mass, 4);
    assert_eq!(tree[1].mass, 2);
    assert_eq!(tree[2].mass, 2);
    for node in tree {
        assert_eq!(node.node_count, 0);
    }
}

#[test]
fn centre_of_gravity_is_weighted_by_mass() {
    let bodies = [body([-10, 20, 0], 3), body([10, 40, 8], 1)];
    let bump = bumpalo::Bump::new();
    let mut nodes = arena(8);
    assert!(build_tree_in(&bodies, [0, 0, 0], 64, &mut nodes, &bump).is_ok());
    let root = nodes.as_slice()[0];
    assert_eq!(root.mass, 4);
    assert_eq!(root.cog, [-5, 25, 2]);
}

#[test]
fn centre_of_gravity_rounds_towards_zero() {
    let bodies = [body([-3, 3, -1], 1), body([0, 0, 0], 1)];
    let bump = bumpalo::Bump::new();
    let mut nodes = arena(32);
    assert!(build_tree_in(&bodies, [5, -5, 5], 64, &mut nodes, &bump).is_ok());
    let root = nodes.as_slice()[0];
    assert_eq!(root.mass, 2);
    assert_eq!(root.cog, [-1, 1, 0]);
}

#[test]
fn a_group_without_mass_has_its_centre_at_zero() {
    let bodies = [body([-7, -7, -7], 0), body([9, 9, 9], 0)];
    let bump = bumpalo::Bump::new();
    let mut nodes = arena(8);
    assert!(build_tree_in(&bodies, [0, 0, 0], 64, &mut nodes, &bump).is_ok());
    let tree = nodes.as_slice();
    assert_eq!(tree[0].mass, 0);
    assert_eq!(tree[0].cog, [0, 0, 0]);
    assert_eq!(tree[0].bodies, 2);
    assert_eq!(tree[1].cog, [-7, -7, -7]);
    assert_eq!(tree[2].cog, [9, 9, 9]);
}

#[test]
fn heavy_bodies_do_not_overflow() {
    let bodies = [
        body([i32::MAX, i32::MIN, i32::MAX], u32::MAX),
        body([i32::MAX, i32::MIN, i32::MIN], u32::MAX),
    ];
    let bump = bumpalo::Bump::new();
    let mut nodes = arena(8);
    assert!(build_tree_in(&bodies, [0, 0, 0], 1 << 33, &mut nodes, &bump).is_ok());
    let root = nodes.as_slice()[0];
    assert_eq!(root.mass, 2 * (u32::MAX as u64));
    assert_eq!(root.cog, [i32::MAX, i32::MIN, 0]);
}

#[test]
fn bodies_at_one_place_exhaust_the_arena() {
    let bodies = [body([3, 3, 3], 1), body([3, 3, 3], 1)];
    let bump = bumpalo::Bump::new();
    let mut nodes = arena(64);
    assert_eq!(
        build_tree_in(&bodies, [0, 0, 0], 16, &mut nodes, &bump),
        Err(AllocError::CapacityExceeded)
    );
    assert_eq!(nodes.len(), 64);
    assert_eq!(nodes.slots(), 64);
}

#[test]
fn capacity_is_exactly_the_number_of_nodes() {
    let bodies = [body([-1, -1, -1], 1), body([1, 1, 1], 1)];
    let bump = bumpalo::Bump::new();
    let mut tight = arena(3);
    assert!(build_tree_in(&bodies, [0, 0, 0], 4, &mut tight, &bump).is_ok());
    let mut short = arena(2);
    assert_eq!(
        build_tree_in(&bodies, [0, 0, 0], 4, &mut short, &bump),
        Err(AllocError::CapacityExceeded)
    );
    let mut shorter = arena(1);
    assert_eq!(
        build_tree_in(&bodies, [0, 0, 0], 4, &mut shorter, &bump),
        Err(AllocError::CapacityExceeded)
    );
}

#[test]
fn close_bodies_make_a_chain() {
    let bodies = [body([1, 1, 1], 1), body([2, 2, 2], 1)];
    let bump = bumpalo::Bump::new();
    let mut nodes = arena(16);
    assert!(build_tree_in(&bodies, [0, 0, 0], 16, &mut nodes, &bump).is_ok());
    let tree = nodes.as_slice();
    assert_eq!(nodes.len(), 6);
    assert_eq!(children_of(&tree[0]), vec![(7, 1)]);
    assert_eq!(children_of(&tree[1]), vec![(0, 2)]);
    assert_eq!(children_of(&tree[2]), vec![(0, 3)]);
    assert_eq!(children_of(&tree[3]), vec![(0, 4), (7, 5)]);
    assert_eq!(tree[1].bodies, 2);
    assert_eq!(tree[2].bodies, 2);
    assert_eq!(tree[3].bodies, 2);
    assert_eq!(tree[4].one_body, 0);
    assert_eq!(tree[5].one_body, 1);
}

#[test]
fn build_tree_uses_the_bounding_cube() {
    let u = 16384;
    let bodies = [
        body([-3 * u, -3 * u, -3 * u], 1),
        body([-u, -u, -u], 1),
        body([3 * u, 3 * u, 3 * u], 1),
        body([u, u, u], 1),
    ];
    let bump = bumpalo::Bump::new();
    let mut nodes = arena(16);
    assert_eq!(build_tree(&bodies, &mut nodes, &bump), Ok(131072));
    assert_eq!(nodes.len(), 7);
    let tree = nodes.as_slice();
    assert_eq!(children_of(&tree[0]), vec![(0, 1), (7, 2)]);
    assert_eq!(children_of(&tree[1]), vec![(0, 3), (7, 4)]);
    assert_eq!(children_of(&tree[2]), vec![(0, 5), (7, 6)]);
    assert_eq!(tree[1].cog, [-2 * u, -2 * u, -2 * u]);
}

#[test]
fn build_tree_widens_the_cube_to_far_bodies() {
    let bodies = [body([-200000, 0, 0], 1), body([100000, 0, 0], 1)];
    let bump = bumpalo::Bump::new();
    let mut nodes = arena(8);
    assert_eq!(build_tree(&bodies, &mut nodes, &bump), Ok(400000));
    assert_eq!(nodes.len(), 3);
    let tree = nodes.as_slice();
    assert_eq!(children_of(&tree[0]), vec![(0, 1), (1, 2)]);
}

#[test]
fn root_mass_is_the_sum_of_all_masses() {
    let mut bodies = Vec::new();
    let mut seed: u64 = 12345;
    let mut total: u64 = 0;
    for _ in 0..200 {
        seed = seed.wrapping_mul(6364136223846793005).wrapping_add(1442695040888963407);
        let x = ((seed >> 33) % 131072) as i32 - 65536;
        seed = seed.wrapping_mul(6364136223846793005).wrapping_add(1442695040888963407);
        let y = ((seed >> 33) % 131072) as i32 - 65536;
        seed = seed.wrapping_mul(6364136223846793005).wrapping_add(1442695040888963407);
        let z = ((seed >> 33) % 131072) as i32 - 65536;
        let mass = ((seed >> 20) % 1000) as u32;
        total += mass as u64;
        bodies.push(body([x, y, z], mass));
    }
    let bump = bumpalo::Bump::new();
    let mut nodes = arena(4 * bodies.len());
    assert!(build_tree(&bodies, &mut nodes, &bump).is_ok());
    let tree = nodes.as_slice();
    assert_eq!(tree[0].mass, total);
    assert_eq!(tree[0].bodies, 200);
    assert!(nodes.len() <= 4 * bodies.len());
    for node in tree {
        if node.bodies == 1 {
            assert_eq!(node.cog, bodies[node.one_body].position);
            assert_eq!(node.mass, bodies[node.one_body].mass as u64);
        } else {
            let mut sum = 0u64;
            let mut count = 0u32;
            for (_, c) in children_of(node) {
                sum += tree[c].mass;
                count += tree[c].bodies;
            }
            assert_eq!(node.mass, sum);
            assert_eq!(node.bodies, count);
        }
    }
}
