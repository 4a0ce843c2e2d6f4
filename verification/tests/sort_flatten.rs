use barnes_hut::body::Particle;
use barnes_hut::builder::build_tree_in;
use barnes_hut::flatten::{flatten_octree, flatten_octree_level_order, flatten_octree_pre_order};
use barnes_hut::node::{OctantNode, OctantRaw, TraversalMode};
use barnes_hut::slice_alloc::SliceAlloc;
use barnes_hut::sorter::{sort_particles_count_nodes, sort_particles_count_nodes_recursive};

fn body(position: [i32; 3], mass: u32) -> Particle {
    Particle { position, velocity: [position[0], 0, 0], acceleration: [0, position[1], 0], mass }
}

fn blank() -> Particle {
    Particle { position: [0; 3], velocity: [0; 3], acceleration: [0; 3], mass: 0 }
}

fn filler() -> OctantRaw {
    OctantRaw { cog: [9, 9, 9], mass: 99, bodies: 999, children: [77; 8] }
}

fn four_bodies() -> Vec<Particle> {
    vec![
        body([-3, -3, -3], 1),
        body([-1, -1, -1], 2),
        body([3, 3, 3], 3),
        body([1, 1, 1], 4),
    ]
}

fn tree_of(bodies: &[Particle], width: i64) -> Vec<OctantNode> {
    let bump = bumpalo::Bump::new();
    let mut arena = SliceAlloc::wrap(vec![OctantNode::default(); 4 * bodies.len() + 8]);
    assert!(build_tree_in(bodies, [0, 0, 0], width, &mut arena, &bump).is_ok());
    let used = arena.len();
    let mut nodes = arena.into_inner();
    nodes.truncate(used);
    nodes
}

#[test]
fn sorting_follows_the_tree() {
    let bodies = four_bodies();
    let mut nodes = tree_of(&bodies, 8);
    let mut sorted = vec![blank(); 4];
    let count = sort_particles_count_nodes(&mut nodes, &bodies, &mut sorted);
    assert_eq!(count, 7);
    assert_eq!(sorted, vec![bodies[0], bodies[1], bodies[3], bodies[2]]);
}

#[test]
fn sorting_counts_every_subtree() {
    let bodies = four_bodies();
    let mut nodes = tree_of(&bodies, 8);
    let mut sorted = vec![blank(); 4];
    sort_particles_count_nodes(&mut nodes, &bodies, &mut sorted);
    let counts: Vec<usize> = nodes.iter().map(|n| n.node_count).collect();
    assert_eq!(counts, vec![7, 3, 3, 1, 1, 1, 1]);
}

#[test]
fn sorting_keeps_everything_but_the_counts() {
    let bodies = four_bodies();
    let before = tree_of(&bodies, 8);
    let mut nodes = before.clone();
    let mut sorted = vec![blank(); 4];
    sort_particles_count_nodes(&mut nodes, &bodies, &mut sorted);
    for (a, b) in before.iter().zip(nodes.iter()) {
        assert_eq!(a.cog, b.cog);
        assert_eq!(a.mass, b.mass);
        assert_eq!(a.bodies, b.bodies);
        assert_eq!(a.children, b.children);
        assert_eq!(a.one_body, b.one_body);
    }
}

#[test]
fn sorting_three_leaves_under_the_root() {
    let bodies = vec![body([1, 1, 1], 1), body([-1, -1, -1], 1), body([1, 1, -1], 1)];
    let mut nodes = tree_of(&bodies, 4);
    assert_eq!(nodes.len(), 4);
    let mut sorted = vec![blank(); 3];
    assert_eq!(sort_particles_count_nodes(&mut nodes, &bodies, &mut sorted), 4);
    assert_eq!(sorted, vec![bodies[1], bodies[2], bodies[0]]);
}

#[test]
fn sorting_nothing() {
    let mut nodes: Vec<OctantNode> = Vec::new();
    let mut sorted: Vec<Particle> = Vec::new();
    assert_eq!(sort_particles_count_nodes(&mut nodes, &[], &mut sorted), 0);
    assert!(sorted.is_empty());
}

#[test]
fn sorting_one_body() {
    let bodies = vec![body([4, 5, 6], 7)];
    let mut nodes = tree_of(&bodies, 64);
    let mut sorted = vec![blank(); 1];
    assert_eq!(sort_particles_count_nodes(&mut nodes, &bodies, &mut sorted), 1);
    assert_eq!(sorted, bodies);
    assert_eq!(nodes[0].node_count, 1);
}

#[test]
fn sorting_a_subtree_touches_only_its_range() {
    let bodies = four_bodies();
    let mut nodes = tree_of(&bodies, 8);
    let marker = body([42, 42, 42], 42);
    let mut sorted = vec![marker; 6];
    let count = sort_particles_count_nodes_recursive(&mut nodes, 2, &bodies, &mut sorted, 3);
    assert_eq!(count, 3);
    assert_eq!(sorted, vec![marker, marker, marker, bodies[3], bodies[2], marker]);
    assert_eq!(nodes[2].node_count, 3);
    assert_eq!(nodes[5].node_count, 1);
    assert_eq!(nodes[6].node_count, 1);
    assert_eq!(nodes[0].node_count, 0);
    assert_eq!(nodes[1].node_count, 0);
}

#[test]
fn sorted_bodies_are_a_permutation() {
    let mut bodies = Vec::new();
    let mut seed: u64 = 99;
    for i in 0..300u32 {
        seed = seed.wrapping_mul(6364136223846793005).wrapping_add(1442695040888963407);
        let x = ((seed >> 33) % 2000000) as i32 - 1000000;
        seed = seed.wrapping_mul(6364136223846793005).wrapping_add(1442695040888963407);
        let y = ((seed >> 33) % 2000000) as i32 - 1000000;
        seed = seed.wrapping_mul(6364136223846793005).wrapping_add(1442695040888963407);
        let z = ((seed >> 33) % 2000000) as i32 - 1000000;
        bodies.push(body([x, y, z], i));
    }
    let mut nodes = tree_of(&bodies, 4000000);
    let mut sorted = vec![blank(); bodies.len()];
    let count = sort_particles_count_nodes(&mut nodes, &bodies, &mut sorted);
    assert_eq!(count, nodes.len());
    let mut masses: Vec<u32> = sorted.iter().map(|p| p.mass).collect();
    masses.sort();
    let expected: Vec<u32> = (0..300).collect();
    assert_eq!(masses, expected);
    for p in &sorted {
        assert_eq!(*p, bodies[p.mass as usize]);
    }
}

#[test]
fn subtrees_lie_side_by_side() {
    let mut bodies = Vec::new();
    let mut seed: u64 = 7;
    for i in 0..120u32 {
        seed = seed.wrapping_mul(6364136223846793005).wrapping_add(1442695040888963407);
        let x = ((seed >> 33) % 2000000) as i32 - 1000000;
        seed = seed.wrapping_mul(6364136223846793005).wrapping_add(1442695040888963407);
        let y = ((seed >> 33) % 2000000) as i32 - 1000000;
        seed = seed.wrapping_mul(6364136223846793005).wrapping_add(1442695040888963407);
        let z = ((seed >> 33) % 2000000) as i32 - 1000000;
        bodies.push(body([x, y, z], i));
    }
    let mut nodes = tree_of(&bodies, 4000000);
    let mut sorted = vec![blank(); bodies.len()];
    sort_particles_count_nodes(&mut nodes, &bodies, &mut sorted);
    let mut start = vec![0usize; nodes.len()];
    for i in 0..nodes.len() {
        if nodes[i].bodies == 1 {
            assert_eq!(sorted[start[i]], bodies[nodes[i].one_body]);
            continue;
        }
        let mut at = start[i];
        for k in 0..8 {
            if let Some(c) = nodes[i].children[k] {
                start[c] = at;
                at += nodes[c].bodies as usize;
            }
        }
        assert_eq!(at, start[i] + nodes[i].bodies as usize);
    }
    for i in 0..nodes.len() {
        let mut below = Vec::new();
        let mut stack = vec![i];
        while let Some(n) = stack.pop() {
            if nodes[n].bodies == 1 {
                below.push(nodes[n].one_body as u32);
            }
            for k in 0..8 {
                if let Some(c) = nodes[n].children[k] {
                    stack.push(c);
                }
            }
        }
        let mut range: Vec<u32> =
            sorted[start[i]..start[i] + nodes[i].bodies as usize].iter().map(|p| p.mass).collect();
        below.sort();
        range.sort();
        assert_eq!(range, below);
    }
}

#[test]
fn flattening_in_pre_order() {
    let bodies = four_bodies();
    let mut nodes = tree_of(&bodies, 8);
    let mut sorted = vec![blank(); 4];
    sort_particles_count_nodes(&mut nodes, &bodies, &mut sorted);
    let mut flat = vec![filler(); 9];
    flatten_octree(&nodes, &mut flat, TraversalMode::PreOrder);
    assert_eq!(flat[0].children, [1, 0, 0, 0, 0, 0, 0, 4]);
    assert_eq!(flat[1].children, [2, 0, 0, 0, 0, 0, 0, 3]);
    assert_eq!(flat[4].children, [5, 0, 0, 0, 0, 0, 0, 6]);
    for leaf in [2, 3, 5, 6] {
        assert_eq!(flat[leaf].children, [0; 8]);
        assert_eq!(flat[leaf].bodies, 1);
    }
    assert_eq!(flat[0].bodies, 4);
    assert_eq!(flat[0].mass, 10);
    assert_eq!(flat[0].cog, [0, 0, 0]);
    assert_eq!(flat[1].bodies, 2);
    assert_eq!(flat[1].mass, 3);
    assert_eq!(flat[1].cog, [-1, -1, -1]);
    assert_eq!(flat[4].mass, 7);
    assert_eq!(flat[4].cog, [1, 1, 1]);
    assert_eq!(flat[2].cog, [-3, -3, -3]);
    assert_eq!(flat[3].cog, [-1, -1, -1]);
    assert_eq!(flat[5].cog, [1, 1, 1]);
    assert_eq!(flat[6].cog, [3, 3, 3]);
    assert_eq!(flat[2].mass, 1);
    assert_eq!(flat[3].mass, 2);
    assert_eq!(flat[5].mass, 4);
    assert_eq!(flat[6].mass, 3);
    assert_eq!(flat[7], filler());
    assert_eq!(flat[8], filler());
}

#[test]
fn flat_children_stand_behind_their_parent() {
    let mut bodies = Vec::new();
    let mut seed: u64 = 2024;
    for i in 0..150u32 {
        seed = seed.wrapping_mul(6364136223846793005).wrapping_add(1442695040888963407);
        let x = ((seed >> 33) % 2000000) as i32 - 1000000;
        seed = seed.wrapping_mul(6364136223846793005).wrapping_add(1442695040888963407);
        let y = ((seed >> 33) % 2000000) as i32 - 1000000;
        seed = seed.wrapping_mul(6364136223846793005).wrapping_add(1442695040888963407);
        let z = ((seed >> 33) % 2000000) as i32 - 1000000;
        bodies.push(body([x, y, z], i + 1));
    }
    let mut nodes = tree_of(&bodies, 4000000);
    let mut sorted = vec![blank(); bodies.len()];
    let count = sort_particles_count_nodes(&mut nodes, &bodies, &mut sorted);
    let mut flat = vec![filler(); count];
    flatten_octree(&nodes, &mut flat, TraversalMode::PreOrder);
    let mut seen = vec![false; count];
    seen[0] = true;
    for (at, raw) in flat.iter().enumerate() {
        assert_ne!(*raw, filler());
        let mut mass = 0u64;
        let mut below = 0u32;
        for k in 0..8 {
            let child = raw.children[k] as usize;
            if child != 0 {
                assert!(child > at);
                assert!(child < count);
                assert!(!seen[child]);
                seen[child] = true;
                mass += flat[child].mass;
                below += flat[child].bodies;
            }
        }
        if raw.bodies != 1 {
            assert_eq!(raw.mass, mass);
            assert_eq!(raw.bodies, below);
        } else {
            assert_eq!(raw.children, [0; 8]);
        }
    }
    assert!(seen.iter().all(|s| *s));
}

#[test]
fn flattening_a_subtree_at_an_offset() {
    let bodies = four_bodies();
    let mut nodes = tree_of(&bodies, 8);
    let mut sorted = vec![blank(); 4];
    sort_particles_count_nodes(&mut nodes, &bodies, &mut sorted);
    let mut flat = vec![filler(); 8];
    flatten_octree_pre_order(&nodes, 1, &mut flat, 2);
    assert_eq!(flat[0], filler());
    assert_eq!(flat[1], filler());
    assert_eq!(flat[2].children, [3, 0, 0, 0, 0, 0, 0, 4]);
    assert_eq!(flat[2].bodies, 2);
    assert_eq!(flat[3].cog, [-3, -3, -3]);
    assert_eq!(flat[4].cog, [-1, -1, -1]);
    assert_eq!(flat[5], filler());
}

#[test]
fn flattening_one_leaf() {
    let bodies = vec![body([4, 5, 6], 7)];
    let mut nodes = tree_of(&bodies, 64);
    let mut sorted = vec![blank(); 1];
    sort_particles_count_nodes(&mut nodes, &bodies, &mut sorted);
    let mut flat = vec![filler(); 2];
    flatten_octree(&nodes, &mut flat, TraversalMode::PreOrder);
    assert_eq!(flat[0], OctantRaw { cog: [4, 5, 6], mass: 7, bodies: 1, children: [0; 8] });
    assert_eq!(flat[1], filler());
}

#[test]
fn flattening_nothing() {
    let nodes: Vec<OctantNode> = Vec::new();
    let mut flat = vec![filler(); 2];
    flatten_octree(&nodes, &mut flat, TraversalMode::PreOrder);
    assert_eq!(flat, vec![filler(); 2]);
}

#[test]
fn level_order_is_not_provided() {
    let bodies = four_bodies();
    let mut nodes = tree_of(&bodies, 8);
    let mut sorted = vec![blank(); 4];
    sort_particles_count_nodes(&mut nodes, &bodies, &mut sorted);
    let mut flat = vec![filler(); 7];
    flatten_octree(&nodes, &mut flat, TraversalMode::LevelOrder);
    assert_eq!(flat, vec![filler(); 7]);
    flatten_octree_level_order(&nodes, &mut flat, 0);
    assert_eq!(flat, vec![filler(); 7]);
}

#[test]
fn raw_node_starts_without_children() {
    let node = OctantNode {
        cog: [1, 2, 3],
        mass: 4,
        bodies: 5,
        node_count: 6,
        children: [Some(1), None, None, Some(2), None, None, None, None],
        one_body: 0,
    };
    let raw = OctantRaw::from(&node);
    assert_eq!(raw, OctantRaw { cog: [1, 2, 3], mass: 4, bodies: 5, children: [0; 8] });
    assert_eq!(OctantNode::default().children, [None; 8]);
    assert_eq!(OctantNode::default().bodies, 0);
}
