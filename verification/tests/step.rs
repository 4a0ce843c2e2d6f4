use barnes_hut::body::{Particle, SimParams};
use barnes_hut::node::OctantRaw;
use barnes_hut::slice_alloc::AllocError;
use barnes_hut::step::{StepCoordinator, StepReport, PARTICLES_PER_GROUP};

fn params(particle_num: u32) -> SimParams {
    SimParams { particle_num, g: 1, e: 2, dt: 3 }
}

fn body(position: [i32; 3], mass: u32) -> Particle {
    Particle { position, velocity: [7, 8, 9], acceleration: [1, 1, 1], mass }
}

fn blank() -> Particle {
    Particle { position: [0; 3], velocity: [0; 3], acceleration: [0; 3], mass: 0 }
}

fn filler() -> OctantRaw {
    OctantRaw { cog: [9, 9, 9], mass: 99, bodies: 999, children: [77; 8] }
}

fn four_bodies() -> Vec<Particle> {
    let u = 16384;
    vec![
        body([-3 * u, -3 * u, -3 * u], 1),
        body([-u, -u, -u], 1),
        body([3 * u, 3 * u, 3 * u], 1),
        body([u, u, u], 1),
    ]
}

#[test]
fn a_new_coordinator_has_made_no_step() {
    let sim = StepCoordinator::new(params(40)).unwrap();
    assert_eq!(sim.step_num(), 0);
    assert_eq!(sim.sim_params(), params(40));
    assert_eq!(sim.tree_capacity(), 160);
    assert_eq!(sim.source_index(), 0);
    assert_eq!(sim.dest_index(), 1);
    assert!(sim.nodes().is_empty());
}

#[test]
fn too_many_bodies_for_a_flat_tree() {
    assert!(StepCoordinator::new(params(u32::MAX)).is_none());
    assert!(StepCoordinator::new(params(1 << 30)).is_none());
}

#[test]
fn work_groups_round_up() {
    assert_eq!(PARTICLES_PER_GROUP, 64);
    assert_eq!(StepCoordinator::new(params(0)).unwrap().work_group_count(), 0);
    assert_eq!(StepCoordinator::new(params(1)).unwrap().work_group_count(), 1);
    assert_eq!(StepCoordinator::new(params(64)).unwrap().work_group_count(), 1);
    assert_eq!(StepCoordinator::new(params(65)).unwrap().work_group_count(), 2);
    assert_eq!(StepCoordinator::new(params(10000)).unwrap().work_group_count(), 157);
}

#[test]
fn a_step_builds_sorts_and_flattens() {
    let bodies = four_bodies();
    let mut sim = StepCoordinator::new(params(4)).unwrap();
    let mut sorted = vec![blank(); 4];
    let mut flat = vec![filler(); 16];
    let bump = bumpalo::Bump::new();
    let report = sim.step(&bodies, &bodies, &mut sorted, &mut flat, &bump);
    assert_eq!(report, Ok(StepReport { root_width: 131072, node_count: 7 }));
    assert_eq!(sorted, vec![bodies[0], bodies[1], bodies[3], bodies[2]]);
    assert_eq!(flat[0].children, [1, 0, 0, 0, 0, 0, 0, 4]);
    assert_eq!(flat[1].children, [2, 0, 0, 0, 0, 0, 0, 3]);
    assert_eq!(flat[4].children, [5, 0, 0, 0, 0, 0, 0, 6]);
    assert_eq!(flat[0].bodies, 4);
    assert_eq!(flat[0].mass, 4);
    assert_eq!(flat[6].cog, bodies[2].position);
    for rest in 7..16 {
        assert_eq!(flat[rest], filler());
    }
    assert_eq!(sim.nodes().len(), 7);
    assert_eq!(sim.nodes()[0].node_count, 7);
    assert_eq!(sim.step_num(), 1);
    assert_eq!(sim.source_index(), 1);
    assert_eq!(sim.dest_index(), 0);
}

#[test]
fn generations_take_turns() {
    let bodies = four_bodies();
    let mut sim = StepCoordinator::new(params(4)).unwrap();
    let bump = bumpalo::Bump::new();
    for tick in 0..5usize {
        assert_eq!(sim.source_index(), tick % 2);
        assert_eq!(sim.dest_index(), (tick + 1) % 2);
        let mut sorted = vec![blank(); 4];
        let mut flat = vec![filler(); 16];
        assert!(sim.step(&bodies, &bodies, &mut sorted, &mut flat, &bump).is_ok());
        assert_eq!(sim.step_num(), tick + 1);
    }
}

#[test]
fn a_step_without_bodies() {
    let mut sim = StepCoordinator::new(params(0)).unwrap();
    let mut sorted: Vec<Particle> = Vec::new();
    let mut flat: Vec<OctantRaw> = Vec::new();
    let bump = bumpalo::Bump::new();
    let report = sim.step(&[], &[], &mut sorted, &mut flat, &bump);
    assert_eq!(report, Ok(StepReport { root_width: 131072, node_count: 0 }));
    assert!(sim.nodes().is_empty());
    assert_eq!(sim.step_num(), 1);
}

#[test]
fn a_step_with_one_body() {
    let bodies = vec![body([100, -200, 300], 5)];
    let mut sim = StepCoordinator::new(params(1)).unwrap();
    let mut sorted = vec![blank(); 1];
    let mut flat = vec![filler(); 4];
    let bump = bumpalo::Bump::new();
    let report = sim.step(&bodies, &bodies, &mut sorted, &mut flat, &bump);
    assert_eq!(report, Ok(StepReport { root_width: 131072, node_count: 1 }));
    assert_eq!(sorted, bodies);
    assert_eq!(flat[0], OctantRaw { cog: [100, -200, 300], mass: 5, bodies: 1, children: [0; 8] });
    assert_eq!(flat[1], filler());
}

#[test]
fn a_failed_step_writes_nothing() {
    let bodies = vec![body([5, 5, 5], 1), body([5, 5, 5], 1)];
    let mut sim = StepCoordinator::new(params(2)).unwrap();
    let mut sorted = vec![blank(); 2];
    let mut flat = vec![filler(); 8];
    let bump = bumpalo::Bump::new();
    let report = sim.step(&bodies, &bodies, &mut sorted, &mut flat, &bump);
    assert_eq!(report, Err(AllocError::CapacityExceeded));
    assert_eq!(sorted, vec![blank(); 2]);
    assert_eq!(flat, vec![filler(); 8]);
    assert_eq!(sim.step_num(), 0);
    assert_eq!(sim.source_index(), 0);
}

#[test]
fn a_step_after_a_failed_one() {
    let mut sim = StepCoordinator::new(params(2)).unwrap();
    let bump = bumpalo::Bump::new();
    let same = vec![body([5, 5, 5], 1), body([5, 5, 5], 1)];
    let mut sorted = vec![blank(); 2];
    let mut flat = vec![filler(); 8];
    assert!(sim.step(&same, &same, &mut sorted, &mut flat, &bump).is_err());
    let apart = vec![body([40000, 0, 0], 1), body([-40000, 0, 0], 1)];
    let report = sim.step(&apart, &apart, &mut sorted, &mut flat, &bump);
    assert_eq!(report, Ok(StepReport { root_width: 131072, node_count: 3 }));
    assert_eq!(sorted, vec![apart[1], apart[0]]);
    assert_eq!(sim.step_num(), 1);
}

#[test]
fn a_step_makes_at_most_four_nodes_per_body() {
    let mut bodies = Vec::new();
    let mut seed: u64 = 31337;
    for i in 0..500u32 {
        seed = seed.wrapping_mul(6364136223846793005).wrapping_add(1442695040888963407);
        let x = ((seed >> 33) % 2000001) as i32 - 1000000;
        seed = seed.wrapping_mul(6364136223846793005).wrapping_add(1442695040888963407);
        let y = ((seed >> 33) % 2000001) as i32 - 1000000;
        seed = seed.wrapping_mul(6364136223846793005).wrapping_add(1442695040888963407);
        let z = ((seed >> 33) % 2000001) as i32 - 1000000;
        bodies.push(body([x, y, z], i));
    }
    let mut sim = StepCoordinator::new(params(500)).unwrap();
    let mut sorted = vec![blank(); 500];
    let mut flat = vec![filler(); 2000];
    let bump = bumpalo::Bump::new();
    let report = sim.step(&bodies, &bodies, &mut sorted, &mut flat, &bump).unwrap();
    assert!(report.node_count <= 2000);
    assert_eq!(report.node_count, sim.nodes().len());
    assert_eq!(sim.nodes()[0].bodies, 500);
    let mut masses: Vec<u32> = sorted.iter().map(|p| p.mass).collect();
    masses.sort();
    assert_eq!(masses, (0..500).collect::<Vec<u32>>());
    assert_eq!(flat[0].bodies, 500);
    assert_eq!(flat[0].mass, (0..500u64).sum::<u64>());
    for unused in report.node_count..2000 {
        assert_eq!(flat[unused], filler());
    }
}

#[test]
fn a_step_moves_whatever_stands_for_the_bodies() {
    let bodies = four_bodies();
    let labels: Vec<(f32, char)> = vec![(0.5, 'a'), (1.5, 'b'), (2.5, 'c'), (3.5, 'd')];
    let mut sim = StepCoordinator::new(params(4)).unwrap();
    let mut sorted = vec![(0.0f32, ' '); 4];
    let mut flat = vec![filler(); 16];
    let bump = bumpalo::Bump::new();
    assert!(sim.step(&bodies, &labels, &mut sorted, &mut flat, &bump).is_ok());
    assert_eq!(sorted, vec![(0.5, 'a'), (1.5, 'b'), (3.5, 'd'), (2.5, 'c')]);
}

#[test]
fn close_bodies_need_more_than_four_nodes_each() {
    let bodies = vec![body([1, 1, 1], 1), body([2, 2, 2], 1)];
    let mut sim = StepCoordinator::new(params(2)).unwrap();
    let mut sorted = vec![blank(); 2];
    let mut flat = vec![filler(); 8];
    let bump = bumpalo::Bump::new();
    let report = sim.step(&bodies, &bodies, &mut sorted, &mut flat, &bump);
    assert_eq!(report, Err(AllocError::CapacityExceeded));
    assert!(sim.nodes().is_empty());
}
