use boid_defense::geom::Vector;
use boid_defense::model::{Tag, FULL_HEALTH};
use boid_defense::population::{
    in_heading_disc, velocity_along,
    edge_point, respawn, setup_boids, setup_turrets, spawn_at_edge, spawn_count, INITIAL_FLOCK, SPAWN_SPEED,
    TARGET_POPULATION, TURRET_RANGE,
};

#[test]
fn spawn_count_closes_the_gap_five_at_a_time() {
    assert_eq!(spawn_count(0), 5);
    assert_eq!(spawn_count(145), 5);
    assert_eq!(spawn_count(148), 2);
    assert_eq!(spawn_count(149), 1);
    assert_eq!(spawn_count(150), 0);
    assert_eq!(spawn_count(200), 0);
}

#[test]
fn population_converges_without_overshoot() {
    let mut count: usize = 137;
    let mut ticks = 0;
    while count < TARGET_POPULATION {
        count += spawn_count(count);
        assert!(count <= TARGET_POPULATION);
        ticks += 1;
    }
    assert_eq!(ticks, 3);
    assert_eq!(count, 150);
    count += spawn_count(count);
    assert_eq!(count, 150);
}

#[test]
fn edge_points_lie_on_the_named_side() {
    assert_eq!(edge_point(0, 5, 640_000, 360_000), Vector { x: -640_000, y: 5 });
    assert_eq!(edge_point(1, 5, 640_000, 360_000), Vector { x: 640_000, y: 5 });
    assert_eq!(edge_point(2, 5, 640_000, 360_000), Vector { x: 5, y: -360_000 });
    assert_eq!(edge_point(3, 5, 640_000, 360_000), Vector { x: 5, y: 360_000 });
}

#[test]
fn spawned_boid_sits_on_an_edge_at_full_health() {
    for id in 0..50u64 {
        let b = spawn_at_edge(id, 640_000, 360_000);
        assert_eq!(b.id, id);
        assert_eq!(b.health, FULL_HEALTH);
        assert_eq!(b.tag, Tag::Normal);
        assert!(b.position.x.abs() == 640_000 || b.position.y.abs() == 360_000);
        assert!(b.velocity.x.abs() <= SPAWN_SPEED && b.velocity.y.abs() <= SPAWN_SPEED);
    }
}

#[test]
fn respawn_appends_fresh_boids_with_new_ids() {
    let mut flock = Vec::new();
    let mut next_id = 40;
    respawn(&mut flock, &mut next_id, 640_000, 360_000);
    assert_eq!(flock.len(), 5);
    assert_eq!(next_id, 45);
    let ids: Vec<u64> = flock.iter().map(|b| b.id).collect();
    assert_eq!(ids, vec![40, 41, 42, 43, 44]);
    let mut full = setup_boids(640_000, 360_000);
    full.truncate(150);
    respawn(&mut full, &mut next_id, 640_000, 360_000);
    assert_eq!(full.len(), 150);
    assert_eq!(next_id, 45);
}

#[test]
fn initial_world_layout() {
    let flock = setup_boids(640_000, 360_000);
    assert_eq!(flock.len(), INITIAL_FLOCK + 4);
    for (i, b) in flock.iter().enumerate() {
        assert_eq!(b.id, i as u64);
        assert!(b.position.x.abs() <= 640_000 && b.position.y.abs() <= 360_000);
    }
    assert_eq!(flock[150].tag, Tag::Pink);
    assert_eq!(flock[150].position, Vector { x: 200_000, y: 100_000 });
    assert_eq!(flock[151].position, Vector { x: 540_000, y: -260_000 });
    assert_eq!(flock[153].position, Vector { x: 480_000, y: -260_000 });
    assert_eq!(flock[153].tag, Tag::Red);
    assert_eq!(flock[153].flash.duration, 100_000);
    let turrets = setup_turrets(640_000, 360_000);
    let spots: Vec<Vector> = turrets.iter().map(|t| t.position).collect();
    assert_eq!(
        spots,
        vec![
            Vector { x: -426_666, y: -240_000 },
            Vector { x: 426_666, y: -240_000 },
            Vector { x: 0, y: 240_000 },
            Vector { x: -320_000, y: 180_000 },
            Vector { x: 320_000, y: 180_000 },
        ]
    );
    assert!(turrets.iter().all(|t| t.range == TURRET_RANGE && t.target.is_none()));
}

#[test]
fn random_placement_varies() {
    let flock = setup_boids(640_000, 360_000);
    let first = flock[0].position;
    assert!(flock[..150].iter().any(|b| b.position != first));
    let v = flock[0].velocity;
    assert!(flock[..150].iter().any(|b| b.velocity != v));
    let spawned: Vec<Vector> = (0..20u64).map(|id| spawn_at_edge(id, 640_000, 360_000).position).collect();
    assert!(spawned.iter().any(|p| *p != spawned[0]));
}

#[test]
fn plain_boids_cruise_between_300_and_500() {
    let flock = setup_boids(640_000, 360_000);
    for b in &flock[..150] {
        let s = (b.velocity.x as i128).pow(2) + (b.velocity.y as i128).pow(2);
        assert!(s >= 300_000i128 * 300_000 && s < 500_000i128 * 500_000);
        assert!(-640_000 <= b.position.x && b.position.x < 640_000);
        assert!(-360_000 <= b.position.y && b.position.y < 360_000);
    }
    assert!(flock[150].velocity.x >= -150_000 && flock[150].velocity.x < 150_000);
    assert_eq!(flock[150].flash.duration, 500_000);
    for b in &flock[151..] {
        assert!(b.velocity.x >= -100_000 && b.velocity.x < 100_000);
        assert!(b.velocity.y >= -100_000 && b.velocity.y < 100_000);
    }
}

#[test]
fn small_world_keeps_marked_spots() {
    let flock = setup_boids(50_000, 40_000);
    assert_eq!(flock.len(), 154);
    assert_eq!(flock[150].position, Vector { x: 200_000, y: 100_000 });
    assert_eq!(flock[151].position, Vector { x: -50_000, y: 60_000 });
    assert_eq!(flock[153].position, Vector { x: -110_000, y: 60_000 });
    for b in &flock[..150] {
        assert!(b.position.x.abs() <= 50_000 && b.position.y.abs() <= 40_000);
    }
}

#[test]
fn spawned_velocity_stays_in_half_open_range() {
    for id in 0..50u64 {
        let b = spawn_at_edge(id, 640_000, 360_000);
        assert!(b.velocity.x >= -SPAWN_SPEED && b.velocity.x < SPAWN_SPEED);
        assert!(b.velocity.y >= -SPAWN_SPEED && b.velocity.y < SPAWN_SPEED);
        assert_eq!(b.flash.duration, 500_000);
        assert_eq!(b.flash.elapsed, 0);
    }
}

#[test]
fn heading_disc_and_velocity_along() {
    assert!(in_heading_disc(&Vector { x: 600, y: 800 }));
    assert!(!in_heading_disc(&Vector { x: 800, y: 800 }));
    assert!(!in_heading_disc(&Vector { x: 0, y: 0 }));
    assert_eq!(velocity_along(&Vector { x: 3, y: 4 }, 300_000), Vector { x: 180_000, y: 240_000 });
    assert_eq!(velocity_along(&Vector::zero(), 300_000), Vector { x: 300_000, y: 0 });
    let v = velocity_along(&Vector { x: 1, y: 1 }, 300_000);
    let s = (v.x as i128).pow(2) + (v.y as i128).pow(2);
    assert!(s >= 300_000i128 * 300_000 && s <= 300_002i128 * 300_002);
}
