use boid_defense::flock::MAX_SPEED;
use boid_defense::geom::Vector;
use boid_defense::world::World;
use boid_defense::combat::RETARGET_DELAY;
use boid_defense::model::{Boid, Countdown, Tag, Turret, FULL_HEALTH};

#[test]
fn world_ticks_keep_invariants() {
    let mut w = World::new(640_000, 360_000);
    assert_eq!(w.boids.len(), 154);
    assert_eq!(w.turrets.len(), 5);
    for _ in 0..300 {
        let wander = vec![Vector { x: 3_000, y: -2_000 }; w.boids.len()];
        w.tick(&wander, 16_667);
        for b in &w.boids {
            assert!(b.position.x.abs() <= 640_000 && b.position.y.abs() <= 360_000);
            assert!(b.health > 0);
            let s = (b.velocity.x as i128).pow(2) + (b.velocity.y as i128).pow(2);
            assert!(s <= (MAX_SPEED as i128).pow(2));
        }
        for i in 0..w.beams.len() {
            for j in i + 1..w.beams.len() {
                assert_ne!(w.beams[i].owner, w.beams[j].owner);
            }
        }
        let ids: Vec<u64> = w.boids.iter().map(|b| b.id).collect();
        assert!(ids.windows(2).all(|p| p[0] < p[1]));
    }
}

fn lone_target_world() -> World {
    World {
        boids: vec![Boid {
            id: 0,
            position: Vector { x: 100_000, y: 0 },
            velocity: Vector { x: -100_000, y: 0 },
            acceleration: Vector::zero(),
            health: FULL_HEALTH,
            flash: Countdown::new(500_000),
            tag: Tag::Normal,
        }],
        turrets: vec![Turret {
            position: Vector::zero(),
            range: 250_000,
            target: None,
            cooldown: Countdown::new(RETARGET_DELAY),
        }],
        beams: Vec::new(),
        next_id: 1,
        half_w: 4_000_000,
        half_h: 4_000_000,
    }
}

#[test]
fn turret_kills_lone_boid_after_two_seconds_of_fire() {
    let mut w = lone_target_world();
    let mut first_fire = None;
    let mut death = None;
    for tick in 1..=40 {
        let wander = vec![Vector::zero(); w.boids.len()];
        w.tick(&wander, 100_000);
        let alive = w.boids.iter().any(|b| b.id == 0);
        if first_fire.is_none() && w.turrets[0].target == Some(0) {
            first_fire = Some(tick);
            assert_eq!(w.beams.len(), 1);
            assert_eq!(w.beams[0].owner, 0);
            assert_eq!(w.boids[0].health, 950_000);
        }
        if !alive && death.is_none() {
            death = Some(tick);
        }
    }
    assert_eq!(first_fire, Some(5));
    assert_eq!(death, Some(24));
    assert!(w.boids.len() <= 150);
}

#[test]
fn population_refills_to_target() {
    let mut w = lone_target_world();
    w.turrets.clear();
    for _ in 0..40 {
        let wander = vec![Vector::zero(); w.boids.len()];
        w.tick(&wander, 10_000);
        assert!(w.boids.len() <= 150);
    }
    assert_eq!(w.boids.len(), 150);
}
