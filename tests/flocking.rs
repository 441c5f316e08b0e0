use boid_defense::flock::{
    edge_push, flocking, integrate, push_away, steering, update_boids, wrap, wrap_boids, MAX_SPEED, MIN_SPEED,
};
use boid_defense::geom::Vector;
use boid_defense::model::{Boid, Countdown, Tag, FULL_HEALTH};

fn boid(id: u64, x: i64, y: i64, vx: i64, vy: i64) -> Boid {
    Boid {
        id,
        position: Vector { x, y },
        velocity: Vector { x: vx, y: vy },
        acceleration: Vector::zero(),
        health: FULL_HEALTH,
        flash: Countdown::new(500_000),
        tag: Tag::Normal,
    }
}

#[test]
fn edge_push_grows_toward_the_border() {
    let half = 640_000;
    assert_eq!(edge_push(0, half), 0);
    assert_eq!(edge_push(half, half), -300_000);
    assert_eq!(edge_push(-half, half), 300_000);
    assert_eq!(edge_push(half - 75_000, half), -75_000);
    assert_eq!(edge_push(half - 150_000, half), 0);
}

#[test]
fn push_away_is_scaled_by_closeness() {
    let a = Vector { x: 0, y: 0 };
    let b = Vector { x: 30_000, y: 0 };
    assert_eq!(push_away(a, b), Vector { x: -250, y: 0 });
    assert_eq!(push_away(a, Vector { x: 50_000, y: 0 }), Vector { x: 0, y: 0 });
}

#[test]
fn close_pair_is_pushed_apart() {
    let flock = vec![boid(0, 0, 0, 0, 0), boid(1, 30_000, 0, 0, 0)];
    let a = flocking(&flock, &flock[0], 640_000, 360_000);
    let b = flocking(&flock, &flock[1], 640_000, 360_000);
    assert_eq!(a, Vector { x: -788_000, y: 0 });
    assert_eq!(b, Vector { x: 788_000, y: 0 });
}

#[test]
fn lone_boid_has_no_flocking_steering() {
    let flock = vec![boid(0, 0, 0, 100_000, 0), boid(1, 500_000, 0, 0, 0)];
    assert_eq!(flocking(&flock, &flock[0], 640_000, 360_000), Vector::zero());
}

#[test]
fn steering_adds_edge_flocking_and_wander() {
    let flock = vec![boid(0, 640_000, 0, 0, 0)];
    let wander = Vector { x: 5_000, y: -7_000 };
    assert_eq!(steering(&flock, &flock[0], 640_000, 360_000, wander), Vector { x: -295_000, y: -7_000 });
}

#[test]
fn integration_caps_speed() {
    let v = integrate(Vector { x: 600_000, y: 0 }, Vector { x: 1_300_000, y: 0 }, 1_000_000);
    assert_eq!(v, Vector { x: MAX_SPEED, y: 0 });
}

#[test]
fn integration_raises_slow_boids_before_second_step() {
    // The floor is applied between the two steps; the second step can take
    // the speed under it again.
    let v = integrate(Vector { x: 150_000, y: 0 }, Vector { x: -90_000, y: 0 }, 1_000_000);
    assert_eq!(v, Vector { x: 10_000, y: 0 });
    let w = integrate(Vector { x: 50_000, y: 0 }, Vector { x: 0, y: 0 }, 1_000_000);
    assert_eq!(w, Vector { x: MIN_SPEED, y: 0 });
}

#[test]
fn integration_damps() {
    let v = integrate(Vector { x: 200_000, y: 0 }, Vector::zero(), 16_000);
    assert_eq!(v, Vector { x: 198_000, y: 0 });
}

#[test]
fn update_boids_moves_every_boid_within_speed_bounds() {
    let mut flock = vec![
        boid(0, 0, 0, 300_000, 0),
        boid(1, 20_000, 0, 0, 300_000),
        boid(2, -600_000, 300_000, -500_000, 500_000),
    ];
    let wander = vec![Vector::zero(), Vector { x: 20_000, y: 0 }, Vector { x: 0, y: -20_000 }];
    update_boids(&mut flock, &wander, 640_000, 360_000, 16_000);
    assert_eq!(flock.len(), 3);
    for b in &flock {
        let s = (b.velocity.x as i128).pow(2) + (b.velocity.y as i128).pow(2);
        assert!(s <= (MAX_SPEED as i128).pow(2));
        assert_eq!(b.flash.elapsed, 16_000);
    }
    assert_eq!(flock[0].id, 0);
    assert!(flock[0].position.x > 0);
}

#[test]
fn wrap_moves_to_opposite_border() {
    assert_eq!(wrap(640_001, 640_000), -640_000);
    assert_eq!(wrap(-640_001, 640_000), 640_000);
    assert_eq!(wrap(12, 640_000), 12);
    let mut flock = vec![boid(0, 700_000, -400_000, 0, 0)];
    wrap_boids(&mut flock, 640_000, 360_000);
    assert_eq!(flock[0].position, Vector { x: -640_000, y: 360_000 });
}

#[test]
fn coincident_boid_counts_as_neighbor_without_push() {
    let flock = vec![boid(0, 0, 0, 0, 0), boid(1, 0, 0, 0, 0), boid(2, 30_000, 0, 0, 0)];
    // The coincident boid adds no push but pulls the centre toward the first.
    let a = flocking(&flock, &flock[0], 640_000, 360_000);
    assert_eq!(a, Vector { x: -788_000, y: 0 });
    let alone = vec![boid(0, 0, 0, 0, 0), boid(1, 0, 0, 0, 0)];
    assert_eq!(flocking(&alone, &alone[0], 640_000, 360_000), Vector::zero());
}

#[test]
fn fast_boid_is_clamped_and_slow_boid_raised() {
    let mut flock = vec![boid(0, -200_000, 0, 1_000_000, 0), boid(1, 200_000, 0, 50_000, 0)];
    let wander = vec![Vector::zero(), Vector::zero()];
    update_boids(&mut flock, &wander, 640_000, 360_000, 0);
    assert_eq!(flock[0].velocity, Vector { x: MAX_SPEED, y: 0 });
    assert_eq!(flock[1].velocity, Vector { x: MIN_SPEED, y: 0 });
    assert_eq!(flock[0].position, Vector { x: -200_000, y: 0 });
    assert_eq!(flock[1].position, Vector { x: 200_000, y: 0 });
}

#[test]
fn edge_push_past_the_border_exceeds_border_force() {
    assert_eq!(edge_push(640_000 + 150_000, 640_000), -1_200_000);
    let mut flock = vec![boid(0, 200_000, 100_000, 0, 0)];
    let wander = vec![Vector::zero()];
    update_boids(&mut flock, &wander, 100_000, 100_000, 1_000);
    wrap_boids(&mut flock, 100_000, 100_000);
    assert!(flock[0].position.x.abs() <= 100_000 && flock[0].position.y.abs() <= 100_000);
}

#[test]
fn speed_floor_is_never_short() {
    let v = integrate(Vector { x: 100, y: 100 }, Vector::zero(), 0);
    let s = (v.x as i128).pow(2) + (v.y as i128).pow(2);
    assert!(s >= (MIN_SPEED as i128).pow(2));
}
