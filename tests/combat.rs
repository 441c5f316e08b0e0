use boid_defense::combat::{apply_damage, beams, nearest_boid, remove_dead, update_turrets, RETARGET_DELAY};
use boid_defense::geom::Vector;
use boid_defense::model::{find_boid, Boid, Countdown, Tag, Turret, FULL_HEALTH};

fn boid_at(id: u64, x: i64, y: i64) -> Boid {
    Boid {
        id,
        position: Vector { x, y },
        velocity: Vector { x: -100_000, y: 0 },
        acceleration: Vector::zero(),
        health: FULL_HEALTH,
        flash: Countdown::new(500_000),
        tag: Tag::Normal,
    }
}

fn turret_at_origin() -> Turret {
    Turret { position: Vector::zero(), range: 250_000, target: None, cooldown: Countdown::new(RETARGET_DELAY) }
}

#[test]
fn countdown_runs_once() {
    let mut c = Countdown::new(500_000);
    assert!(!c.finished());
    c.tick(300_000);
    assert!(!c.finished());
    c.tick(300_000);
    assert!(c.finished());
    assert_eq!(c.elapsed, 500_000);
    c.reset();
    assert!(!c.finished());
    assert_eq!(c.elapsed, 0);
}

#[test]
fn find_boid_by_id() {
    let flock = vec![boid_at(4, 0, 0), boid_at(9, 0, 0)];
    assert_eq!(find_boid(&flock, 9), Some(1));
    assert_eq!(find_boid(&flock, 5), None);
}

#[test]
fn nearest_boid_prefers_closest_and_first_on_ties() {
    let t = turret_at_origin();
    let flock = vec![boid_at(0, 200_000, 0), boid_at(1, 0, 100_000), boid_at(2, -100_000, 0), boid_at(3, 300_000, 0)];
    assert_eq!(nearest_boid(&t, &flock), Some(1));
    let far = vec![boid_at(0, 251_000, 0), boid_at(1, 0, -260_000)];
    assert_eq!(nearest_boid(&t, &far), None);
    let edge = vec![boid_at(0, 260_000, 0), boid_at(1, 0, -250_000)];
    assert_eq!(nearest_boid(&t, &edge), Some(1));
}

#[test]
fn turret_waits_out_cooldown_then_acquires() {
    let mut turrets = vec![turret_at_origin()];
    let flock = vec![boid_at(7, 100_000, 0)];
    update_turrets(&mut turrets, &flock, 400_000);
    assert_eq!(turrets[0].target, None);
    update_turrets(&mut turrets, &flock, 100_000);
    assert_eq!(turrets[0].target, Some(7));
    let b = beams(&turrets, &flock);
    assert_eq!(b.len(), 1);
    assert_eq!(b[0].owner, 0);
    assert_eq!(b[0].length, 100_000);
    assert_eq!(b[0].midpoint, Vector { x: 50_000, y: 0 });
    assert_eq!(b[0].direction, Vector { x: 100_000, y: 0 });
}

#[test]
fn engaged_boid_dies_after_two_seconds() {
    let mut turrets = vec![turret_at_origin()];
    let mut flock = vec![boid_at(7, 100_000, 0)];
    update_turrets(&mut turrets, &flock, 500_000);
    assert_eq!(turrets[0].target, Some(7));
    let mut ticks = 0;
    while !flock.is_empty() {
        update_turrets(&mut turrets, &flock, 100_000);
        assert_eq!(beams(&turrets, &flock).len(), 1);
        let before = flock[0].health;
        apply_damage(&mut flock, &turrets, 100_000);
        assert_eq!(flock[0].health, before - 50_000);
        remove_dead(&mut flock);
        ticks += 1;
    }
    assert_eq!(ticks, 20);
    update_turrets(&mut turrets, &flock, 100_000);
    assert_eq!(turrets[0].target, None);
    assert!(beams(&turrets, &flock).is_empty());
}

#[test]
fn boid_leaving_range_drops_beam_and_restarts_cooldown() {
    let mut turrets = vec![turret_at_origin()];
    let mut flock = vec![boid_at(7, 100_000, 0)];
    update_turrets(&mut turrets, &flock, 500_000);
    assert_eq!(turrets[0].target, Some(7));
    flock[0].position = Vector { x: 260_000, y: 0 };
    update_turrets(&mut turrets, &flock, 16_000);
    assert_eq!(turrets[0].target, None);
    assert_eq!(turrets[0].cooldown.elapsed, 0);
    assert!(beams(&turrets, &flock).is_empty());
    flock[0].position = Vector { x: 100_000, y: 0 };
    update_turrets(&mut turrets, &flock, 250_000);
    assert_eq!(turrets[0].target, None);
    update_turrets(&mut turrets, &flock, 249_000);
    assert_eq!(turrets[0].target, None);
    update_turrets(&mut turrets, &flock, 1_000);
    assert_eq!(turrets[0].target, Some(7));
}

#[test]
fn damage_counts_each_turret_and_restarts_flash() {
    let mut a = turret_at_origin();
    a.target = Some(1);
    let mut b = turret_at_origin();
    b.target = Some(1);
    b.position = Vector { x: 600_000, y: 0 };
    let mut c = turret_at_origin();
    c.target = Some(1);
    c.position = Vector { x: 0, y: 100_000 };
    let turrets = vec![a, b, c];
    let mut spent = boid_at(1, 100_000, 0);
    spent.flash = Countdown { duration: 100_000, elapsed: 100_000 };
    let mut flock = vec![boid_at(0, 0, 50_000), spent];
    apply_damage(&mut flock, &turrets, 200_000);
    assert_eq!(flock[0].health, FULL_HEALTH);
    assert_eq!(flock[1].health, FULL_HEALTH - 2 * 100_000);
    assert_eq!(flock[1].flash, Countdown { duration: 500_000, elapsed: 0 });
}

#[test]
fn damage_reaches_the_edge_of_range() {
    let mut t = turret_at_origin();
    t.target = Some(0);
    let mut flock = vec![boid_at(0, 250_000, 0)];
    apply_damage(&mut flock, &vec![t], 1_000_000);
    assert_eq!(flock[0].health, FULL_HEALTH - 500_000);
}

#[test]
fn remove_dead_keeps_order_of_the_living() {
    let mut flock = vec![boid_at(0, 0, 0), boid_at(1, 0, 0), boid_at(2, 0, 0), boid_at(3, 0, 0)];
    flock[1].health = 0;
    flock[3].health = -5;
    remove_dead(&mut flock);
    let ids: Vec<u64> = flock.iter().map(|b| b.id).collect();
    assert_eq!(ids, vec![0, 2]);
}

#[test]
fn one_beam_per_engaged_turret() {
    let mut a = turret_at_origin();
    a.target = Some(3);
    let b = turret_at_origin();
    let mut c = turret_at_origin();
    c.target = Some(9);
    let mut d = turret_at_origin();
    d.target = Some(3);
    d.position = Vector { x: -40_000, y: 30_000 };
    let flock = vec![boid_at(3, 0, 80_000)];
    let out = beams(&vec![a, b, c, d], &flock);
    let owners: Vec<usize> = out.iter().map(|b| b.owner).collect();
    assert_eq!(owners, vec![0, 3]);
    assert_eq!(out[1].length, 64_032);
}

#[test]
fn aim_points_from_turret_to_target() {
    let mut t = turret_at_origin();
    t.position = Vector { x: 10_000, y: -5_000 };
    let flock = vec![boid_at(2, 40_000, 35_000)];
    assert_eq!(t.aim(&flock), None);
    t.target = Some(2);
    assert_eq!(t.aim(&flock), Some(Vector { x: 30_000, y: 40_000 }));
    t.target = Some(3);
    assert_eq!(t.aim(&flock), None);
}

#[test]
fn target_at_the_edge_of_range_is_kept_and_acquired() {
    let mut turrets = vec![turret_at_origin()];
    let mut flock = vec![boid_at(7, 0, 250_000)];
    update_turrets(&mut turrets, &flock, 500_000);
    assert_eq!(turrets[0].target, Some(7));
    flock[0].position = Vector { x: 150_000, y: -200_000 };
    update_turrets(&mut turrets, &flock, 16_000);
    assert_eq!(turrets[0].target, Some(7));
    flock[0].position = Vector { x: 150_000, y: -200_001 };
    update_turrets(&mut turrets, &flock, 16_000);
    assert_eq!(turrets[0].target, None);
}
