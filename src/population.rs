//! Seeding the world and keeping the flock topped up.
use vstd::prelude::*;
use rand::Rng;
use crate::geom::{Vector, UNIT, abs, lemma_square_monotone, reaching_length_spec};
use crate::flock::lemma_component_of_short;
use crate::model::{Boid, Turret, Countdown, Tag, FULL_HEALTH, WORLD_LIMIT, HALF_LIMIT, BORDER_SLACK};
use crate::combat::{RETARGET_DELAY, FLASH_DURATION};

verus! {

/// The flock size that the population manager keeps up.
pub const TARGET_POPULATION: usize = 150;

/// Most boids spawned in one tick.
pub const SPAWN_BATCH: usize = 5;

/// Bound on each velocity component of a boid spawned at an edge.
pub const SPAWN_SPEED: i64 = 150 * UNIT;

/// Turret range.
pub const TURRET_RANGE: i64 = 250 * UNIT;

/// Relies on `rand::rng` and `Rng::random_range`: a value drawn uniformly
/// from `lo..hi`. `random_range` panics on an empty range, which `requires`
/// leaves out.
#[verifier::external_body]
fn random_in(lo: i64, hi: i64) -> (r: i64)
    requires
        lo < hi,
    ensures
        lo <= r < hi,
{
    rand::rng().random_range(lo..hi)
}

/// Number of boids to spawn when `count` are alive.
pub open spec fn spawn_count_spec(count: int) -> int {
    if count < TARGET_POPULATION {
        if TARGET_POPULATION - count < SPAWN_BATCH { TARGET_POPULATION - count } else { SPAWN_BATCH as int }
    } else {
        0
    }
}

/// Number of boids to spawn this tick: enough to close the gap to the target
/// population, at most `SPAWN_BATCH`.
pub fn spawn_count(count: usize) -> (r: usize)
    ensures
        r == spawn_count_spec(count as int),
{
    if count < TARGET_POPULATION {
        let gap = TARGET_POPULATION - count;
        if gap < SPAWN_BATCH { gap } else { SPAWN_BATCH }
    } else {
        0
    }
}

/// Population after `ticks` ticks of top-up with no deaths.
pub open spec fn population_after(count: int, ticks: nat) -> int
    decreases ticks,
{
    if ticks == 0 {
        count
    } else {
        let next = count + spawn_count_spec(count);
        population_after(next, (ticks - 1) as nat)
    }
}

/// Without deaths, a population below the target never passes it and
/// reaches it after `ceil((TARGET_POPULATION - count) / SPAWN_BATCH)` ticks,
/// staying there afterwards.
pub proof fn lemma_population_converges(count: int, ticks: nat)
    requires
        0 <= count <= TARGET_POPULATION,
    ensures
        count <= population_after(count, ticks) <= TARGET_POPULATION,
        ticks * SPAWN_BATCH >= TARGET_POPULATION - count ==> population_after(count, ticks) == TARGET_POPULATION,
    decreases ticks,
{
    if ticks > 0 {
        let next = count + spawn_count_spec(count);
        lemma_population_converges(next, (ticks - 1) as nat);
        assert((ticks - 1) * SPAWN_BATCH == ticks * SPAWN_BATCH - SPAWN_BATCH) by (nonlinear_arith);
    }
}

/// Point on the world's border: `edge` 0 is the left side, 1 the right,
/// 2 the bottom and any other value the top; `along` is the coordinate along it.
pub open spec fn edge_point_spec(edge: i64, along: i64, half_w: i64, half_h: i64) -> Vector {
    if edge == 0 {
        Vector { x: (-half_w) as i64, y: along }
    } else if edge == 1 {
        Vector { x: half_w, y: along }
    } else if edge == 2 {
        Vector { x: along, y: (-half_h) as i64 }
    } else {
        Vector { x: along, y: half_h }
    }
}

pub fn edge_point(edge: i64, along: i64, half_w: i64, half_h: i64) -> (r: Vector)
    requires
        0 <= half_w <= WORLD_LIMIT,
        0 <= half_h <= WORLD_LIMIT,
    ensures
        r == edge_point_spec(edge, along, half_w, half_h),
{
    if edge == 0 {
        Vector { x: -half_w, y: along }
    } else if edge == 1 {
        Vector { x: half_w, y: along }
    } else if edge == 2 {
        Vector { x: along, y: -half_h }
    } else {
        Vector { x: along, y: half_h }
    }
}

/// A point on the border of the world `[-half_w, half_w] x [-half_h, half_h]`.
pub open spec fn on_border(p: Vector, half_w: int, half_h: int) -> bool {
    ||| abs(p.x as int) == half_w && -half_h <= p.y < half_h
    ||| abs(p.y as int) == half_h && -half_w <= p.x < half_w
}

/// A fresh boid: full health, not flashing, no acceleration.
pub open spec fn fresh(b: Boid, id: u64, tag: Tag) -> bool {
    &&& b.id == id
    &&& b.tag == tag
    &&& b.health == FULL_HEALTH
    &&& b.acceleration == (Vector { x: 0, y: 0 })
    &&& b.flash.wf()
}

/// Each component of `v` lies in `[-bound, bound)`.
pub open spec fn drawn_within(v: Vector, bound: int) -> bool {
    -bound <= v.x < bound && -bound <= v.y < bound
}

/// A boid spawned at a random point of a random edge, moving at a random
/// velocity with each component in `[-SPAWN_SPEED, SPAWN_SPEED)`.
pub fn spawn_at_edge(id: u64, half_w: i64, half_h: i64) -> (r: Boid)
    requires
        0 < half_w <= WORLD_LIMIT,
        0 < half_h <= WORLD_LIMIT,
    ensures
        fresh(r, id, Tag::Normal),
        r.flash == Countdown::new_spec(FLASH_DURATION),
        on_border(r.position, half_w as int, half_h as int),
        drawn_within(r.velocity, SPAWN_SPEED as int),
{
    let edge = random_in(0, 4);
    let position = if edge < 2 {
        edge_point(edge, random_in(-half_h, half_h), half_w, half_h)
    } else {
        edge_point(edge, random_in(-half_w, half_w), half_w, half_h)
    };
    let velocity = Vector { x: random_in(-SPAWN_SPEED, SPAWN_SPEED), y: random_in(-SPAWN_SPEED, SPAWN_SPEED) };
    Boid {
        id,
        position,
        velocity,
        acceleration: Vector::zero(),
        health: FULL_HEALTH,
        flash: Countdown::new(FLASH_DURATION),
        tag: Tag::Normal,
    }
}

/// Tops the flock up toward the target population: appends
/// `spawn_count(len)` fresh boids at the edges, with ids counted up from
/// `next_id`.
pub fn respawn(boids: &mut Vec<Boid>, next_id: &mut u64, half_w: i64, half_h: i64)
    requires
        0 < half_w <= WORLD_LIMIT,
        0 < half_h <= WORLD_LIMIT,
        *old(next_id) <= u64::MAX - SPAWN_BATCH,
    ensures
        final(boids)@.len() == old(boids)@.len() + spawn_count_spec(old(boids)@.len() as int),
        final(boids)@.subrange(0, old(boids)@.len() as int) == old(boids)@,
        *final(next_id) == *old(next_id) + spawn_count_spec(old(boids)@.len() as int),
        forall|k: int| old(boids)@.len() <= k < final(boids)@.len() ==> {
            let b = #[trigger] final(boids)@[k];
            &&& fresh(b, (*old(next_id) + k - old(boids)@.len()) as u64, Tag::Normal)
            &&& b.flash == Countdown::new_spec(FLASH_DURATION)
            &&& on_border(b.position, half_w as int, half_h as int)
            &&& drawn_within(b.velocity, SPAWN_SPEED as int)
        },
{
    let ghost before = boids@;
    let ghost first = *next_id;
    let n = spawn_count(boids.len());
    let mut i: usize = 0;
    while i < n
        invariant
            0 < half_w <= WORLD_LIMIT,
            0 < half_h <= WORLD_LIMIT,
            n == spawn_count_spec(before.len() as int),
            n <= SPAWN_BATCH,
            first <= u64::MAX - SPAWN_BATCH,
            i <= n,
            boids@.len() == before.len() + i,
            boids@.subrange(0, before.len() as int) == before,
            *next_id == first + i,
            forall|k: int| before.len() <= k < boids@.len() ==> {
                let b = #[trigger] boids@[k];
                &&& fresh(b, (first + k - before.len()) as u64, Tag::Normal)
                &&& b.flash == Countdown::new_spec(FLASH_DURATION)
                &&& on_border(b.position, half_w as int, half_h as int)
                &&& drawn_within(b.velocity, SPAWN_SPEED as int)
            },
        decreases n - i,
    {
        let b = spawn_at_edge(*next_id, half_w, half_h);
        let ghost prev = boids@;
        boids.push(b);
        assert(boids@.subrange(0, before.len() as int) =~= prev.subrange(0, before.len() as int));
        *next_id = *next_id + 1;
        i = i + 1;
    }
}

/// Size of the flock at the start, besides the marked boids.
pub const INITIAL_FLOCK: usize = 150;

/// How long a red boid flashes when the world starts.
pub const RED_FLASH: u64 = 100_000;

/// Where the turrets stand in a world of the given half extents: at a third
/// of the width and height toward the bottom corners, a third of the height
/// up the middle, and a quarter toward the top corners.
pub open spec fn turret_spot(i: int, half_w: i64, half_h: i64) -> Vector {
    let w3 = (2 * half_w / 3) as i64;
    let h3 = (2 * half_h / 3) as i64;
    let w4 = (half_w / 2) as i64;
    let h4 = (half_h / 2) as i64;
    if i == 0 {
        Vector { x: (-w3) as i64, y: (-h3) as i64 }
    } else if i == 1 {
        Vector { x: w3, y: (-h3) as i64 }
    } else if i == 2 {
        Vector { x: 0, y: h3 }
    } else if i == 3 {
        Vector { x: (-w4) as i64, y: h4 }
    } else {
        Vector { x: w4, y: h4 }
    }
}

/// The five turrets of a new world, idle and waiting out their first delay.
pub fn setup_turrets(half_w: i64, half_h: i64) -> (r: Vec<Turret>)
    requires
        0 < half_w <= WORLD_LIMIT,
        0 < half_h <= WORLD_LIMIT,
    ensures
        r@.len() == 5,
        forall|i: int| 0 <= i < 5 ==> (#[trigger] r@[i]) == (Turret {
            position: turret_spot(i, half_w, half_h),
            range: TURRET_RANGE,
            target: None,
            cooldown: Countdown::new_spec(RETARGET_DELAY),
        }),
{
    let w3 = 2 * half_w / 3;
    let h3 = 2 * half_h / 3;
    let w4 = half_w / 2;
    let h4 = half_h / 2;
    let left3 = -w3;
    let low3 = -h3;
    let left4 = -w4;
    let spots = vec![
        Vector { x: left3, y: low3 },
        Vector { x: w3, y: low3 },
        Vector { x: 0, y: h3 },
        Vector { x: left4, y: h4 },
        Vector { x: w4, y: h4 },
    ];
    let mut r: Vec<Turret> = Vec::new();
    let mut i: usize = 0;
    while i < 5
        invariant
            spots@.len() == 5,
            forall|k: int| 0 <= k < 5 ==> spots@[k] == turret_spot(k, half_w, half_h),
            i <= 5,
            r@.len() == i,
            forall|k: int| 0 <= k < i ==> (#[trigger] r@[k]) == (Turret {
                position: turret_spot(k, half_w, half_h),
                range: TURRET_RANGE,
                target: None,
                cooldown: Countdown::new_spec(RETARGET_DELAY),
            }),
        decreases 5 - i,
    {
        r.push(Turret {
            position: spots[i],
            range: TURRET_RANGE,
            target: None,
            cooldown: Countdown::new(RETARGET_DELAY),
        });
        i = i + 1;
    }
    r
}

/// A speed in `[300, 500)` units per second.
pub open spec fn cruising(v: Vector) -> bool {
    (300 * UNIT) * (300 * UNIT) <= v.len_sq() < (500 * UNIT) * (500 * UNIT)
}

/// Largest number of direction draws before falling back to the x axis.
pub const HEADING_TRIES: usize = 64;

/// Radius of the disc in which a drawn direction is kept.
pub const HEADING_RADIUS: i64 = 1000;

/// A drawn direction is kept when it is nonzero and lies in the disc of
/// radius `HEADING_RADIUS`, which makes every heading about equally likely.
pub fn in_heading_disc(dir: &Vector) -> (r: bool)
    requires
        dir.bounded(),
    ensures
        r == (!dir.is_zero() && dir.len_sq() <= HEADING_RADIUS * HEADING_RADIUS),
{
    (dir.x != 0 || dir.y != 0) && dir.length_squared() <= HEADING_RADIUS as u128 * HEADING_RADIUS as u128
}

/// The velocity of speed `speed` (rounded so it is never short of it, and
/// at most 2 sub-units over) along `dir`, or along the x axis when `dir` is
/// zero.
pub fn velocity_along(dir: &Vector, speed: i64) -> (r: Vector)
    requires
        dir.bounded(),
        0 <= speed <= 500 * UNIT,
    ensures
        dir.is_zero() ==> r == (Vector { x: speed, y: 0 }),
        !dir.is_zero() ==> (r.x as int, r.y as int) == reaching_length_spec(*dir, speed as int),
        speed * speed <= r.len_sq() <= (speed + 2) * (speed + 2),
{
    if dir.x == 0 && dir.y == 0 {
        let v = Vector { x: speed, y: 0 };
        assert(v.len_sq() == speed * speed) by (nonlinear_arith)
            requires
                v.x == speed,
                v.y == 0,
        ;
        proof { lemma_square_monotone(speed as int, speed + 2); }
        v
    } else {
        dir.with_length_at_least(speed)
    }
}

/// A random velocity with a speed drawn from `[300, 500)` units per second.
/// The heading is drawn in a square and kept only when it lies in the
/// inscribed disc (`in_heading_disc`); if no draw is kept, the velocity
/// points along the x axis.
fn random_cruise_velocity() -> (r: Vector)
    ensures
        cruising(r),
        abs(r.x as int) <= 500 * UNIT,
        abs(r.y as int) <= 500 * UNIT,
{
    let speed = random_in(300 * UNIT, 500 * UNIT - 2);
    proof {
        lemma_square_monotone(300 * UNIT, speed as int);
        assert((speed + 2) * (speed + 2) < (500 * UNIT) * (500 * UNIT)) by (nonlinear_arith)
            requires
                0 <= speed + 2 < 500 * UNIT,
        ;
    }
    let mut tries: usize = 0;
    let mut dir = Vector::zero();
    while tries < HEADING_TRIES
        invariant
            300 * UNIT <= speed < 500 * UNIT - 2,
            (300 * UNIT) * (300 * UNIT) <= speed * speed,
            (speed + 2) * (speed + 2) < (500 * UNIT) * (500 * UNIT),
            dir.bounded(),
        decreases HEADING_TRIES - tries,
    {
        let drawn = Vector { x: random_in(-HEADING_RADIUS, HEADING_RADIUS), y: random_in(-HEADING_RADIUS, HEADING_RADIUS) };
        if in_heading_disc(&drawn) {
            dir = drawn;
            break;
        }
        tries = tries + 1;
    }
    let v = velocity_along(&dir, speed);
    proof { lemma_component_of_short(v, 500 * UNIT); }
    v
}

/// Where the marked boid `k` starts: the pink one (`k == 0`) at (200, 100)
/// and the red ones (`k` from 1 to 3) near the bottom right corner, 30 units
/// apart, whatever the size of the world. In a small world a spot may lie
/// past the border; the first tick's wrap brings the boid back.
pub open spec fn marked_spot(k: int, half_w: i64, half_h: i64) -> Vector {
    if k == 0 {
        Vector { x: (200 * UNIT) as i64, y: (100 * UNIT) as i64 }
    } else {
        Vector { x: (half_w - 100 * UNIT - 30 * UNIT * (k - 1)) as i64, y: (-half_h + 100 * UNIT) as i64 }
    }
}

/// A plain boid of a new world: boid `k`, at full health, somewhere in the
/// half-open box `[-half_w, half_w) x [-half_h, half_h)`, cruising.
pub open spec fn starts_plain(b: Boid, k: int, half_w: int, half_h: int) -> bool {
    &&& b.id == k
    &&& b.tag == Tag::Normal
    &&& b.health == FULL_HEALTH
    &&& b.acceleration == (Vector { x: 0, y: 0 })
    &&& b.flash == Countdown::new_spec(FLASH_DURATION)
    &&& -half_w <= b.position.x < half_w
    &&& -half_h <= b.position.y < half_h
    &&& cruising(b.velocity)
}

/// Marked boid `k` of a new world (see `marked_spot`): the pink one moves at
/// up to 150 units per second on each axis and flashes for 0.5 s when hit
/// first; the red ones move at up to 100 and flash for 0.1 s.
pub open spec fn starts_marked(b: Boid, k: int, half_w: i64, half_h: i64) -> bool {
    &&& b.id == INITIAL_FLOCK + k
    &&& b.tag == (if k == 0 { Tag::Pink } else { Tag::Red })
    &&& b.health == FULL_HEALTH
    &&& b.acceleration == (Vector { x: 0, y: 0 })
    &&& b.flash == Countdown::new_spec(if k == 0 { FLASH_DURATION } else { RED_FLASH })
    &&& b.position == marked_spot(k, half_w, half_h)
    &&& drawn_within(b.velocity, if k == 0 { 150 * UNIT } else { 100 * UNIT })
}

/// Facts every boid of a new world shares.
pub open spec fn starts_in_world(b: Boid, k: int, half_w: int, half_h: int) -> bool {
    &&& b.id == k
    &&& b.health == FULL_HEALTH
    &&& b.flash.wf()
    &&& abs(b.position.x as int) <= half_w + BORDER_SLACK
    &&& abs(b.position.y as int) <= half_h + BORDER_SLACK
    &&& abs(b.velocity.x as int) <= 500 * UNIT
    &&& abs(b.velocity.y as int) <= 500 * UNIT
}

/// The boids of a new world: `INITIAL_FLOCK` plain ones spread at random
/// over the world and cruising in random directions, then one pink boid and
/// three red ones (see `starts_marked`). Ids run from 0 in that order.
pub fn setup_boids(half_w: i64, half_h: i64) -> (r: Vec<Boid>)
    requires
        0 < half_w <= HALF_LIMIT,
        0 < half_h <= HALF_LIMIT,
    ensures
        r@.len() == INITIAL_FLOCK + 4,
        forall|k: int| 0 <= k < r@.len() ==> starts_in_world(#[trigger] r@[k], k, half_w as int, half_h as int),
        forall|k: int| 0 <= k < INITIAL_FLOCK ==> starts_plain(#[trigger] r@[k], k, half_w as int, half_h as int),
        forall|k: int| 0 <= k < 4 ==> starts_marked(#[trigger] r@[INITIAL_FLOCK + k], k, half_w, half_h),
{
    let mut r: Vec<Boid> = Vec::new();
    let mut i: usize = 0;
    while i < INITIAL_FLOCK
        invariant
            0 < half_w <= HALF_LIMIT,
            0 < half_h <= HALF_LIMIT,
            i <= INITIAL_FLOCK,
            r@.len() == i,
            forall|k: int| 0 <= k < r@.len() ==> starts_in_world(#[trigger] r@[k], k, half_w as int, half_h as int),
            forall|k: int| 0 <= k < r@.len() ==> starts_plain(#[trigger] r@[k], k, half_w as int, half_h as int),
        decreases INITIAL_FLOCK - i,
    {
        let position = Vector { x: random_in(-half_w, half_w), y: random_in(-half_h, half_h) };
        r.push(Boid {
            id: i as u64,
            position,
            velocity: random_cruise_velocity(),
            acceleration: Vector::zero(),
            health: FULL_HEALTH,
            flash: Countdown::new(FLASH_DURATION),
            tag: Tag::Normal,
        });
        i = i + 1;
    }
    let mut k: usize = 0;
    while k < 4
        invariant
            0 < half_w <= HALF_LIMIT,
            0 < half_h <= HALF_LIMIT,
            k <= 4,
            r@.len() == INITIAL_FLOCK + k,
            forall|j: int| 0 <= j < r@.len() ==> starts_in_world(#[trigger] r@[j], j, half_w as int, half_h as int),
            forall|j: int| 0 <= j < INITIAL_FLOCK ==> starts_plain(#[trigger] r@[j], j, half_w as int, half_h as int),
            forall|j: int| 0 <= j < k ==> starts_marked(#[trigger] r@[INITIAL_FLOCK + j], j, half_w, half_h),
        decreases 4 - k,
    {
        let b = if k == 0 {
            Boid {
                id: INITIAL_FLOCK as u64,
                position: Vector { x: 200 * UNIT, y: 100 * UNIT },
                velocity: Vector {
                    x: random_in(-150 * UNIT, 150 * UNIT),
                    y: random_in(-150 * UNIT, 150 * UNIT),
                },
                acceleration: Vector::zero(),
                health: FULL_HEALTH,
                flash: Countdown::new(FLASH_DURATION),
                tag: Tag::Pink,
            }
        } else {
            let offset = 30 * UNIT * (k as i64 - 1);
            Boid {
                id: (INITIAL_FLOCK + k) as u64,
                position: Vector { x: half_w - 100 * UNIT - offset, y: -half_h + 100 * UNIT },
                velocity: Vector {
                    x: random_in(-100 * UNIT, 100 * UNIT),
                    y: random_in(-100 * UNIT, 100 * UNIT),
                },
                acceleration: Vector::zero(),
                health: FULL_HEALTH,
                flash: Countdown::new(RED_FLASH),
                tag: Tag::Red,
            }
        };
        r.push(b);
        k = k + 1;
    }
    r
}

} // verus!
