//! The flocking engine: edge avoidance, separation, alignment, cohesion,
//! wander, and integration of the result.
use vstd::prelude::*;
use crate::geom::{
    Vector, UNIT, COMPONENT_LIMIT, abs, tdiv, dist_sq, root_ceil, with_length_spec, reaching_length_spec,
    distance_squared, sqrt_ceil, div_toward_zero, lemma_tdiv_magnitude, lemma_square_monotone,
    lemma_root_dominates,
};
use crate::model::{Boid, WORLD_LIMIT, HALF_LIMIT, BORDER_SLACK, MICROS_PER_SECOND, within};

verus! {

/// Width of the band along each border in which boids are pushed back.
pub const EDGE_MARGIN: i64 = 150 * UNIT;
/// Push at the border itself.
pub const EDGE_FORCE: i64 = 300 * UNIT;
/// How far a boid sees its neighbours.
pub const PERCEPTION_RADIUS: i64 = 100 * UNIT;
/// Neighbours closer than this push a boid away.
pub const PERSONAL_SPACE: i64 = 40 * UNIT;
pub const MAX_SPEED: i64 = 600 * UNIT;
/// Largest velocity component a boid may bring into a tick; anything faster
/// than `MAX_SPEED` is clamped by the tick.
pub const VELOCITY_LIMIT: i64 = 1_000_000_000;
/// Largest gap between a desired velocity and a velocity on one axis.
pub const SPEED_SPAN: i64 = MAX_SPEED + VELOCITY_LIMIT;
pub const MIN_SPEED: i64 = 100 * UNIT;
/// Length of the separation steering.
pub const MAX_FORCE: i64 = 400 * UNIT;
/// Alignment and cohesion gains, in hundredths.
pub const ALIGNMENT_GAIN: i64 = 5;
pub const COHESION_GAIN: i64 = 2;
/// Velocity kept each tick, in hundredths.
pub const DAMPING: i64 = 99;
/// Bound on each component of the wander push.
pub const WANDER_LIMIT: i64 = 20 * UNIT;
/// Most boids a flock may hold.
pub const MAX_BOIDS: usize = 1_048_576;

/// Push along one axis away from the borders at `-half` and `half`: it grows
/// with the square of how deep the point is in the margin band.
pub open spec fn edge_push_spec(p: int, half: int) -> int {
    if p > half - EDGE_MARGIN {
        let depth = EDGE_MARGIN - (half - p);
        -(depth * depth * EDGE_FORCE / (EDGE_MARGIN * EDGE_MARGIN))
    } else if p < -half + EDGE_MARGIN {
        let depth = EDGE_MARGIN - (p + half);
        depth * depth * EDGE_FORCE / (EDGE_MARGIN * EDGE_MARGIN)
    } else {
        0
    }
}

/// Bound on the edge push of a boid up to `BORDER_SLACK` past a border.
pub const EDGE_PUSH_LIMIT: i64 = 1_633_334;

proof fn lemma_edge_push_bound(depth: int)
    requires
        0 <= depth <= EDGE_MARGIN + BORDER_SLACK,
    ensures
        0 <= depth * depth <= (EDGE_MARGIN + BORDER_SLACK) * (EDGE_MARGIN + BORDER_SLACK),
        0 <= depth * depth * EDGE_FORCE / (EDGE_MARGIN * EDGE_MARGIN) <= EDGE_PUSH_LIMIT,
{
    let d = EDGE_MARGIN + BORDER_SLACK;
    let m2 = EDGE_MARGIN * EDGE_MARGIN;
    assert(0 <= depth * depth <= d * d) by (nonlinear_arith)
        requires
            0 <= depth <= d,
    ;
    assert(0 <= depth * depth * EDGE_FORCE <= d * d * EDGE_FORCE) by (nonlinear_arith)
        requires
            0 <= depth * depth <= d * d,
    ;
    assert(EDGE_MARGIN == 150_000 && BORDER_SLACK == 200_000 && EDGE_FORCE == 300_000);
    assert(d == 350_000);
    assert(350_000int * 350_000int == 122_500_000_000int);
    assert(122_500_000_000int * 300_000int == 36_750_000_000_000_000int);
    assert(150_000int * 150_000int == 22_500_000_000int);
    assert(d * d * EDGE_FORCE == 36_750_000_000_000_000);
    assert(m2 == 22_500_000_000);
    assert(36_750_000_000_000_000int / 22_500_000_000int == 1_633_333);
    assert(depth * depth * EDGE_FORCE / m2 <= 36_750_000_000_000_000int / m2) by (nonlinear_arith)
        requires
            0 <= depth * depth * EDGE_FORCE <= 36_750_000_000_000_000int,
            m2 > 0,
    ;
    assert(depth * depth * EDGE_FORCE / m2 >= 0) by (nonlinear_arith)
        requires
            0 <= depth * depth * EDGE_FORCE,
            m2 > 0,
    ;
}

pub fn edge_push(p: i64, half: i64) -> (r: i64)
    requires
        0 <= half <= HALF_LIMIT,
        -half - BORDER_SLACK <= p <= half + BORDER_SLACK,
    ensures
        r == edge_push_spec(p as int, half as int),
        abs(r as int) <= EDGE_PUSH_LIMIT,
{
    if p > half - EDGE_MARGIN {
        let depth = (EDGE_MARGIN - (half - p)) as i128;
        proof { lemma_edge_push_bound(depth as int); }
        -((depth * depth * EDGE_FORCE as i128 / (EDGE_MARGIN as i128 * EDGE_MARGIN as i128)) as i64)
    } else if p < -half + EDGE_MARGIN {
        let depth = (EDGE_MARGIN - (p + half)) as i128;
        proof { lemma_edge_push_bound(depth as int); }
        (depth * depth * EDGE_FORCE as i128 / (EDGE_MARGIN as i128 * EDGE_MARGIN as i128)) as i64
    } else {
        0
    }
}

pub open spec fn diff(a: Vector, b: Vector) -> Vector {
    Vector { x: (a.x - b.x) as i64, y: (a.y - b.y) as i64 }
}

/// The separation push on a boid at `me` from a neighbour at `other`: a
/// vector of length `UNIT` pointing away from it, scaled by how far inside
/// the personal space it is.
pub open spec fn push_away_spec(me: Vector, other: Vector) -> (int, int) {
    let d2 = dist_sq(me, other);
    if d2 < PERSONAL_SPACE * PERSONAL_SPACE {
        let closeness = PERSONAL_SPACE - root_ceil(d2);
        let away = with_length_spec(diff(me, other), UNIT as int);
        (tdiv(away.0 * closeness, PERSONAL_SPACE as int), tdiv(away.1 * closeness, PERSONAL_SPACE as int))
    } else {
        (0, 0)
    }
}

pub fn push_away(me: Vector, other: Vector) -> (r: Vector)
    requires
        within(me, WORLD_LIMIT as int),
        within(other, WORLD_LIMIT as int),
    ensures
        (r.x as int, r.y as int) == push_away_spec(me, other),
        abs(r.x as int) <= UNIT,
        abs(r.y as int) <= UNIT,
{
    let d2 = distance_squared(&me, &other);
    assert(PERSONAL_SPACE * PERSONAL_SPACE == 1_600_000_000);
    if d2 < PERSONAL_SPACE as u128 * PERSONAL_SPACE as u128 {
        let d = sqrt_ceil(d2);
        proof {
            if d > PERSONAL_SPACE {
                lemma_square_monotone(PERSONAL_SPACE as int, d - 1);
            }
        }
        let closeness = (PERSONAL_SPACE as i128 - d as i128);
        let away = Vector { x: me.x - other.x, y: me.y - other.y }.with_length(UNIT);
        proof {
            assert(0 <= closeness <= PERSONAL_SPACE);
            assert(abs(away.x * closeness) <= UNIT * PERSONAL_SPACE) by (nonlinear_arith)
                requires
                    abs(away.x as int) <= UNIT,
                    0 <= closeness <= PERSONAL_SPACE,
            ;
            assert(abs(away.y * closeness) <= UNIT * PERSONAL_SPACE) by (nonlinear_arith)
                requires
                    abs(away.y as int) <= UNIT,
                    0 <= closeness <= PERSONAL_SPACE,
            ;
            lemma_tdiv_bounded(away.x * closeness, PERSONAL_SPACE as int, UNIT as int);
            lemma_tdiv_bounded(away.y * closeness, PERSONAL_SPACE as int, UNIT as int);
        }
        let px = div_toward_zero(away.x as i128 * closeness, PERSONAL_SPACE as i128);
        let py = div_toward_zero(away.y as i128 * closeness, PERSONAL_SPACE as i128);
        Vector { x: px as i64, y: py as i64 }
    } else {
        Vector::zero()
    }
}

/// A quotient by `n` of a value at most `n * bound` in magnitude is at most
/// `bound` in magnitude.
pub proof fn lemma_tdiv_bounded(a: int, n: int, bound: int)
    requires
        n > 0,
        bound >= 0,
        abs(a) <= n * bound,
    ensures
        abs(tdiv(a, n)) <= bound,
{
    lemma_tdiv_magnitude(a, n);
    let m = abs(a);
    assert(m / n <= bound) by (nonlinear_arith)
        requires
            n > 0,
            bound >= 0,
            0 <= m <= n * bound,
    ;
}

/// What the flocking engine assumes of a boid: it is inside the world and
/// no velocity component exceeds the top speed.
pub open spec fn flock_valid(b: Boid, half_w: int, half_h: int) -> bool {
    &&& abs(b.position.x as int) <= half_w + BORDER_SLACK
    &&& abs(b.position.y as int) <= half_h + BORDER_SLACK
    &&& abs(b.velocity.x as int) <= VELOCITY_LIMIT
    &&& abs(b.velocity.y as int) <= VELOCITY_LIMIT
}

pub open spec fn all_flock_valid(s: Seq<Boid>, half_w: int, half_h: int) -> bool {
    forall|i: int| 0 <= i < s.len() ==> flock_valid(#[trigger] s[i], half_w, half_h)
}

/// Another boid that `me` sees: closer than the perception radius. A boid
/// at the very same point counts too; it adds no separation push.
pub open spec fn is_neighbor(me: Boid, o: Boid) -> bool {
    o.id != me.id && dist_sq(me.position, o.position) < PERCEPTION_RADIUS * PERCEPTION_RADIUS
}

/// Over the neighbours of `me` in `s`: the summed separation pushes, the
/// summed velocities, the summed positions, and their number.
pub open spec fn sums(me: Boid, s: Seq<Boid>) -> (int, int, int, int, int, int, int)
    decreases s.len(),
{
    if s.len() == 0 {
        (0, 0, 0, 0, 0, 0, 0)
    } else {
        let p = sums(me, s.drop_last());
        let o = s.last();
        if is_neighbor(me, o) {
            let push = push_away_spec(me.position, o.position);
            (p.0 + push.0, p.1 + push.1, p.2 + o.velocity.x, p.3 + o.velocity.y,
                p.4 + o.position.x, p.5 + o.position.y, p.6 + 1)
        } else {
            p
        }
    }
}

pub proof fn lemma_sums_bounds(me: Boid, s: Seq<Boid>, half_w: int, half_h: int)
    requires
        0 <= half_w <= HALF_LIMIT,
        0 <= half_h <= HALF_LIMIT,
        flock_valid(me, half_w, half_h),
        all_flock_valid(s, half_w, half_h),
    ensures
        ({
            let t = sums(me, s);
            &&& 0 <= t.6 <= s.len()
            &&& abs(t.0) <= t.6 * UNIT && abs(t.1) <= t.6 * UNIT
            &&& abs(t.2) <= t.6 * VELOCITY_LIMIT && abs(t.3) <= t.6 * VELOCITY_LIMIT
            &&& abs(t.4) <= t.6 * (half_w + BORDER_SLACK) && abs(t.5) <= t.6 * (half_h + BORDER_SLACK)
        }),
    decreases s.len(),
{
    if s.len() > 0 {
        let d = s.drop_last();
        assert(forall|j: int| 0 <= j < d.len() ==> d[j] == s[j]);
        lemma_sums_bounds(me, d, half_w, half_h);
        let o = s.last();
        assert(flock_valid(s[s.len() - 1], half_w, half_h));
        if is_neighbor(me, o) {
            lemma_push_away_bound(me.position, o.position);
        }
        let t = sums(me, d);
        assert((t.6 + 1) * UNIT == t.6 * UNIT + UNIT) by (nonlinear_arith);
        assert((t.6 + 1) * VELOCITY_LIMIT == t.6 * VELOCITY_LIMIT + VELOCITY_LIMIT) by (nonlinear_arith);
        assert((t.6 + 1) * (half_w + BORDER_SLACK) == t.6 * (half_w + BORDER_SLACK) + (half_w + BORDER_SLACK))
            by (nonlinear_arith);
        assert((t.6 + 1) * (half_h + BORDER_SLACK) == t.6 * (half_h + BORDER_SLACK) + (half_h + BORDER_SLACK))
            by (nonlinear_arith);
    }
}

/// The separation push is at most `UNIT` on each axis.
pub proof fn lemma_push_away_bound(me: Vector, other: Vector)
    requires
        within(me, WORLD_LIMIT as int),
        within(other, WORLD_LIMIT as int),
    ensures
        abs(push_away_spec(me, other).0) <= UNIT,
        abs(push_away_spec(me, other).1) <= UNIT,
{
    let d2 = dist_sq(me, other);
    assert(d2 >= 0) by (nonlinear_arith)
        requires
            d2 == (me.x - other.x) * (me.x - other.x) + (me.y - other.y) * (me.y - other.y),
    ;
    if d2 < PERSONAL_SPACE * PERSONAL_SPACE {
        let d = root_ceil(d2);
        crate::geom::lemma_root_ceil_exists(d2);
        if d > PERSONAL_SPACE {
            lemma_square_monotone(PERSONAL_SPACE as int, d - 1);
        }
        let closeness = PERSONAL_SPACE - d;
        let v = diff(me, other);
        crate::geom::lemma_with_length_bound(v, UNIT as int);
        let away = with_length_spec(v, UNIT as int);
        assert(abs(away.0 * closeness) <= UNIT * PERSONAL_SPACE) by (nonlinear_arith)
            requires
                abs(away.0) <= UNIT,
                0 <= closeness <= PERSONAL_SPACE,
        ;
        assert(abs(away.1 * closeness) <= UNIT * PERSONAL_SPACE) by (nonlinear_arith)
            requires
                abs(away.1) <= UNIT,
                0 <= closeness <= PERSONAL_SPACE,
        ;
        lemma_tdiv_bounded(away.0 * closeness, PERSONAL_SPACE as int, UNIT as int);
        lemma_tdiv_bounded(away.1 * closeness, PERSONAL_SPACE as int, UNIT as int);
    }
}

/// Running totals over the neighbours of one boid.
#[derive(Clone, Copy, Debug, PartialEq, Eq, Structural)]
pub struct NeighborSums {
    pub separation: Vector,
    pub velocity: Vector,
    pub position: Vector,
    pub count: u64,
}

impl NeighborSums {
    pub open spec fn as_tuple(self) -> (int, int, int, int, int, int, int) {
        (self.separation.x as int, self.separation.y as int, self.velocity.x as int, self.velocity.y as int,
            self.position.x as int, self.position.y as int, self.count as int)
    }
}

/// The totals over the neighbours of `me` in `boids`.
pub fn neighbor_sums(boids: &Vec<Boid>, me: &Boid, half_w: i64, half_h: i64) -> (r: NeighborSums)
    requires
        0 <= half_w <= HALF_LIMIT,
        0 <= half_h <= HALF_LIMIT,
        boids.len() <= MAX_BOIDS,
        flock_valid(*me, half_w as int, half_h as int),
        all_flock_valid(boids@, half_w as int, half_h as int),
    ensures
        r.as_tuple() == sums(*me, boids@),
{
    let mut acc = NeighborSums {
        separation: Vector::zero(),
        velocity: Vector::zero(),
        position: Vector::zero(),
        count: 0,
    };
    let mut k: usize = 0;
    while k < boids.len()
        invariant
            0 <= half_w <= HALF_LIMIT,
            0 <= half_h <= HALF_LIMIT,
            boids.len() <= MAX_BOIDS,
            flock_valid(*me, half_w as int, half_h as int),
            all_flock_valid(boids@, half_w as int, half_h as int),
            k <= boids.len(),
            acc.as_tuple() == sums(*me, boids@.subrange(0, k as int)),
        decreases boids.len() - k,
    {
        let o = boids[k];
        let ghost pre = boids@.subrange(0, k as int);
        let ghost post = boids@.subrange(0, k as int + 1);
        proof {
            assert(post.drop_last() =~= pre);
            assert(post.last() == o);
            assert(flock_valid(boids@[k as int], half_w as int, half_h as int));
            lemma_sums_bounds(*me, pre, half_w as int, half_h as int);
            assert(all_flock_valid(pre, half_w as int, half_h as int));
            let t = sums(*me, pre);
            assert(t.6 * UNIT <= MAX_BOIDS * UNIT) by (nonlinear_arith)
                requires 0 <= t.6 <= MAX_BOIDS;
            assert(t.6 * VELOCITY_LIMIT <= MAX_BOIDS * VELOCITY_LIMIT) by (nonlinear_arith)
                requires 0 <= t.6 <= MAX_BOIDS;
            assert(t.6 * (half_w + BORDER_SLACK) <= MAX_BOIDS * WORLD_LIMIT) by (nonlinear_arith)
                requires 0 <= t.6 <= MAX_BOIDS, 0 <= half_w + BORDER_SLACK <= WORLD_LIMIT;
            assert(t.6 * (half_h + BORDER_SLACK) <= MAX_BOIDS * WORLD_LIMIT) by (nonlinear_arith)
                requires 0 <= t.6 <= MAX_BOIDS, 0 <= half_h + BORDER_SLACK <= WORLD_LIMIT;
        }
        if o.id != me.id {
            let d2 = distance_squared(&me.position, &o.position);
            assert(PERCEPTION_RADIUS * PERCEPTION_RADIUS == 10_000_000_000);
            if d2 < PERCEPTION_RADIUS as u128 * PERCEPTION_RADIUS as u128 {
                let push = push_away(me.position, o.position);
                acc = NeighborSums {
                    separation: Vector { x: acc.separation.x + push.x, y: acc.separation.y + push.y },
                    velocity: Vector { x: acc.velocity.x + o.velocity.x, y: acc.velocity.y + o.velocity.y },
                    position: Vector { x: acc.position.x + o.position.x, y: acc.position.y + o.position.y },
                    count: acc.count + 1,
                };
            }
        }
        k = k + 1;
    }
    assert(boids@.subrange(0, boids.len() as int) =~= boids@);
    acc
}

/// The steering toward direction `dir` at top speed, relative to the
/// current velocity `vel` and scaled by `gain` hundredths; nothing when
/// `dir` is zero.
pub open spec fn steer_toward_spec(dir: Vector, vel: Vector, gain: int) -> (int, int) {
    if dir.is_zero() {
        (0, 0)
    } else {
        let desired = with_length_spec(dir, MAX_SPEED as int);
        (tdiv((desired.0 - vel.x) * gain, 100), tdiv((desired.1 - vel.y) * gain, 100))
    }
}

/// The flocking part of the steering of `me` among `s`: separation at
/// double weight, then alignment with the neighbours' mean velocity, then
/// cohesion toward their mean position.
pub open spec fn flocking_spec(me: Boid, s: Seq<Boid>) -> (int, int) {
    let t = sums(me, s);
    let n = t.6;
    if n == 0 {
        (0, 0)
    } else {
        let sep = with_length_spec(Vector { x: t.0 as i64, y: t.1 as i64 }, MAX_FORCE as int);
        let mean_velocity = Vector { x: tdiv(t.2, n) as i64, y: tdiv(t.3, n) as i64 };
        let to_center = Vector {
            x: (tdiv(t.4, n) - me.position.x) as i64,
            y: (tdiv(t.5, n) - me.position.y) as i64,
        };
        let ali = steer_toward_spec(mean_velocity, me.velocity, ALIGNMENT_GAIN as int);
        let coh = steer_toward_spec(to_center, me.velocity, COHESION_GAIN as int);
        (2 * sep.0 + ali.0 + coh.0, 2 * sep.1 + ali.1 + coh.1)
    }
}

/// Bound on each component of a steering acceleration.
pub const ACCEL_LIMIT: i64 = 73_000_000;

/// The whole steering of `me`: edge avoidance, flocking and wander.
pub open spec fn steering_spec(me: Boid, s: Seq<Boid>, half_w: int, half_h: int, wander: Vector) -> (int, int) {
    let f = flocking_spec(me, s);
    (edge_push_spec(me.position.x as int, half_w) + f.0 + wander.x,
        edge_push_spec(me.position.y as int, half_h) + f.1 + wander.y)
}

pub fn steer_toward(dir: Vector, vel: Vector, gain: i64) -> (r: Vector)
    requires
        dir.bounded(),
        abs(vel.x as int) <= VELOCITY_LIMIT,
        abs(vel.y as int) <= VELOCITY_LIMIT,
        0 <= gain <= 100,
    ensures
        (r.x as int, r.y as int) == steer_toward_spec(dir, vel, gain as int),
        abs(r.x as int) <= SPEED_SPAN * gain / 100,
        abs(r.y as int) <= SPEED_SPAN * gain / 100,
{
    if dir.x == 0 && dir.y == 0 {
        assert(SPEED_SPAN * gain / 100 >= 0) by (nonlinear_arith) requires gain >= 0;
        return Vector::zero();
    }
    let desired = dir.with_length(MAX_SPEED);
    assert(abs((desired.x - vel.x) * gain) <= SPEED_SPAN * 100) by (nonlinear_arith)
        requires
            abs(desired.x - vel.x) <= SPEED_SPAN,
            0 <= gain <= 100,
    ;
    assert(abs((desired.y - vel.y) * gain) <= SPEED_SPAN * 100) by (nonlinear_arith)
        requires
            abs(desired.y - vel.y) <= SPEED_SPAN,
            0 <= gain <= 100,
    ;
    let dx = (desired.x - vel.x) as i128 * gain as i128;
    let dy = (desired.y - vel.y) as i128 * gain as i128;
    proof {
        assert(abs(dx as int) <= 100 * (SPEED_SPAN * gain / 100)) by (nonlinear_arith)
            requires
                dx == (desired.x - vel.x) * gain,
                abs(desired.x - vel.x) <= SPEED_SPAN,
                0 <= gain <= 100,
        ;
        assert(abs(dy as int) <= 100 * (SPEED_SPAN * gain / 100)) by (nonlinear_arith)
            requires
                dy == (desired.y - vel.y) * gain,
                abs(desired.y - vel.y) <= SPEED_SPAN,
                0 <= gain <= 100,
        ;
        lemma_tdiv_bounded(dx as int, 100, SPEED_SPAN * gain / 100);
        lemma_tdiv_bounded(dy as int, 100, SPEED_SPAN * gain / 100);
    }
    Vector { x: div_toward_zero(dx, 100) as i64, y: div_toward_zero(dy, 100) as i64 }
}

/// Bound on each component of the flocking steering.
pub const FLOCKING_LIMIT: i64 = 70_842_000;

/// The flocking steering of `me` among `boids`.
pub fn flocking(boids: &Vec<Boid>, me: &Boid, half_w: i64, half_h: i64) -> (r: Vector)
    requires
        0 <= half_w <= HALF_LIMIT,
        0 <= half_h <= HALF_LIMIT,
        boids.len() <= MAX_BOIDS,
        flock_valid(*me, half_w as int, half_h as int),
        all_flock_valid(boids@, half_w as int, half_h as int),
    ensures
        (r.x as int, r.y as int) == flocking_spec(*me, boids@),
        abs(r.x as int) <= FLOCKING_LIMIT,
        abs(r.y as int) <= FLOCKING_LIMIT,
{
    let t = neighbor_sums(boids, me, half_w, half_h);
    proof { lemma_sums_bounds(*me, boids@, half_w as int, half_h as int); }
    if t.count == 0 {
        return Vector::zero();
    }
    let n = t.count as i128;
    proof {
        assert(t.count * UNIT <= MAX_BOIDS * UNIT) by (nonlinear_arith)
            requires t.count <= MAX_BOIDS;
        lemma_tdiv_bounded(t.velocity.x as int, n as int, VELOCITY_LIMIT as int);
        lemma_tdiv_bounded(t.velocity.y as int, n as int, VELOCITY_LIMIT as int);
        lemma_tdiv_bounded(t.position.x as int, n as int, half_w + BORDER_SLACK);
        lemma_tdiv_bounded(t.position.y as int, n as int, half_h + BORDER_SLACK);
    }
    let sep = t.separation.with_length(MAX_FORCE);
    let mean_velocity = Vector {
        x: div_toward_zero(t.velocity.x as i128, n) as i64,
        y: div_toward_zero(t.velocity.y as i128, n) as i64,
    };
    let to_center = Vector {
        x: div_toward_zero(t.position.x as i128, n) as i64 - me.position.x,
        y: div_toward_zero(t.position.y as i128, n) as i64 - me.position.y,
    };
    let ali = steer_toward(mean_velocity, me.velocity, ALIGNMENT_GAIN);
    let coh = steer_toward(to_center, me.velocity, COHESION_GAIN);
    Vector { x: 2 * sep.x + ali.x + coh.x, y: 2 * sep.y + ali.y + coh.y }
}

/// The whole steering acceleration of `me`.
pub fn steering(boids: &Vec<Boid>, me: &Boid, half_w: i64, half_h: i64, wander: Vector) -> (r: Vector)
    requires
        0 <= half_w <= HALF_LIMIT,
        0 <= half_h <= HALF_LIMIT,
        boids.len() <= MAX_BOIDS,
        flock_valid(*me, half_w as int, half_h as int),
        all_flock_valid(boids@, half_w as int, half_h as int),
        abs(wander.x as int) <= WANDER_LIMIT,
        abs(wander.y as int) <= WANDER_LIMIT,
    ensures
        (r.x as int, r.y as int) == steering_spec(*me, boids@, half_w as int, half_h as int, wander),
        abs(r.x as int) <= ACCEL_LIMIT,
        abs(r.y as int) <= ACCEL_LIMIT,
{
    let f = flocking(boids, me, half_w, half_h);
    let ex = edge_push(me.position.x, half_w);
    let ey = edge_push(me.position.y, half_h);
    Vector { x: ex + f.x + wander.x, y: ey + f.y + wander.y }
}

/// The change over `dt` microseconds of a quantity changing at `rate` per
/// second, rounded toward zero.
pub open spec fn over_time(rate: int, dt: int) -> int {
    tdiv(rate * dt, MICROS_PER_SECOND as int)
}

pub open spec fn as_vector(p: (int, int)) -> Vector {
    Vector { x: p.0 as i64, y: p.1 as i64 }
}

/// `v` shortened to length `max` when it is longer.
pub open spec fn clamp_spec(v: Vector, max: int) -> Vector {
    if v.len_sq() > max * max { as_vector(with_length_spec(v, max)) } else { v }
}

/// `v` lengthened to at least the minimum speed when it is shorter and not
/// zero.
pub open spec fn speed_floor_spec(v: Vector) -> Vector {
    if v.len_sq() < MIN_SPEED * MIN_SPEED { as_vector(reaching_length_spec(v, MIN_SPEED as int)) } else { v }
}

/// The first integration step: the acceleration is applied, the velocity
/// damped, held under the top speed and raised to the minimum speed.
pub open spec fn first_step_spec(v: Vector, acc: Vector, dt: u64) -> Vector {
    let dvx = over_time(acc.x as int, dt as int);
    let dvy = over_time(acc.y as int, dt as int);
    let v1 = as_vector((v.x + dvx, v.y + dvy));
    let v2 = as_vector((tdiv(v1.x * DAMPING, 100), tdiv(v1.y * DAMPING, 100)));
    speed_floor_spec(clamp_spec(v2, MAX_SPEED as int))
}

/// The velocity after one tick under acceleration `acc`: after the first
/// step, the same acceleration is applied a second time and the top speed
/// enforced again.
pub open spec fn integrate_spec(v: Vector, acc: Vector, dt: u64) -> Vector {
    let v3 = first_step_spec(v, acc, dt);
    clamp_spec(
        as_vector((v3.x + over_time(acc.x as int, dt as int), v3.y + over_time(acc.y as int, dt as int))),
        MAX_SPEED as int,
    )
}

/// A component of length at most `len` in magnitude.
pub proof fn lemma_component_of_short(v: Vector, len: int)
    requires
        len >= 0,
        v.len_sq() <= len * len,
    ensures
        abs(v.x as int) <= len,
        abs(v.y as int) <= len,
{
    assert(v.x * v.x == abs(v.x as int) * abs(v.x as int)) by (nonlinear_arith);
    assert(v.y * v.y == abs(v.y as int) * abs(v.y as int)) by (nonlinear_arith);
    assert(v.x * v.x >= 0 && v.y * v.y >= 0) by (nonlinear_arith);
    lemma_root_dominates(abs(v.x as int), v.len_sq(), len);
    lemma_root_dominates(abs(v.y as int), v.len_sq(), len);
}

fn step_over(rate: i64, dt: u64) -> (r: i64)
    requires
        abs(rate as int) <= ACCEL_LIMIT,
        dt <= MICROS_PER_SECOND,
    ensures
        r == over_time(rate as int, dt as int),
        abs(r as int) <= abs(rate as int),
{
    proof {
        assert(abs(rate * dt) <= MICROS_PER_SECOND * abs(rate as int)) by (nonlinear_arith)
            requires
                dt <= MICROS_PER_SECOND,
                dt >= 0,
        ;
        lemma_tdiv_bounded(rate * dt, MICROS_PER_SECOND as int, abs(rate as int));
    }
    div_toward_zero(rate as i128 * dt as i128, MICROS_PER_SECOND as i128) as i64
}

fn clamp_speed(v: Vector, max: i64) -> (r: Vector)
    requires
        v.bounded(),
        0 <= max <= COMPONENT_LIMIT,
    ensures
        r == clamp_spec(v, max as int),
        r.len_sq() <= max * max,
        abs(r.x as int) <= max,
        abs(r.y as int) <= max,
{
    let r = v.clamp_length_max(max);
    proof { lemma_component_of_short(r, max as int); }
    r
}

/// The velocity after one tick. Its speed never exceeds `MAX_SPEED`; after
/// the first step a moving boid is no slower than `MIN_SPEED` less two
/// sub-units of rounding, and the second step slows it again only when the
/// acceleration changes the velocity: with none, the first step is the
/// result.
pub fn integrate(v: Vector, acc: Vector, dt: u64) -> (r: Vector)
    requires
        abs(v.x as int) <= VELOCITY_LIMIT,
        abs(v.y as int) <= VELOCITY_LIMIT,
        abs(acc.x as int) <= ACCEL_LIMIT,
        abs(acc.y as int) <= ACCEL_LIMIT,
        dt <= MICROS_PER_SECOND,
    ensures
        r == integrate_spec(v, acc, dt),
        r.len_sq() <= MAX_SPEED * MAX_SPEED,
        abs(r.x as int) <= MAX_SPEED,
        abs(r.y as int) <= MAX_SPEED,
        first_step_spec(v, acc, dt).len_sq() <= MAX_SPEED * MAX_SPEED,
        !first_step_spec(v, acc, dt).is_zero()
            ==> first_step_spec(v, acc, dt).len_sq() >= MIN_SPEED * MIN_SPEED,
        over_time(acc.x as int, dt as int) == 0 && over_time(acc.y as int, dt as int) == 0
            ==> r == first_step_spec(v, acc, dt),
{
    let dvx = step_over(acc.x, dt);
    let dvy = step_over(acc.y, dt);
    let v1 = Vector { x: v.x + dvx, y: v.y + dvy };
    proof {
        lemma_tdiv_bounded(v1.x * DAMPING, 100, abs(v1.x as int));
        lemma_tdiv_bounded(v1.y * DAMPING, 100, abs(v1.y as int));
    }
    let v2 = Vector {
        x: div_toward_zero(v1.x as i128 * DAMPING as i128, 100) as i64,
        y: div_toward_zero(v1.y as i128 * DAMPING as i128, 100) as i64,
    };
    let v3 = clamp_speed(v2, MAX_SPEED);
    assert(MIN_SPEED * MIN_SPEED == 10_000_000_000);
    let v4 = if v3.length_squared() < MIN_SPEED as u128 * MIN_SPEED as u128 {
        let w = v3.with_length_at_least(MIN_SPEED);
        assert((MIN_SPEED + 2) * (MIN_SPEED + 2) <= MAX_SPEED * MAX_SPEED);
        proof {
            if v3.is_zero() {
                assert(w.len_sq() == 0) by (nonlinear_arith)
                    requires
                        w.x == 0,
                        w.y == 0,
                ;
            }
        }
        w
    } else {
        v3
    };
    clamp_speed(Vector { x: v4.x + dvx, y: v4.y + dvy }, MAX_SPEED)
}

/// A boid after one tick of flocking among the start-of-tick snapshot `s`:
/// its acceleration is recomputed, its velocity integrated, its position
/// moved by the new velocity, and its flash timer advanced.
pub open spec fn moved(b: Boid, s: Seq<Boid>, half_w: int, half_h: int, wander: Vector, dt: u64) -> Boid {
    let acc = as_vector(steering_spec(b, s, half_w, half_h, wander));
    let v = integrate_spec(b.velocity, acc, dt);
    Boid {
        acceleration: acc,
        velocity: v,
        position: as_vector((
            b.position.x + over_time(v.x as int, dt as int),
            b.position.y + over_time(v.y as int, dt as int),
        )),
        flash: b.flash.ticked(dt),
        ..b
    }
}

pub open spec fn all_flash_wf(s: Seq<Boid>) -> bool {
    forall|i: int| 0 <= i < s.len() ==> (#[trigger] s[i]).flash.wf()
}

/// One tick of flocking for every boid. Every boid reads the same snapshot
/// of the flock as it stood at the start of the tick, so the order in which
/// boids are updated does not matter. `wander[i]` is the wander push of
/// boid `i`.
pub fn update_boids(boids: &mut Vec<Boid>, wander: &Vec<Vector>, half_w: i64, half_h: i64, dt: u64)
    requires
        0 <= half_w <= HALF_LIMIT,
        0 <= half_h <= HALF_LIMIT,
        old(boids).len() <= MAX_BOIDS,
        wander.len() == old(boids).len(),
        forall|i: int| 0 <= i < wander.len() ==> abs((#[trigger] wander@[i]).x as int) <= WANDER_LIMIT
            && abs(wander@[i].y as int) <= WANDER_LIMIT,
        all_flock_valid(old(boids)@, half_w as int, half_h as int),
        all_flash_wf(old(boids)@),
        dt <= MICROS_PER_SECOND,
    ensures
        final(boids)@.len() == old(boids)@.len(),
        forall|i: int| 0 <= i < old(boids)@.len() ==> final(boids)@[i]
            == moved(#[trigger] old(boids)@[i], old(boids)@, half_w as int, half_h as int, wander@[i], dt),
        forall|i: int| 0 <= i < old(boids)@.len() ==> (#[trigger] final(boids)@[i]).velocity.len_sq()
            <= MAX_SPEED * MAX_SPEED,
        all_flash_wf(final(boids)@),
{
    let mut next: Vec<Boid> = Vec::new();
    let mut i: usize = 0;
    while i < boids.len()
        invariant
            0 <= half_w <= HALF_LIMIT,
            0 <= half_h <= HALF_LIMIT,
            boids.len() <= MAX_BOIDS,
            wander.len() == boids.len(),
            forall|i: int| 0 <= i < wander.len() ==> abs((#[trigger] wander@[i]).x as int) <= WANDER_LIMIT
                && abs(wander@[i].y as int) <= WANDER_LIMIT,
            all_flock_valid(boids@, half_w as int, half_h as int),
            all_flash_wf(boids@),
            dt <= MICROS_PER_SECOND,
            i <= boids.len(),
            next@.len() == i,
            forall|k: int| 0 <= k < i ==> next@[k]
                == moved(#[trigger] boids@[k], boids@, half_w as int, half_h as int, wander@[k], dt),
            forall|k: int| 0 <= k < i ==> (#[trigger] next@[k]).velocity.len_sq() <= MAX_SPEED * MAX_SPEED,
            all_flash_wf(next@),
        decreases boids.len() - i,
    {
        let b = boids[i];
        assert(flock_valid(boids@[i as int], half_w as int, half_h as int));
        let acc = steering(boids, &b, half_w, half_h, wander[i]);
        let v = integrate(b.velocity, acc, dt);
        let mut flash = b.flash;
        flash.tick(dt);
        let position = Vector {
            x: b.position.x + step_over(v.x, dt),
            y: b.position.y + step_over(v.y, dt),
        };
        next.push(Boid { acceleration: acc, velocity: v, position, flash, ..b });
        i = i + 1;
    }
    *boids = next;
}

/// A coordinate past a border reappears at the opposite border.
pub open spec fn wrap_spec(p: int, half: int) -> int {
    if p > half { -half } else if p < -half { half } else { p }
}

pub fn wrap(p: i64, half: i64) -> (r: i64)
    requires
        0 <= half <= HALF_LIMIT,
    ensures
        r == wrap_spec(p as int, half as int),
        abs(r as int) <= half,
{
    if p > half { -half } else if p < -half { half } else { p }
}

/// Wraps every boid that left the world to the opposite border, each axis
/// on its own.
pub fn wrap_boids(boids: &mut Vec<Boid>, half_w: i64, half_h: i64)
    requires
        0 <= half_w <= HALF_LIMIT,
        0 <= half_h <= HALF_LIMIT,
    ensures
        final(boids)@.len() == old(boids)@.len(),
        forall|i: int| 0 <= i < old(boids)@.len() ==> (#[trigger] final(boids)@[i]) == (Boid {
            position: Vector {
                x: wrap_spec(old(boids)@[i].position.x as int, half_w as int) as i64,
                y: wrap_spec(old(boids)@[i].position.y as int, half_h as int) as i64,
            },
            ..old(boids)@[i]
        }),
{
    let ghost before = boids@;
    let mut i: usize = 0;
    while i < boids.len()
        invariant
            0 <= half_w <= HALF_LIMIT,
            0 <= half_h <= HALF_LIMIT,
            boids@.len() == before.len(),
            i <= boids@.len(),
            forall|k: int| 0 <= k < i ==> (#[trigger] boids@[k]) == (Boid {
                position: Vector {
                    x: wrap_spec(before[k].position.x as int, half_w as int) as i64,
                    y: wrap_spec(before[k].position.y as int, half_h as int) as i64,
                },
                ..before[k]
            }),
            forall|k: int| i <= k < boids@.len() ==> boids@[k] == before[k],
        decreases boids@.len() - i,
    {
        let mut b = boids[i];
        b.position = Vector { x: wrap(b.position.x, half_w), y: wrap(b.position.y, half_h) };
        boids.set(i, b);
        i = i + 1;
    }
}

} // verus!
