//! The records of the simulation: boids, turrets, beams and one-shot timers.
use vstd::prelude::*;
use crate::geom::{Vector, abs};

verus! {

/// Microseconds per second; elapsed time is counted in microseconds.
pub const MICROS_PER_SECOND: u64 = 1_000_000;

/// Health of a freshly spawned boid, in millionths.
pub const FULL_HEALTH: i64 = 1_000_000;

/// Largest magnitude of a position coordinate or half extent of the world.
pub const WORLD_LIMIT: i64 = 4_294_967_296;

/// How far past a border a boid may stand before the wrap brings it back:
/// the marked boids start at fixed spots, which lie outside a small world.
pub const BORDER_SLACK: i64 = 200_000;

/// Largest half extent of the world: a boid up to `BORDER_SLACK` past its
/// border still lies within `WORLD_LIMIT`.
pub const HALF_LIMIT: i64 = WORLD_LIMIT - BORDER_SLACK;

/// A one-shot countdown: it runs from zero up to `duration` and then stays
/// finished until it is reset.
#[derive(Clone, Copy, Debug, PartialEq, Eq, Structural)]
pub struct Countdown {
    pub duration: u64,
    pub elapsed: u64,
}

impl Countdown {
    pub open spec fn wf(self) -> bool {
        self.elapsed <= self.duration
    }

    pub open spec fn is_finished(self) -> bool {
        self.elapsed >= self.duration
    }

    pub open spec fn ticked(self, dt: u64) -> Countdown {
        Countdown {
            duration: self.duration,
            elapsed: if self.elapsed + dt >= self.duration { self.duration } else { (self.elapsed + dt) as u64 },
        }
    }

    pub open spec fn new_spec(duration: u64) -> Countdown {
        Countdown { duration, elapsed: 0 }
    }

    pub fn new(duration: u64) -> (r: Countdown)
        ensures
            r == Countdown::new_spec(duration),
            r.wf(),
    {
        Countdown { duration, elapsed: 0 }
    }

    /// Advances the countdown by `dt`, stopping at its duration.
    pub fn tick(&mut self, dt: u64)
        requires
            old(self).wf(),
        ensures
            *final(self) == old(self).ticked(dt),
            final(self).wf(),
    {
        if dt >= self.duration - self.elapsed {
            self.elapsed = self.duration;
        } else {
            self.elapsed = self.elapsed + dt;
        }
    }

    pub fn finished(&self) -> (r: bool)
        ensures
            r == self.is_finished(),
    {
        self.elapsed >= self.duration
    }

    /// Starts the countdown over.
    pub fn reset(&mut self)
        ensures
            final(self).duration == old(self).duration,
            final(self).elapsed == 0,
    {
        self.elapsed = 0;
    }
}

/// How a boid is drawn; it does not change how it moves.
#[derive(Clone, Copy, Debug, PartialEq, Eq, Structural)]
pub enum Tag {
    Normal,
    Pink,
    Red,
}

/// One flocking agent.
#[derive(Clone, Copy, Debug, PartialEq, Eq, Structural)]
pub struct Boid {
    pub id: u64,
    pub position: Vector,
    pub velocity: Vector,
    pub acceleration: Vector,
    /// Millionths of full health; the boid is alive while this is positive.
    pub health: i64,
    pub flash: Countdown,
    pub tag: Tag,
}

/// A stationary defender. Its identity is its index among the turrets.
#[derive(Clone, Copy, Debug, PartialEq, Eq, Structural)]
pub struct Turret {
    pub position: Vector,
    pub range: i64,
    /// Id of the boid being fired at, if any.
    pub target: Option<u64>,
    pub cooldown: Countdown,
}

/// The link drawn from a turret to its target.
#[derive(Clone, Copy, Debug, PartialEq, Eq, Structural)]
pub struct Beam {
    /// Index of the turret that fires it.
    pub owner: usize,
    /// Point halfway between the turret and its target.
    pub midpoint: Vector,
    /// Distance from the turret to its target, rounded up.
    pub length: i64,
    /// Offset from the turret to its target; the beam points along it.
    pub direction: Vector,
}

pub open spec fn within(v: Vector, limit: int) -> bool {
    abs(v.x as int) <= limit && abs(v.y as int) <= limit
}

/// Index of the first boid with id `id`, if any.
pub open spec fn index_of(boids: Seq<Boid>, id: u64) -> Option<int>
    decreases boids.len(),
{
    if boids.len() == 0 {
        None
    } else {
        match index_of(boids.drop_last(), id) {
            Some(i) => Some(i),
            None => if boids.last().id == id { Some(boids.len() - 1) } else { None },
        }
    }
}

pub open spec fn ids_unique(boids: Seq<Boid>) -> bool {
    forall|i: int, j: int| 0 <= i < j < boids.len() ==> boids[i].id != boids[j].id
}

/// Ids strictly increase along the sequence (so no two boids share one).
pub open spec fn ids_increasing(boids: Seq<Boid>) -> bool {
    forall|i: int, j: int| 0 <= i < j < boids.len() ==> boids[i].id < boids[j].id
}

pub proof fn lemma_index_of(boids: Seq<Boid>, id: u64)
    ensures
        match index_of(boids, id) {
            Some(i) => 0 <= i < boids.len() && boids[i].id == id
                && forall|j: int| 0 <= j < i ==> boids[j].id != id,
            None => forall|j: int| 0 <= j < boids.len() ==> boids[j].id != id,
        },
    decreases boids.len(),
{
    if boids.len() > 0 {
        let d = boids.drop_last();
        lemma_index_of(d, id);
        assert(forall|j: int| 0 <= j < d.len() ==> d[j] == boids[j]);
    }
}

/// Position of the first boid with id `id`.
pub fn find_boid(boids: &Vec<Boid>, id: u64) -> (r: Option<usize>)
    ensures
        r == match index_of(boids@, id) {
            Some(i) => Some(i as usize),
            None => None::<usize>,
        },
        match r {
            Some(i) => i < boids.len() && boids@[i as int].id == id,
            None => true,
        },
{
    let mut i: usize = 0;
    while i < boids.len()
        invariant
            i <= boids.len(),
            forall|j: int| 0 <= j < i ==> boids@[j].id != id,
        decreases boids.len() - i,
    {
        if boids[i].id == id {
            proof {
                lemma_index_of(boids@, id);
                lemma_index_unique_first(boids@, id, i as int);
            }
            return Some(i);
        }
        i = i + 1;
    }
    proof { lemma_index_of(boids@, id); }
    None
}

/// The first boid with a given id is the one found by `index_of`.
pub proof fn lemma_index_unique_first(boids: Seq<Boid>, id: u64, i: int)
    requires
        0 <= i < boids.len(),
        boids[i].id == id,
        forall|j: int| 0 <= j < i ==> boids[j].id != id,
    ensures
        index_of(boids, id) == Some(i),
{
    lemma_index_of(boids, id);
}

} // verus!
