//! The whole simulation: one tick runs flocking, wrapping, targeting,
//! beams, damage, removal of the dead and replenishment, in that order.
use vstd::prelude::*;
use crate::geom::{Vector, abs};
use crate::model::{Boid, Beam, Turret, Countdown, WORLD_LIMIT, HALF_LIMIT, FULL_HEALTH, MICROS_PER_SECOND, ids_increasing};
use crate::flock::{
    update_boids, wrap_boids, wrap_spec, all_flock_valid, flock_valid, all_flash_wf, MAX_SPEED, WANDER_LIMIT, MAX_BOIDS,
    lemma_component_of_short,
};
use crate::combat::{
    update_turrets, beams, beams_of, apply_damage, remove_dead, survivors, lemma_survivors,
    lemma_damage_never_heals, all_turrets_wf, turrets_within, all_within, all_bounded, MAX_TURRETS,
};
use crate::combat::RETARGET_DELAY;
use crate::population::{
    respawn, setup_boids, setup_turrets, spawn_count_spec, turret_spot, SPAWN_BATCH, INITIAL_FLOCK, TURRET_RANGE,
};

verus! {

/// Everything the simulation tracks: the flock, the turrets, the beams of
/// the last tick, and the extents of the world `[-half_w, half_w] x
/// [-half_h, half_h]`, in sub-units.
pub struct World {
    pub boids: Vec<Boid>,
    pub turrets: Vec<Turret>,
    pub beams: Vec<Beam>,
    /// Id for the next boid spawned; larger than every id in use.
    pub next_id: u64,
    pub half_w: i64,
    pub half_h: i64,
}

impl World {
    pub open spec fn wf(&self) -> bool {
        &&& 0 < self.half_w <= HALF_LIMIT
        &&& 0 < self.half_h <= HALF_LIMIT
        &&& self.boids@.len() <= MAX_BOIDS
        &&& healthy_flock(self.boids@, self.half_w as int, self.half_h as int, self.next_id)
        &&& self.turrets@.len() <= MAX_TURRETS
        &&& all_turrets_wf(self.turrets@)
        &&& turrets_within(self.turrets@)
    }

    /// A new world of the given half extents, with its initial flock and
    /// turrets and no beams.
    pub fn new(half_w: i64, half_h: i64) -> (r: World)
        requires
            0 < half_w <= HALF_LIMIT,
            0 < half_h <= HALF_LIMIT,
        ensures
            r.wf(),
            r.half_w == half_w,
            r.half_h == half_h,
            r.boids@.len() == INITIAL_FLOCK + 4,
            forall|k: int| 0 <= k < INITIAL_FLOCK
                ==> crate::population::starts_plain(#[trigger] r.boids@[k], k, half_w as int, half_h as int),
            forall|k: int| 0 <= k < 4
                ==> crate::population::starts_marked(#[trigger] r.boids@[INITIAL_FLOCK + k], k, half_w, half_h),
            r.turrets@.len() == 5,
            forall|i: int| 0 <= i < 5 ==> (#[trigger] r.turrets@[i]) == (Turret {
                position: turret_spot(i, half_w, half_h),
                range: TURRET_RANGE,
                target: None,
                cooldown: Countdown::new_spec(RETARGET_DELAY),
            }),
            r.beams@.len() == 0,
            r.next_id == INITIAL_FLOCK + 4,
    {
        let boids = setup_boids(half_w, half_h);
        let turrets = setup_turrets(half_w, half_h);
        proof {
            assert forall|i: int| 0 <= i < turrets@.len() implies (#[trigger] turrets@[i]).wf()
                && crate::model::within(turrets@[i].position, WORLD_LIMIT as int) by {
                assert(turrets@[i].position == turret_spot(i, half_w, half_h));
            }
            assert(forall|i: int| 0 <= i < boids@.len() ==> flock_valid(#[trigger] boids@[i], half_w as int, half_h as int));
        }
        World { boids, turrets, beams: Vec::new(), next_id: (INITIAL_FLOCK + 4) as u64, half_w, half_h }
    }

    /// One tick of `dt` microseconds. `wander[i]` is the wander push of
    /// boid `i`.
    #[verifier::rlimit(50)]
    pub fn tick(&mut self, wander: &Vec<Vector>, dt: u64)
        requires
            old(self).wf(),
            wander.len() == old(self).boids.len(),
            forall|i: int| 0 <= i < wander.len() ==> abs((#[trigger] wander@[i]).x as int) <= WANDER_LIMIT
                && abs(wander@[i].y as int) <= WANDER_LIMIT,
            dt <= MICROS_PER_SECOND,
            old(self).next_id <= u64::MAX - SPAWN_BATCH,
        ensures
            final(self).wf(),
            final(self).half_w == old(self).half_w,
            final(self).half_h == old(self).half_h,
            final(self).turrets@.len() == old(self).turrets@.len(),
            old(self).next_id <= final(self).next_id <= old(self).next_id + SPAWN_BATCH,
            ({
                let moved = motion(old(self).boids@, wander@, old(self).half_w as int, old(self).half_h as int, dt);
                let live = survivors(moved.map_values(|b: Boid| crate::combat::damaged(b, final(self).turrets@, dt)));
                &&& forall|i: int| 0 <= i < old(self).turrets@.len() ==> (#[trigger] final(self).turrets@[i])
                    == old(self).turrets@[i].retargeted(moved, dt)
                &&& forall|i: int| 0 <= i < final(self).turrets@.len() && (#[trigger] final(self).turrets@[i]).target.is_some()
                    ==> final(self).turrets@[i].has_live_target(moved)
                &&& final(self).beams@ == beams_of(final(self).turrets@, moved)
                &&& forall|a: int, b: int| 0 <= a < b < final(self).beams@.len()
                    ==> final(self).beams@[a].owner < final(self).beams@[b].owner
                &&& final(self).boids@.len() == live.len() + spawn_count_spec(live.len() as int)
                &&& final(self).boids@.subrange(0, live.len() as int) == live
            }),
            forall|i: int| 0 <= i < final(self).boids@.len() ==> exists|j: int| 0 <= j < old(self).boids@.len()
                && (#[trigger] final(self).boids@[i]).id == old(self).boids@[j].id
                && final(self).boids@[i].health <= old(self).boids@[j].health
                || final(self).boids@[i].id >= old(self).next_id && final(self).boids@[i].health == FULL_HEALTH,
    {
        let hw = self.half_w;
        let hh = self.half_h;
        move_flock(&mut self.boids, wander, hw, hh, dt, self.next_id);
        let ghost moved = self.boids@;
        assert(moved =~= motion(old(self).boids@, wander@, hw as int, hh as int, dt));
        let ghost before = self.turrets@;
        update_turrets(&mut self.turrets, &self.boids, dt);
        assert(turrets_within(self.turrets@)) by {
            assert forall|i: int| 0 <= i < self.turrets@.len()
                implies crate::model::within((#[trigger] self.turrets@[i]).position, WORLD_LIMIT as int) by {
                assert(self.turrets@[i].position == before[i].position);
            }
        }
        self.beams = beams(&self.turrets, &self.boids);
        proof { crate::combat::lemma_one_beam_per_turret(self.turrets@, self.boids@); }
        strike(&mut self.boids, &self.turrets, hw, hh, self.next_id, dt);
        let ghost struck = self.boids@;
        let ghost first_new = self.next_id;
        replenish(&mut self.boids, &mut self.next_id, hw, hh);
        proof {
            let start = old(self).boids@;
            let b = self.boids@;
            assert forall|i: int| 0 <= i < b.len() implies exists|j: int| 0 <= j < start.len()
                && (#[trigger] b[i]).id == start[j].id && b[i].health <= start[j].health
                || b[i].id >= first_new && b[i].health == FULL_HEALTH by {
                if i < struck.len() {
                    assert(b.subrange(0, struck.len() as int)[i] == b[i]);
                    let k = choose|k: int| 0 <= k < moved.len() && struck[i].id == moved[k].id
                        && struck[i].health <= moved[k].health;
                    assert(moved[k].id == start[k].id && moved[k].health == start[k].health);
                }
            }
        }
    }
}

/// The flock after flocking and wrapping, every boid reading the flock `s`
/// as it stood at the start of the tick.
pub open spec fn motion(s: Seq<Boid>, wander: Seq<Vector>, half_w: int, half_h: int, dt: u64) -> Seq<Boid> {
    Seq::new(s.len(), |i: int| moved_and_wrapped(s[i], s, half_w, half_h, wander[i], dt))
}

/// A boid after the flocking step and the wrap at the borders.
pub open spec fn moved_and_wrapped(b: Boid, s: Seq<Boid>, half_w: int, half_h: int, wander: Vector, dt: u64) -> Boid {
    let m = crate::flock::moved(b, s, half_w, half_h, wander, dt);
    Boid {
        position: Vector {
            x: wrap_spec(m.position.x as int, half_w) as i64,
            y: wrap_spec(m.position.y as int, half_h) as i64,
        },
        ..m
    }
}

/// Flocking followed by the wrap at the borders.
pub fn move_flock(boids: &mut Vec<Boid>, wander: &Vec<Vector>, half_w: i64, half_h: i64, dt: u64, next_id: u64)
    requires
        0 <= half_w <= HALF_LIMIT,
        0 <= half_h <= HALF_LIMIT,
        old(boids).len() <= MAX_BOIDS,
        healthy_flock(old(boids)@, half_w as int, half_h as int, next_id),
        wander.len() == old(boids).len(),
        forall|i: int| 0 <= i < wander.len() ==> abs((#[trigger] wander@[i]).x as int) <= WANDER_LIMIT
            && abs(wander@[i].y as int) <= WANDER_LIMIT,
        dt <= MICROS_PER_SECOND,
    ensures
        final(boids)@.len() == old(boids)@.len(),
        forall|i: int| 0 <= i < old(boids)@.len() ==> final(boids)@[i] == moved_and_wrapped(
            #[trigger] old(boids)@[i], old(boids)@, half_w as int, half_h as int, wander@[i], dt),
        healthy_flock(final(boids)@, half_w as int, half_h as int, next_id),
        all_within(final(boids)@),
        all_bounded(final(boids)@),
{
    let ghost start = boids@;
    update_boids(boids, wander, half_w, half_h, dt);
    let ghost moved = boids@;
    wrap_boids(boids, half_w, half_h);
    proof {
        let w = boids@;
        assert forall|i: int| 0 <= i < w.len() implies flock_valid(#[trigger] w[i], half_w as int, half_h as int)
            && crate::model::within(w[i].position, WORLD_LIMIT as int) && w[i].position.bounded()
            && w[i].id == start[i].id && w[i].health == start[i].health && w[i].flash.wf() by {
            assert(moved[i].velocity.len_sq() <= MAX_SPEED * MAX_SPEED);
            lemma_component_of_short(w[i].velocity, MAX_SPEED as int);
        }
        assert(ids_increasing(w));
    }
}

/// Beam damage, then removal of the boids it killed.
pub fn strike(boids: &mut Vec<Boid>, turrets: &Vec<Turret>, half_w: i64, half_h: i64, next_id: u64, dt: u64)
    requires
        0 <= half_w <= HALF_LIMIT,
        0 <= half_h <= HALF_LIMIT,
        healthy_flock(old(boids)@, half_w as int, half_h as int, next_id),
        all_bounded(old(boids)@),
        all_turrets_wf(turrets@),
        turrets.len() <= MAX_TURRETS,
        dt <= MICROS_PER_SECOND,
    ensures
        final(boids)@ == survivors(old(boids)@.map_values(|b: Boid| crate::combat::damaged(b, turrets@, dt))),
        final(boids)@.len() <= old(boids)@.len(),
        healthy_flock(final(boids)@, half_w as int, half_h as int, next_id),
        forall|i: int| 0 <= i < final(boids)@.len() ==> exists|j: int| 0 <= j < old(boids)@.len()
            && (#[trigger] final(boids)@[i]).id == old(boids)@[j].id
            && final(boids)@[i].health <= old(boids)@[j].health,
{
    let ghost start = boids@;
    apply_damage(boids, turrets, dt);
    let ghost hit = boids@;
    proof {
        assert(hit =~= start.map_values(|b: Boid| crate::combat::damaged(b, turrets@, dt)));
        assert forall|i: int| 0 <= i < hit.len() implies flock_valid(#[trigger] hit[i], half_w as int, half_h as int)
            && hit[i].id == start[i].id && hit[i].health <= start[i].health && hit[i].flash.wf() by {
            lemma_damage_never_heals(start[i], turrets@, dt);
        }
        assert(ids_increasing(hit));
    }
    remove_dead(boids);
    proof {
        let live = boids@;
        lemma_survivors(hit);
        assert forall|i: int| 0 <= i < live.len() implies flock_valid(#[trigger] live[i], half_w as int, half_h as int)
            && live[i].id < next_id && 0 < live[i].health <= FULL_HEALTH && live[i].flash.wf() by {
            let j = choose|j: int| 0 <= j < hit.len() && hit[j] == live[i];
            assert(flock_valid(hit[j], half_w as int, half_h as int));
        }
        assert forall|i: int| 0 <= i < live.len() implies exists|j: int| 0 <= j < start.len()
            && (#[trigger] live[i]).id == start[j].id && live[i].health <= start[j].health by {
            let j = choose|j: int| 0 <= j < hit.len() && hit[j] == live[i];
            assert(hit[j].id == start[j].id && hit[j].health <= start[j].health);
        }
    }
}

/// Tops the flock up (see `respawn`), keeping the world's invariant.
pub fn replenish(boids: &mut Vec<Boid>, next_id: &mut u64, half_w: i64, half_h: i64)
    requires
        0 < half_w <= HALF_LIMIT,
        0 < half_h <= HALF_LIMIT,
        old(boids).len() <= MAX_BOIDS,
        healthy_flock(old(boids)@, half_w as int, half_h as int, *old(next_id)),
        *old(next_id) <= u64::MAX - SPAWN_BATCH,
    ensures
        final(boids)@.len() == old(boids)@.len() + spawn_count_spec(old(boids)@.len() as int),
        final(boids)@.subrange(0, old(boids)@.len() as int) == old(boids)@,
        final(boids)@.len() <= MAX_BOIDS,
        healthy_flock(final(boids)@, half_w as int, half_h as int, *final(next_id)),
        *old(next_id) <= *final(next_id) <= *old(next_id) + SPAWN_BATCH,
        forall|i: int| old(boids)@.len() <= i < final(boids)@.len() ==> (#[trigger] final(boids)@[i]).id
            >= *old(next_id) && final(boids)@[i].health == FULL_HEALTH,
{
    let ghost live = boids@;
    respawn(boids, next_id, half_w, half_h);
    proof {
        let b = boids@;
        assert(b.subrange(0, live.len() as int) == live);
        assert forall|i: int| 0 <= i < b.len() implies flock_valid(#[trigger] b[i], half_w as int, half_h as int)
            && b[i].id < *next_id && 0 < b[i].health <= FULL_HEALTH && b[i].flash.wf() by {
            if i < live.len() {
                assert(b[i] == live[i]);
            }
        }
        assert forall|i: int, j: int| 0 <= i < j < b.len() implies b[i].id < b[j].id by {
            if j < live.len() {
                assert(b[i] == live[i] && b[j] == live[j]);
            } else if i < live.len() {
                assert(b[i] == live[i]);
            }
        }
    }
}

/// What the world keeps true of its boids between ticks.
pub open spec fn healthy_flock(s: Seq<Boid>, half_w: int, half_h: int, next_id: u64) -> bool {
    &&& ids_increasing(s)
    &&& forall|i: int| 0 <= i < s.len() ==> (#[trigger] s[i]).id < next_id
    &&& all_flock_valid(s, half_w, half_h)
    &&& all_flash_wf(s)
    &&& forall|i: int| 0 <= i < s.len() ==> 0 < (#[trigger] s[i]).health <= FULL_HEALTH
}

} // verus!
