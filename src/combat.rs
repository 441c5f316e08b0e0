//! Turret targeting, beam tracking and damage.
use vstd::prelude::*;
use crate::geom::{Vector, dist_sq, distance_squared, lemma_square_monotone, tdiv, div_toward_zero};
use crate::model::{Boid, Beam, Turret, Countdown, index_of, ids_unique, lemma_index_of, find_boid, FULL_HEALTH, MICROS_PER_SECOND, WORLD_LIMIT, within};

verus! {

/// How long a turret waits after losing a target before it picks another.
pub const RETARGET_DELAY: u64 = 500_000;

/// Largest range a turret may have.
pub const RANGE_LIMIT: i64 = 1_099_511_627_776;

impl Turret {
    pub open spec fn wf(self) -> bool {
        &&& self.position.bounded()
        &&& 0 <= self.range <= RANGE_LIMIT
        &&& self.cooldown.wf()
        &&& self.cooldown.duration > 0
    }

    /// A point within the range, its edge included.
    pub open spec fn reaches(self, p: Vector) -> bool {
        reaches_from(self.position, self.range as int, p)
    }

    /// The target names a boid that exists and is within range.
    pub open spec fn has_live_target(self, boids: Seq<Boid>) -> bool {
        match self.target {
            Some(id) => match index_of(boids, id) {
                Some(i) => self.reaches(boids[i].position),
                None => false,
            },
            None => false,
        }
    }

    /// Index of the closest boid within range; the first one wins a tie.
    pub open spec fn nearest(self, boids: Seq<Boid>) -> Option<int> {
        nearest_from(self.position, self.range as int, boids)
    }

    /// The turret after one tick of targeting: the cooldown advances, a
    /// target that died or left range is dropped and the cooldown restarts,
    /// and a turret without a target whose cooldown has run out takes the
    /// closest boid in range.
    pub open spec fn retargeted(self, boids: Seq<Boid>, dt: u64) -> Turret {
        let c = self.cooldown.ticked(dt);
        if self.has_live_target(boids) {
            Turret { cooldown: c, ..self }
        } else if self.target.is_some() {
            Turret { target: None, cooldown: Countdown { duration: c.duration, elapsed: 0 }, ..self }
        } else if c.is_finished() {
            Turret {
                target: match self.nearest(boids) {
                    Some(i) => Some(boids[i].id),
                    None => None,
                },
                cooldown: c,
                ..self
            }
        } else {
            Turret { cooldown: c, ..self }
        }
    }
}

pub open spec fn reaches_from(origin: Vector, range: int, p: Vector) -> bool {
    dist_sq(origin, p) <= range * range
}

/// Index of the boid closest to `origin` among those within `range` (its
/// edge included); the first one wins a tie.
pub open spec fn nearest_from(origin: Vector, range: int, boids: Seq<Boid>) -> Option<int>
    decreases boids.len(),
{
    if boids.len() == 0 {
        None
    } else {
        let prev = nearest_from(origin, range, boids.drop_last());
        let d = dist_sq(origin, boids.last().position);
        if reaches_from(origin, range, boids.last().position) && match prev {
            Some(k) => d < dist_sq(origin, boids[k].position),
            None => true,
        } {
            Some(boids.len() - 1)
        } else {
            prev
        }
    }
}

pub open spec fn all_bounded(boids: Seq<Boid>) -> bool {
    forall|i: int| 0 <= i < boids.len() ==> (#[trigger] boids[i]).position.bounded()
}

/// What the closest-boid choice guarantees: the boid is in range, no boid in
/// range is closer, and every earlier boid in range is strictly farther.
pub proof fn lemma_nearest(t: Turret, boids: Seq<Boid>)
    ensures
        match t.nearest(boids) {
            Some(i) => {
                &&& 0 <= i < boids.len()
                &&& t.reaches(boids[i].position)
                &&& forall|j: int| 0 <= j < boids.len() && t.reaches(boids[j].position)
                    ==> dist_sq(t.position, boids[i].position) <= dist_sq(t.position, boids[j].position)
                &&& forall|j: int| 0 <= j < i && t.reaches(boids[j].position)
                    ==> dist_sq(t.position, boids[i].position) < dist_sq(t.position, boids[j].position)
            },
            None => forall|j: int| 0 <= j < boids.len() ==> !t.reaches(boids[j].position),
        },
    decreases boids.len(),
{
    if boids.len() > 0 {
        let d = boids.drop_last();
        lemma_nearest(t, d);
        assert(forall|j: int| 0 <= j < d.len() ==> d[j] == boids[j]);
        assert(t.nearest(d) == nearest_from(t.position, t.range as int, d));
    }
}

/// Index of the closest boid within the turret's range.
pub fn nearest_boid(t: &Turret, boids: &Vec<Boid>) -> (r: Option<usize>)
    requires
        t.wf(),
        all_bounded(boids@),
    ensures
        r == match t.nearest(boids@) {
            Some(i) => Some(i as usize),
            None => None::<usize>,
        },
        match r {
            Some(i) => i < boids.len(),
            None => true,
        },
{
    proof { lemma_square_monotone(t.range as int, RANGE_LIMIT as int); }
    let reach = t.range as u128 * t.range as u128;
    let mut best: Option<usize> = None;
    let mut best_d: u128 = 0;
    let mut i: usize = 0;
    while i < boids.len()
        invariant
            t.wf(),
            all_bounded(boids@),
            i <= boids.len(),
            reach == t.range * t.range,
            match t.nearest(boids@.subrange(0, i as int)) {
                Some(k) => k < i && best == Some(k as usize) && best_d == dist_sq(t.position, boids@[k].position),
                None => best.is_none(),
            },
        decreases boids.len() - i,
    {
        let d = distance_squared(&t.position, &boids[i].position);
        proof {
            let s = boids@.subrange(0, i as int + 1);
            assert(s.drop_last() =~= boids@.subrange(0, i as int));
            assert(s.last() == boids@[i as int]);
            lemma_nearest(*t, boids@.subrange(0, i as int));
            match t.nearest(boids@.subrange(0, i as int)) {
                Some(k) => { assert(s[k] == boids@[k]); },
                None => {},
            }
        }
        if d <= reach && (best.is_none() || d < best_d) {
            best = Some(i);
            best_d = d;
        }
        i = i + 1;
    }
    assert(boids@.subrange(0, boids.len() as int) =~= boids@);
    proof { lemma_nearest(*t, boids@); }
    best
}

impl Turret {
    /// Whether the target names a boid that exists and is within range.
    pub fn target_is_live(&self, boids: &Vec<Boid>) -> (r: bool)
        requires
            self.wf(),
            all_bounded(boids@),
        ensures
            r == self.has_live_target(boids@),
    {
        match self.target {
            Some(id) => match find_boid(boids, id) {
                Some(i) => {
                    proof {
                        lemma_square_monotone(self.range as int, RANGE_LIMIT as int);
                        lemma_index_of(boids@, id);
                    }
                    let d = distance_squared(&self.position, &boids[i].position);
                    let reach = self.range as u128 * self.range as u128;
                    assert(index_of(boids@, id) == Some(i as int));
                    assert(reach == self.range * self.range);
                    d <= reach
                },
                None => false,
            },
            None => false,
        }
    }

    /// One tick of targeting.
    pub fn retarget(&mut self, boids: &Vec<Boid>, dt: u64)
        requires
            old(self).wf(),
            all_bounded(boids@),
        ensures
            *final(self) == old(self).retargeted(boids@, dt),
            final(self).wf(),
    {
        proof { lemma_nearest(*self, boids@); }
        let live = self.target_is_live(boids);
        self.cooldown.tick(dt);
        if !live && self.target.is_some() {
            self.target = None;
            self.cooldown.reset();
        } else if self.target.is_none() && self.cooldown.finished() {
            self.target = match nearest_boid(self, boids) {
                Some(i) => Some(boids[i].id),
                None => None,
            };
        }
    }
}

/// Right after a turret's targeting tick, a target it holds is a boid that
/// exists and is within its range.
pub proof fn lemma_retarget_keeps_target_live(t: Turret, boids: Seq<Boid>, dt: u64)
    requires
        ids_unique(boids),
    ensures
        t.retargeted(boids, dt).target.is_some() ==> t.retargeted(boids, dt).has_live_target(boids),
{
    lemma_nearest(t, boids);
    match t.nearest(boids) {
        Some(i) => {
            lemma_index_of(boids, boids[i].id);
            match index_of(boids, boids[i].id) {
                Some(k) => { assert(k == i); },
                None => {},
            }
        },
        None => {},
    }
}

/// Sum of the tick lengths.
pub open spec fn total_time(dts: Seq<u64>) -> int
    decreases dts.len(),
{
    if dts.len() == 0 { 0 } else { total_time(dts.drop_last()) + dts.last() }
}

/// A turret after a run of targeting ticks, tick `i` seeing the flock
/// `flocks[i]` and lasting `dts[i]`.
pub open spec fn retargeted_over(t: Turret, flocks: Seq<Seq<Boid>>, dts: Seq<u64>) -> Turret
    decreases dts.len(),
{
    if dts.len() == 0 || flocks.len() != dts.len() {
        t
    } else {
        retargeted_over(t, flocks.drop_last(), dts.drop_last()).retargeted(flocks.last(), dts.last())
    }
}

/// A turret without a target takes no new one before its cooldown runs
/// out: over any run of ticks that ends before the delay has passed, it
/// stays without a target (and so has no beam), however close the boids
/// come, and its cooldown has advanced by the time that passed.
pub proof fn lemma_no_reacquire_during_cooldown(t: Turret, flocks: Seq<Seq<Boid>>, dts: Seq<u64>)
    requires
        t.target.is_none(),
        t.cooldown.wf(),
        flocks.len() == dts.len(),
        t.cooldown.elapsed + total_time(dts) < t.cooldown.duration,
    ensures
        retargeted_over(t, flocks, dts).target.is_none(),
        retargeted_over(t, flocks, dts).cooldown.elapsed == t.cooldown.elapsed + total_time(dts),
        retargeted_over(t, flocks, dts).cooldown.duration == t.cooldown.duration,
    decreases dts.len(),
{
    if dts.len() > 0 {
        lemma_no_reacquire_during_cooldown(t, flocks.drop_last(), dts.drop_last());
    }
}

pub open spec fn all_turrets_wf(turrets: Seq<Turret>) -> bool {
    forall|i: int| 0 <= i < turrets.len() ==> (#[trigger] turrets[i]).wf()
}

/// Runs one tick of targeting for every turret.
pub fn update_turrets(turrets: &mut Vec<Turret>, boids: &Vec<Boid>, dt: u64)
    requires
        all_turrets_wf(old(turrets)@),
        all_bounded(boids@),
    ensures
        final(turrets)@.len() == old(turrets)@.len(),
        forall|i: int| 0 <= i < old(turrets)@.len()
            ==> final(turrets)@[i] == (#[trigger] old(turrets)@[i]).retargeted(boids@, dt),
        all_turrets_wf(final(turrets)@),
        forall|i: int| 0 <= i < old(turrets)@.len() ==> (#[trigger] final(turrets)@[i]).position
            == old(turrets)@[i].position,
        ids_unique(boids@) ==> forall|i: int| 0 <= i < final(turrets)@.len()
            && (#[trigger] final(turrets)@[i]).target.is_some() ==> final(turrets)@[i].has_live_target(boids@),
{
    let ghost before = turrets@;
    let mut i: usize = 0;
    while i < turrets.len()
        invariant
            turrets@.len() == before.len(),
            i <= turrets@.len(),
            all_bounded(boids@),
            forall|k: int| 0 <= k < i ==> turrets@[k] == (#[trigger] before[k]).retargeted(boids@, dt),
            forall|k: int| i <= k < turrets@.len() ==> turrets@[k] == before[k],
            all_turrets_wf(before),
            all_turrets_wf(turrets@),
        decreases turrets@.len() - i,
    {
        let mut t = turrets[i];
        assert(t.wf());
        t.retarget(boids, dt);
        turrets.set(i, t);
        i = i + 1;
    }
    proof {
        assert forall|i: int| 0 <= i < before.len() implies (#[trigger] turrets@[i]).position
            == before[i].position by {
            assert(turrets@[i] == before[i].retargeted(boids@, dt));
        }
        if ids_unique(boids@) {
            lemma_targets_live_after_pass(before, turrets@, boids@, dt);
        }
    }
}

/// After the targeting pass, every target that a turret holds is a boid that
/// exists and is within that turret's range.
pub proof fn lemma_targets_live_after_pass(before: Seq<Turret>, after: Seq<Turret>, boids: Seq<Boid>, dt: u64)
    requires
        ids_unique(boids),
        after.len() == before.len(),
        forall|i: int| 0 <= i < before.len() ==> after[i] == (#[trigger] before[i]).retargeted(boids, dt),
    ensures
        forall|i: int| 0 <= i < after.len() && (#[trigger] after[i]).target.is_some()
            ==> after[i].has_live_target(boids),
{
    assert forall|i: int| 0 <= i < after.len() && (#[trigger] after[i]).target.is_some()
        implies after[i].has_live_target(boids) by {
        lemma_retarget_keeps_target_live(before[i], boids, dt);
    }
}

/// Health lost per second under one beam, in millionths.
pub const DAMAGE_PER_SECOND: i64 = 500_000;

/// How long a boid flashes after it is hit.
pub const FLASH_DURATION: u64 = 500_000;

/// Most turrets the damage pass accepts.
pub const MAX_TURRETS: usize = 65_536;

/// Health one beam takes in `dt` microseconds.
pub open spec fn damage_for(dt: u64) -> int {
    dt * DAMAGE_PER_SECOND / MICROS_PER_SECOND as int
}

/// The turret fires at this boid and the boid is within range (the edge
/// of the range included).
pub open spec fn engages(t: Turret, b: Boid) -> bool {
    t.target == Some(b.id) && dist_sq(t.position, b.position) <= t.range * t.range
}

/// Number of turrets that fire at `b`.
pub open spec fn hits(turrets: Seq<Turret>, b: Boid) -> int
    decreases turrets.len(),
{
    if turrets.len() == 0 {
        0
    } else {
        hits(turrets.drop_last(), b) + if engages(turrets.last(), b) { 1int } else { 0int }
    }
}

pub proof fn lemma_hits_bounds(turrets: Seq<Turret>, b: Boid)
    ensures
        0 <= hits(turrets, b) <= turrets.len(),
    decreases turrets.len(),
{
    if turrets.len() > 0 {
        lemma_hits_bounds(turrets.drop_last(), b);
    }
}

/// A boid after the damage pass: each beam on it takes its share of health,
/// and a hit restarts the flash unless it is already running.
pub open spec fn damaged(b: Boid, turrets: Seq<Turret>, dt: u64) -> Boid {
    let n = hits(turrets, b);
    Boid {
        health: (b.health - n * damage_for(dt)) as i64,
        flash: if n > 0 && b.flash.is_finished() {
            Countdown { duration: FLASH_DURATION, elapsed: 0 }
        } else {
            b.flash
        },
        ..b
    }
}

pub open spec fn damage_ready(boids: Seq<Boid>) -> bool {
    &&& ids_unique(boids)
    &&& all_bounded(boids)
    &&& forall|i: int| 0 <= i < boids.len() ==> 0 < (#[trigger] boids[i]).health <= FULL_HEALTH
}

/// Applies one tick of beam damage to every boid.
pub fn apply_damage(boids: &mut Vec<Boid>, turrets: &Vec<Turret>, dt: u64)
    requires
        damage_ready(old(boids)@),
        all_turrets_wf(turrets@),
        turrets.len() <= MAX_TURRETS,
        dt <= MICROS_PER_SECOND,
    ensures
        final(boids)@.len() == old(boids)@.len(),
        forall|i: int| 0 <= i < old(boids)@.len()
            ==> final(boids)@[i] == damaged(#[trigger] old(boids)@[i], turrets@, dt),
{
    let ghost before = boids@;
    let dmg: i64 = (dt as i64) * DAMAGE_PER_SECOND / (MICROS_PER_SECOND as i64);
    assert(dmg == damage_for(dt));
    assert(0 <= dmg <= DAMAGE_PER_SECOND);
    let mut k: usize = 0;
    while k < turrets.len()
        invariant
            k <= turrets.len() <= MAX_TURRETS,
            damage_ready(before),
            all_turrets_wf(turrets@),
            dmg == damage_for(dt),
            dt <= MICROS_PER_SECOND,
            0 <= dmg <= DAMAGE_PER_SECOND,
            boids@.len() == before.len(),
            forall|i: int| 0 <= i < before.len()
                ==> boids@[i] == damaged(#[trigger] before[i], turrets@.subrange(0, k as int), dt),
        decreases turrets.len() - k,
    {
        let t = turrets[k];
        let ghost pre = turrets@.subrange(0, k as int);
        let ghost post = turrets@.subrange(0, k as int + 1);
        assert(post.drop_last() =~= pre);
        assert(post.last() == t);
        let ghost snapshot = boids@;
        proof {
            assert forall|i: int| 0 <= i < before.len() implies boids@[i].id == before[i].id
                && boids@[i].position == before[i].position by {
                assert(boids@[i] == damaged(before[i], pre, dt));
            }
        }
        if let Some(id) = t.target {
            if let Some(j) = find_boid(boids, id) {
                proof {
                    lemma_square_monotone(t.range as int, RANGE_LIMIT as int);
                    lemma_hits_bounds(pre, before[j as int]);
                    lemma_damage_never_heals(before[j as int], pre, dt);
                    assert(boids@[j as int] == damaged(before[j as int], pre, dt));
                }
                let d = distance_squared(&t.position, &boids[j].position);
                if d <= t.range as u128 * t.range as u128 {
                    let mut b = boids[j];
                    assert(hits(pre, before[j as int]) <= MAX_TURRETS);
                    assert(b.health >= before[j as int].health - MAX_TURRETS * DAMAGE_PER_SECOND) by (nonlinear_arith)
                        requires
                            b.health == before[j as int].health - hits(pre, before[j as int]) * dmg,
                            0 <= hits(pre, before[j as int]) <= MAX_TURRETS,
                            0 <= dmg <= DAMAGE_PER_SECOND,
                    ;
                    b.health = b.health - dmg;
                    if b.flash.finished() {
                        b.flash = Countdown::new(FLASH_DURATION);
                    }
                    boids.set(j, b);
                    proof {
                        assert forall|i: int| 0 <= i < before.len()
                            implies boids@[i] == damaged(#[trigger] before[i], post, dt) by {
                            lemma_hits_bounds(pre, before[i]);
                            lemma_damage_never_heals(before[i], pre, dt);
                            lemma_damage_never_heals(before[i], post, dt);
                            if i != j {
                                assert(before[i].id != before[j as int].id);
                            } else {
                                assert(engages(t, before[i]));
                                assert((before[i].health - hits(pre, before[i]) * dmg) - dmg
                                    == before[i].health - (hits(pre, before[i]) + 1) * dmg) by (nonlinear_arith);
                            }
                        }
                    }
                } else {
                    proof {
                        assert forall|i: int| 0 <= i < before.len()
                            implies boids@[i] == damaged(#[trigger] before[i], post, dt) by {
                            if i != j {
                                assert(before[i].id != before[j as int].id);
                            }
                        }
                    }
                }
            } else {
                proof {
                    lemma_index_of(snapshot, id);
                    assert forall|i: int| 0 <= i < before.len()
                        implies boids@[i] == damaged(#[trigger] before[i], post, dt) by {
                        assert(snapshot[i].id == before[i].id);
                    }
                }
            }
        } else {
            proof {
                assert forall|i: int| 0 <= i < before.len()
                    implies boids@[i] == damaged(#[trigger] before[i], post, dt) by {
                }
            }
        }
        k = k + 1;
    }
    assert(turrets@.subrange(0, turrets.len() as int) =~= turrets@);
}

/// Damage never heals: health after the damage pass is at most what it was.
pub proof fn lemma_damage_never_heals(b: Boid, turrets: Seq<Turret>, dt: u64)
    requires
        0 < b.health <= FULL_HEALTH,
        turrets.len() <= MAX_TURRETS,
        dt <= MICROS_PER_SECOND,
    ensures
        damaged(b, turrets, dt).health <= b.health,
        damaged(b, turrets, dt).health == b.health - hits(turrets, b) * damage_for(dt),
        0 <= hits(turrets, b) * damage_for(dt) <= MAX_TURRETS * DAMAGE_PER_SECOND,
{
    lemma_hits_bounds(turrets, b);
    let n = hits(turrets, b);
    let d = damage_for(dt);
    assert(0 <= d <= DAMAGE_PER_SECOND);
    assert(0 <= n * d <= MAX_TURRETS * DAMAGE_PER_SECOND) by (nonlinear_arith)
        requires
            0 <= n <= MAX_TURRETS,
            0 <= d <= DAMAGE_PER_SECOND,
    ;
}

pub open spec fn alive(b: Boid) -> bool {
    b.health > 0
}

/// The boids whose health has not run out, in order.
pub open spec fn survivors(s: Seq<Boid>) -> Seq<Boid> {
    s.filter(|b: Boid| alive(b))
}

/// Drops every boid whose health has run out, keeping the order of the rest.
pub fn remove_dead(boids: &mut Vec<Boid>)
    ensures
        final(boids)@ == survivors(old(boids)@),
{
    let ghost before = boids@;
    let mut kept: Vec<Boid> = Vec::new();
    let mut i: usize = 0;
    while i < boids.len()
        invariant
            boids@ == before,
            i <= before.len(),
            kept@ == before.subrange(0, i as int).filter(|b: Boid| alive(b)),
        decreases before.len() - i,
    {
        let b = boids[i];
        proof {
            let s = before.subrange(0, i as int + 1);
            assert(s.drop_last() =~= before.subrange(0, i as int));
            reveal(Seq::filter);
        }
        if b.health > 0 {
            kept.push(b);
        }
        i = i + 1;
    }
    assert(before.subrange(0, before.len() as int) =~= before);
    *boids = kept;
}

/// The survivors of `remove_dead` are live boids taken from the input, in
/// its order.
pub proof fn lemma_survivors(s: Seq<Boid>)
    ensures
        forall|i: int| 0 <= i < survivors(s).len()
            ==> alive(#[trigger] survivors(s)[i])
                && exists|j: int| 0 <= j < s.len() && s[j] == survivors(s)[i],
        crate::model::ids_increasing(s) ==> crate::model::ids_increasing(survivors(s)),
        survivors(s).len() <= s.len(),
    decreases s.len(),
{
    reveal(Seq::filter);
    let f = survivors(s);
    assert(f == s.filter(|b: Boid| alive(b)));
    if s.len() > 0 {
        let d = s.drop_last();
        lemma_survivors(d);
        let g = survivors(d);
        assert(forall|j: int| 0 <= j < d.len() ==> d[j] == s[j]);
        assert forall|i: int| 0 <= i < f.len()
            implies alive(#[trigger] f[i]) && exists|j: int| 0 <= j < s.len() && s[j] == f[i] by {
            if i < g.len() {
                assert(f[i] == g[i]);
                let j = choose|j: int| 0 <= j < d.len() && d[j] == g[i];
                assert(s[j] == f[i]);
            } else {
                assert(s[s.len() - 1] == f[i]);
            }
        }
        if crate::model::ids_increasing(s) {
            assert forall|i: int, k: int| 0 <= i < k < f.len() implies f[i].id < f[k].id by {
                if k < g.len() {
                    assert(f[i] == g[i] && f[k] == g[k]);
                } else {
                    assert(f[i] == g[i]);
                    let j = choose|j: int| 0 <= j < d.len() && d[j] == g[i];
                    assert(f[k] == s[s.len() - 1]);
                }
            }
        }
    }
}

/// Index of the boid that a turret fires at, if that boid exists.
pub open spec fn aimed_at(t: Turret, boids: Seq<Boid>) -> Option<int> {
    match t.target {
        Some(id) => index_of(boids, id),
        None => None,
    }
}

/// The beam from a turret at `from` to a target at `to`.
pub open spec fn beam_between(owner: usize, from: Vector, to: Vector) -> Beam {
    let dir = Vector { x: (to.x - from.x) as i64, y: (to.y - from.y) as i64 };
    Beam {
        owner,
        direction: dir,
        length: dir.norm() as i64,
        midpoint: Vector {
            x: (from.x + tdiv(dir.x as int, 2)) as i64,
            y: (from.y + tdiv(dir.y as int, 2)) as i64,
        },
    }
}

/// One beam for each turret whose target exists, in turret order.
pub open spec fn beams_of(turrets: Seq<Turret>, boids: Seq<Boid>) -> Seq<Beam>
    decreases turrets.len(),
{
    if turrets.len() == 0 {
        Seq::empty()
    } else {
        let prev = beams_of(turrets.drop_last(), boids);
        let t = turrets.last();
        match aimed_at(t, boids) {
            Some(i) => prev.push(beam_between((turrets.len() - 1) as usize, t.position, boids[i].position)),
            None => prev,
        }
    }
}

pub open spec fn all_within(boids: Seq<Boid>) -> bool {
    forall|i: int| 0 <= i < boids.len() ==> within((#[trigger] boids[i]).position, WORLD_LIMIT as int)
}

pub open spec fn turrets_within(turrets: Seq<Turret>) -> bool {
    forall|i: int| 0 <= i < turrets.len() ==> within((#[trigger] turrets[i]).position, WORLD_LIMIT as int)
}

/// The beam from a turret at `from` to a target at `to`.
pub fn make_beam(owner: usize, from: Vector, to: Vector) -> (r: Beam)
    requires
        within(from, WORLD_LIMIT as int),
        within(to, WORLD_LIMIT as int),
    ensures
        r == beam_between(owner, from, to),
{
    let dir = Vector { x: to.x - from.x, y: to.y - from.y };
    let length = dir.length();
    let hx = div_toward_zero(dir.x as i128, 2);
    let hy = div_toward_zero(dir.y as i128, 2);
    proof {
        crate::geom::lemma_tdiv_magnitude(dir.x as int, 2);
        crate::geom::lemma_tdiv_magnitude(dir.y as int, 2);
    }
    Beam {
        owner,
        direction: dir,
        length,
        midpoint: Vector { x: from.x + hx as i64, y: from.y + hy as i64 },
    }
}

/// The beams for the current targets: one for each turret whose target
/// exists, running from the turret to that target.
pub fn beams(turrets: &Vec<Turret>, boids: &Vec<Boid>) -> (r: Vec<Beam>)
    requires
        turrets_within(turrets@),
        all_within(boids@),
    ensures
        r@ == beams_of(turrets@, boids@),
{
    let mut out: Vec<Beam> = Vec::new();
    let mut k: usize = 0;
    while k < turrets.len()
        invariant
            k <= turrets.len(),
            turrets_within(turrets@),
            all_within(boids@),
            out@ == beams_of(turrets@.subrange(0, k as int), boids@),
        decreases turrets.len() - k,
    {
        let t = turrets[k];
        proof {
            let s = turrets@.subrange(0, k as int + 1);
            assert(s.drop_last() =~= turrets@.subrange(0, k as int));
            assert(s.last() == t);
        }
        if let Some(id) = t.target {
            if let Some(j) = find_boid(boids, id) {
                proof { lemma_index_of(boids@, id); }
                out.push(make_beam(k, t.position, boids[j].position));
            }
        }
        k = k + 1;
    }
    assert(turrets@.subrange(0, turrets.len() as int) =~= turrets@);
    out
}

impl Turret {
    /// Offset from the turret to the boid it fires at, if that boid exists;
    /// the barrel points along it.
    pub fn aim(&self, boids: &Vec<Boid>) -> (r: Option<Vector>)
        requires
            within(self.position, WORLD_LIMIT as int),
            all_within(boids@),
        ensures
            r == match aimed_at(*self, boids@) {
                Some(i) => Some(beam_between(0, self.position, boids@[i].position).direction),
                None => None::<Vector>,
            },
    {
        match self.target {
            Some(id) => match find_boid(boids, id) {
                Some(i) => {
                    proof { lemma_index_of(boids@, id); }
                    let to = boids[i].position;
                    Some(Vector { x: to.x - self.position.x, y: to.y - self.position.y })
                },
                None => None,
            },
            None => None,
        }
    }
}

/// At most one beam per turret: owners strictly increase along the beams,
/// each names a turret, and a turret has a beam exactly when its target
/// exists.
pub proof fn lemma_one_beam_per_turret(turrets: Seq<Turret>, boids: Seq<Boid>)
    requires
        turrets.len() <= usize::MAX,
    ensures
        forall|a: int, b: int| 0 <= a < b < beams_of(turrets, boids).len()
            ==> beams_of(turrets, boids)[a].owner < beams_of(turrets, boids)[b].owner,
        forall|a: int| 0 <= a < beams_of(turrets, boids).len()
            ==> (#[trigger] beams_of(turrets, boids)[a]).owner < turrets.len()
                && aimed_at(turrets[beams_of(turrets, boids)[a].owner as int], boids).is_some(),
        forall|t: int| 0 <= t < turrets.len() && aimed_at(#[trigger] turrets[t], boids).is_some()
            ==> exists|a: int| 0 <= a < beams_of(turrets, boids).len()
                && (#[trigger] beams_of(turrets, boids)[a]).owner == t,
    decreases turrets.len(),
{
    if turrets.len() > 0 {
        let d = turrets.drop_last();
        lemma_one_beam_per_turret(d, boids);
        assert(forall|j: int| 0 <= j < d.len() ==> d[j] == turrets[j]);
        let prev = beams_of(d, boids);
        let cur = beams_of(turrets, boids);
        let n = (turrets.len() - 1) as int;
        assert forall|t: int| 0 <= t < turrets.len() && aimed_at(#[trigger] turrets[t], boids).is_some()
            implies exists|a: int| 0 <= a < cur.len() && (#[trigger] cur[a]).owner == t by {
            if t < n {
                assert(aimed_at(d[t], boids).is_some());
                let a = choose|a: int| 0 <= a < prev.len() && (#[trigger] prev[a]).owner == t;
                assert(cur[a] == prev[a]);
            } else {
                assert(cur == prev.push(beam_between(n as usize, turrets[n].position, boids[aimed_at(turrets[n], boids).unwrap()].position)));
                assert(cur[cur.len() - 1].owner == t);
            }
        }
    }
}

} // verus!
