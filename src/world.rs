use rand::seq::SliceRandom;
use vstd::prelude::*;
use crate::enemy::{Enemy, Health, PathMover, START_HEALTH, step_spec};
use crate::geometry::{Point, clamp_coord, clamp_exec};
use crate::spawner::{MAX_TICK_MS, SPAWN_PERIOD_MS, SpawnTimer};
use crate::tower::{DPS, Tower, all_enemies_wf, combat_spec, fire_spec, resolve_combat};

verus! {

/// Relies on rand's `SliceRandom::choose` with the thread-local generator:
/// `None` for an empty slice, otherwise one of its elements.
#[verifier::external_body]
fn choose_waypoint(path: &Vec<Point>) -> (r: Option<Point>)
    ensures
        r.is_none() <==> path@.len() == 0,
        r matches Some(p) ==> path@.contains(p),
{
    path.choose(&mut rand::thread_rng()).copied()
}

/// Where a tower offset by `off` from waypoint `w` stands, kept in bounds.
pub open spec fn tower_site(w: Point, off: Point) -> Point {
    Point { x: clamp_coord(w.x + off.x) as i64, y: clamp_coord(w.y + off.y) as i64 }
}

/// Each of the first `count` offsets placed the tower at `base` plus its
/// index next to some waypoint.
pub open spec fn placed_near(towers: Seq<Tower>, base: int, path: Seq<Point>, offsets: Seq<Point>, count: int) -> bool {
    forall|k: int| 0 <= k < count ==> exists|i: int| 0 <= i < path.len()
        && (#[trigger] towers[base + k]).pos == tower_site(path[i], offsets[k])
}


/// Resources the player starts with.
pub const START_RESOURCES: u32 = 1000;

/// A single counter of the player's resources.
#[derive(Clone, Copy, Debug, PartialEq, Eq, Structural)]
pub struct ResourceAmount(pub u32);

/// The whole simulation: the path, the live enemies, the towers and the
/// spawner's timer.
pub struct World {
    pub path: Vec<Point>,
    pub enemies: Vec<Enemy>,
    pub towers: Vec<Tower>,
    pub timer: SpawnTimer,
    pub next_id: u64,
    pub resources: ResourceAmount,
}

pub open spec fn path_wf(path: Seq<Point>) -> bool {
    path.len() >= 1 && forall|i: int| 0 <= i < path.len() ==> #[trigger] path[i].wf()
}

pub open spec fn towers_wf(towers: Seq<Tower>) -> bool {
    forall|i: int| 0 <= i < towers.len() ==> #[trigger] towers[i].wf()
}

/// An enemy still on its way: short of the goal and alive.
pub open spec fn is_live(e: Enemy, n: int) -> bool {
    e.mover.0 < n && e.health.0 > 0
}

pub open spec fn ids_below(s: Seq<Enemy>, next_id: int) -> bool {
    forall|i: int| 0 <= i < s.len() ==> #[trigger] s[i].id < next_id
}

pub open spec fn ids_distinct(s: Seq<Enemy>) -> bool {
    forall|i: int, j: int| 0 <= i < j < s.len() ==> #[trigger] s[i].id != #[trigger] s[j].id
}

/// The enemies of `s` that satisfy `f`, in order.
pub open spec fn keep_where(s: Seq<Enemy>, f: spec_fn(Enemy) -> bool) -> Seq<Enemy>
    decreases s.len(),
{
    if s.len() == 0 {
        s
    } else {
        let r = keep_where(s.drop_last(), f);
        if f(s.last()) { r.push(s.last()) } else { r }
    }
}

/// The enemies of `s` still on their way along a path of `n` waypoints.
pub open spec fn survivors(s: Seq<Enemy>, n: int) -> Seq<Enemy> {
    keep_where(s, |e: Enemy| is_live(e, n))
}

/// The enemy a spawner at the path's start emits, facing the second
/// waypoint.
pub open spec fn spawned_spec(id: u64, path: Seq<Point>) -> Enemy {
    let h = if path.len() >= 2 {
        Point { x: (path[1].x - path[0].x) as i64, y: (path[1].y - path[0].y) as i64 }
    } else {
        Point { x: 0, y: 0 }
    };
    Enemy { id, pos: path[0], heading: h, mover: PathMover(0), health: Health(START_HEALTH) }
}

pub open spec fn moved_spec(s: Seq<Enemy>, path: Seq<Point>, dt: int) -> Seq<Enemy> {
    s.map_values(|e: Enemy| step_spec(e, path, dt))
}

/// The enemies after one tick: spawn (when `spawn` holds), move, fire, then
/// remove those that reached the goal or died.
pub open spec fn tick_spec(
    s: Seq<Enemy>,
    path: Seq<Point>,
    towers: Seq<Tower>,
    spawn: bool,
    id: u64,
    dt: int,
) -> Seq<Enemy> {
    let s1 = if spawn { s.push(spawned_spec(id, path)) } else { s };
    let s2 = moved_spec(s1, path, dt);
    let s3 = combat_spec(s2, towers, DPS * dt);
    survivors(s3, path.len() as int)
}

/// Each enemy now alive either was alive before, under the same id, and
/// stands at most one waypoint further, or is the one spawned under `new_id`
/// and stands at the first or second waypoint.
pub open spec fn progressed(before: Seq<Enemy>, after: Seq<Enemy>, new_id: u64) -> bool {
    forall|j: int|
        0 <= j < after.len() ==> (exists|i: int|
            0 <= i < before.len() && #[trigger] before[i].id == #[trigger] after[j].id
                && before[i].mover.0 <= after[j].mover.0 <= before[i].mover.0 + 1) || (
        after[j].id == new_id && after[j].mover.0 <= 1)
}

proof fn lemma_keep_where_props(s: Seq<Enemy>, f: spec_fn(Enemy) -> bool)
    ensures
        keep_where(s, f).len() <= s.len(),
        forall|j: int| 0 <= j < keep_where(s, f).len() ==> f(#[trigger] keep_where(s, f)[j]),
        forall|j: int| 0 <= j < keep_where(s, f).len() ==> exists|i: int| 0 <= i < s.len()
            && s[i] == #[trigger] keep_where(s, f)[j],
        (forall|i: int| 0 <= i < s.len() ==> f(#[trigger] s[i])) ==> keep_where(s, f) == s,
        ids_distinct(s) ==> ids_distinct(keep_where(s, f)),
    decreases s.len(),
{
    if s.len() > 0 {
        let t = s.drop_last();
        lemma_keep_where_props(t, f);
        let r = keep_where(s, f);
        if ids_distinct(s) {
            assert(ids_distinct(t)) by {
                assert forall|i: int, j: int| 0 <= i < j < t.len() implies #[trigger] t[i].id
                    != #[trigger] t[j].id by {
                    assert(t[i] == s[i] && t[j] == s[j]);
                }
            }
            let rt = keep_where(t, f);
            if f(s.last()) {
                assert forall|i: int, j: int| 0 <= i < j < r.len() implies #[trigger] r[i].id
                    != #[trigger] r[j].id by {
                    if j == r.len() - 1 {
                        let k = choose|k: int| 0 <= k < t.len() && t[k] == rt[i];
                        assert(t[k] == s[k]);
                        assert(r[j] == s[s.len() - 1]);
                        assert(r[i] == rt[i]);
                    } else {
                        assert(r[i] == rt[i] && r[j] == rt[j]);
                    }
                }
            }
        }
        assert forall|j: int| 0 <= j < r.len() implies exists|i: int| 0 <= i < s.len()
            && s[i] == #[trigger] r[j] by {
            if j < keep_where(t, f).len() {
                let i = choose|i: int| 0 <= i < t.len() && t[i] == keep_where(t, f)[j];
                assert(s[i] == r[j]);
            } else {
                assert(s[s.len() - 1] == r[j]);
            }
        }
        if forall|i: int| 0 <= i < s.len() ==> f(#[trigger] s[i]) {
            assert forall|i: int| 0 <= i < t.len() implies f(#[trigger] t[i]) by {
                assert(t[i] == s[i]);
            }
            assert(s.last() == s[s.len() - 1]);
            assert(t.push(s.last()) =~= s);
        }
    }
}

/// Firing changes nothing but health.
proof fn lemma_fire_keeps(s: Seq<Enemy>, p: Point, dmg: int)
    ensures
        fire_spec(s, p, dmg).len() == s.len(),
        forall|i: int| 0 <= i < s.len() ==> #[trigger] fire_spec(s, p, dmg)[i].id == s[i].id
            && fire_spec(s, p, dmg)[i].mover.0 == s[i].mover.0
            && fire_spec(s, p, dmg)[i].pos == s[i].pos,
{
}

proof fn lemma_combat_keeps(s: Seq<Enemy>, towers: Seq<Tower>, dmg: int)
    ensures
        combat_spec(s, towers, dmg).len() == s.len(),
        forall|i: int| 0 <= i < s.len() ==> #[trigger] combat_spec(s, towers, dmg)[i].id == s[i].id
            && combat_spec(s, towers, dmg)[i].mover.0 == s[i].mover.0
            && combat_spec(s, towers, dmg)[i].pos == s[i].pos,
    decreases towers.len(),
{
    if towers.len() > 0 {
        let t = towers.drop_last();
        lemma_combat_keeps(s, t, dmg);
        lemma_fire_keeps(combat_spec(s, t, dmg), towers.last().pos, dmg);
    }
}

impl World {
    pub open spec fn wf(self) -> bool {
        &&& path_wf(self.path@)
        &&& towers_wf(self.towers@)
        &&& self.timer.wf()
        &&& all_enemies_wf(self.enemies@)
        &&& forall|i: int| 0 <= i < self.enemies@.len() ==> is_live(
            #[trigger] self.enemies@[i],
            self.path@.len() as int,
        )
        &&& ids_below(self.enemies@, self.next_id as int)
        &&& ids_distinct(self.enemies@)
    }

    /// A world on `path` with the given towers, no enemies, and a spawner
    /// that fires every `SPAWN_PERIOD_MS`.
    pub fn new(path: Vec<Point>, towers: Vec<Tower>) -> (r: World)
        requires
            path_wf(path@),
            towers_wf(towers@),
        ensures
            r.wf(),
            r.path@ == path@,
            r.towers@ == towers@,
            r.enemies@.len() == 0,
            r.timer == SpawnTimer::new_spec(SPAWN_PERIOD_MS),
            r.next_id == 0,
            r.resources == ResourceAmount(START_RESOURCES),
    {
        World {
            path,
            enemies: Vec::new(),
            towers,
            timer: SpawnTimer::new(SPAWN_PERIOD_MS),
            next_id: 0,
            resources: ResourceAmount(START_RESOURCES),
        }
    }

    /// Places a new tower at `pos`.
    pub fn add_tower(&mut self, pos: Point)
        requires
            old(self).wf(),
            pos.wf(),
        ensures
            final(self).wf(),
            final(self).towers@ == old(self).towers@.push(Tower { pos }),
            final(self).enemies@ == old(self).enemies@,
            final(self).path@ == old(self).path@,
            final(self).timer == old(self).timer,
            final(self).next_id == old(self).next_id,
            final(self).resources == old(self).resources,
    {
        self.towers.push(Tower::new_at(pos));
        assert(self.towers@[self.towers@.len() - 1].wf());
        assert forall|i: int| 0 <= i < self.towers@.len() implies #[trigger] self.towers@[i].wf() by {
            if i < old(self).towers@.len() {
                assert(self.towers@[i] == old(self).towers@[i]);
            }
        }
    }

    /// Removes the enemy with the given id, if there is one; the others stay
    /// as they were, in order.
    pub fn remove_enemy(&mut self, id: u64)
        requires
            old(self).wf(),
        ensures
            final(self).wf(),
            final(self).enemies@ == keep_where(old(self).enemies@, |e: Enemy| e.id != id),
            final(self).path@ == old(self).path@,
            final(self).towers@ == old(self).towers@,
            final(self).timer == old(self).timer,
            final(self).next_id == old(self).next_id,
            final(self).resources == old(self).resources,
    {
        let ghost s = self.enemies@;
        let ghost f = |e: Enemy| e.id != id;
        let mut out: Vec<Enemy> = Vec::new();
        let n = self.enemies.len();
        let mut i: usize = 0;
        while i < n
            invariant
                n == s.len(),
                s == self.enemies@,
                0 <= i <= n,
                f == (|e: Enemy| e.id != id),
                out@ == keep_where(s.take(i as int), f),
            decreases n - i,
        {
            assert(s.take(i as int + 1).drop_last() =~= s.take(i as int));
            let e = self.enemies[i];
            if e.id != id {
                out.push(e);
            }
            i = i + 1;
        }
        assert(s.take(n as int) =~= s);
        proof {
            lemma_keep_where_props(s, f);
        }
        self.enemies = out;
        proof {
            self.lemma_sub_population_wf(s);
        }
    }

    /// Advances the simulation by one frame of `dt_ms`, in order: the
    /// spawner's timer ticks and, if it fired, a new enemy appears at the
    /// path's start; every enemy moves; every tower fires; enemies that
    /// reached the goal or have no health left are removed. Tells whether an
    /// enemy was spawned.
    pub fn tick(&mut self, dt_ms: u64) -> (spawned: bool)
        requires
            old(self).wf(),
            dt_ms <= MAX_TICK_MS,
        ensures
            final(self).wf(),
            spawned == (old(self).timer.elapsed_ms + dt_ms >= old(self).timer.period_ms
                && old(self).next_id < u64::MAX),
            final(self).enemies@ == tick_spec(
                old(self).enemies@,
                old(self).path@,
                old(self).towers@,
                spawned,
                old(self).next_id,
                dt_ms as int,
            ),
            progressed(old(self).enemies@, final(self).enemies@, old(self).next_id),
            final(self).next_id == if spawned { (old(self).next_id + 1) as u64 } else { old(self).next_id },
            final(self).timer.period_ms == old(self).timer.period_ms,
            final(self).timer.elapsed_ms == (old(self).timer.elapsed_ms + dt_ms) % (old(self).timer.period_ms as int),
            final(self).path@ == old(self).path@,
            final(self).towers@ == old(self).towers@,
            final(self).resources == old(self).resources,
    {
        let ghost s0 = self.enemies@;
        let ghost id0 = self.next_id;
        let ghost n_path = self.path@.len() as int;
        let fired = self.timer.tick(dt_ms);
        let spawned = fired && self.next_id < u64::MAX;
        if spawned {
            let e = spawn_enemy(self.next_id, &self.path);
            self.enemies.push(e);
            self.next_id = self.next_id + 1;
        }
        let ghost s1 = self.enemies@;
        let ghost id1 = self.next_id;
        let ghost timer1 = self.timer;
        let ghost path0 = self.path@;
        let ghost towers0 = self.towers@;
        let ghost res0 = self.resources;
        assert(s1 == if spawned { s0.push(spawned_spec(id0, self.path@)) } else { s0 });
        assert forall|k: int| 0 <= k < s1.len() implies (#[trigger] s1[k]).wf() && s1[k].mover.0 < n_path
            && s1[k].id < self.next_id by {
            if k < s0.len() {
                assert(s1[k] == s0[k]);
            }
        }
        let n = self.enemies.len();
        let mut i: usize = 0;
        while i < n
            invariant
                n == s1.len(),
                self.enemies@.len() == n,
                path_wf(self.path@),
                n_path == self.path@.len(),
                0 <= i <= n,
                dt_ms <= MAX_TICK_MS,
                forall|k: int| 0 <= k < s1.len() ==> (#[trigger] s1[k]).wf() && s1[k].mover.0 < n_path,
                towers_wf(self.towers@),
                self.next_id == id1,
                self.timer == timer1,
                self.path@ == path0,
                self.towers@ == towers0,
                self.resources == res0,
                forall|k: int| 0 <= k < s1.len() ==> (#[trigger] s1[k]).id < id1,
                forall|k: int| 0 <= k < i ==> #[trigger] self.enemies@[k] == step_spec(s1[k], self.path@, dt_ms as int)
                    && self.enemies@[k].wf(),
                forall|k: int| i <= k < n ==> #[trigger] self.enemies@[k] == s1[k],
            decreases n - i,
        {
            let e = self.enemies[i];
            assert(e == s1[i as int]);
            assert(self.path@[e.mover.0 as int].wf());
            let e2 = e.step(&self.path, dt_ms);
            self.enemies.set(i, e2);
            i = i + 1;
        }
        let ghost s2 = self.enemies@;
        assert(s2 =~= moved_spec(s1, self.path@, dt_ms as int));
        resolve_combat(&mut self.enemies, &self.towers, dt_ms);
        let ghost s3 = self.enemies@;
        proof {
            lemma_combat_keeps(s2, self.towers@, (DPS * dt_ms) as int);
        }
        let ghost f = |e: Enemy| is_live(e, n_path);
        let mut out: Vec<Enemy> = Vec::new();
        let mut j: usize = 0;
        let n_path_exec = self.path.len();
        while j < n
            invariant
                n == s3.len(),
                s3 == self.enemies@,
                0 <= j <= n,
                n_path_exec == n_path,
                f == (|e: Enemy| is_live(e, n_path)),
                out@ == keep_where(s3.take(j as int), f),
                self.next_id == id1,
                self.timer == timer1,
                self.path@ == path0,
                self.towers@ == towers0,
                self.resources == res0,
            decreases n - j,
        {
            assert(s3.take(j as int + 1).drop_last() =~= s3.take(j as int));
            let e = self.enemies[j];
            if e.mover.0 < n_path_exec && e.health.0 > 0 {
                out.push(e);
            }
            j = j + 1;
        }
        assert(s3.take(n as int) =~= s3);
        proof {
            lemma_keep_where_props(s3, f);
            assert(ids_distinct(s3)) by {
                assert forall|a: int, b: int| 0 <= a < b < s3.len() implies #[trigger] s3[a].id
                    != #[trigger] s3[b].id by {
                    assert(s3[a].id == s2[a].id && s2[a].id == s1[a].id);
                    assert(s3[b].id == s2[b].id && s2[b].id == s1[b].id);
                    if b < s0.len() {
                        assert(s1[a] == s0[a] && s1[b] == s0[b]);
                    } else {
                        assert(s1[a] == s0[a]);
                    }
                }
            }
        }
        self.enemies = out;
        proof {
            let r = self.enemies@;
            assert forall|j: int| 0 <= j < r.len() implies (#[trigger] r[j]).wf() && is_live(r[j], n_path)
                && r[j].id < self.next_id by {
                let k = choose|k: int| 0 <= k < s3.len() && s3[k] == r[j];
                assert(s3[k].id == s2[k].id && s2[k].id == s1[k].id);
                assert(s1[k].id < self.next_id);
                assert(s3[k].wf());
                assert(f(r[j]));
            }
            assert forall|j: int| 0 <= j < r.len() implies (exists|i: int|
                0 <= i < s0.len() && #[trigger] s0[i].id == #[trigger] r[j].id
                    && s0[i].mover.0 <= r[j].mover.0 <= s0[i].mover.0 + 1) || (
                r[j].id == id0 && r[j].mover.0 <= 1) by {
                let k = choose|k: int| 0 <= k < s3.len() && s3[k] == r[j];
                assert(s3[k].id == s2[k].id && s2[k].id == s1[k].id);
                assert(s3[k].mover.0 == s2[k].mover.0);
                assert(s2[k] == step_spec(s1[k], self.path@, dt_ms as int));
                if k < s0.len() {
                    assert(s1[k] == s0[k]);
                    assert(s0[k].id == r[j].id);
                }
            }
        }
        spawned
    }

    /// Places one tower for each offset, next to a waypoint drawn at random:
    /// the tower stands at the waypoint moved by the offset.
    pub fn add_starting_towers(&mut self, offsets: &Vec<Point>)
        requires
            old(self).wf(),
            forall|k: int| 0 <= k < offsets@.len() ==> (#[trigger] offsets@[k]).wf(),
        ensures
            final(self).wf(),
            final(self).towers@.len() == old(self).towers@.len() + offsets@.len(),
            forall|k: int| 0 <= k < old(self).towers@.len() ==> #[trigger] final(self).towers@[k]
                == old(self).towers@[k],
            placed_near(final(self).towers@, old(self).towers@.len() as int, old(self).path@, offsets@, offsets@.len() as int),
            final(self).enemies@ == old(self).enemies@,
            final(self).path@ == old(self).path@,
            final(self).timer == old(self).timer,
            final(self).next_id == old(self).next_id,
            final(self).resources == old(self).resources,
    {
        let ghost t0 = self.towers@;
        let n = offsets.len();
        let mut k: usize = 0;
        while k < n
            invariant
                n == offsets@.len(),
                0 <= k <= n,
                forall|k: int| 0 <= k < offsets@.len() ==> (#[trigger] offsets@[k]).wf(),
                self.wf(),
                self.towers@.len() == t0.len() + k,
                forall|j: int| 0 <= j < t0.len() ==> #[trigger] self.towers@[j] == t0[j],
                placed_near(self.towers@, t0.len() as int, self.path@, offsets@, k as int),
                self.enemies@ == old(self).enemies@,
                self.path@ == old(self).path@,
                self.timer == old(self).timer,
                self.next_id == old(self).next_id,
                self.resources == old(self).resources,
            decreases n - k,
        {
            let w = choose_waypoint(&self.path).unwrap();
            let ghost wi = choose|i: int| 0 <= i < self.path@.len() && self.path@[i] == w;
            assert(self.path@[wi].wf());
            let off = offsets[k];
            assert(off.wf());
            let pos = Point { x: clamp_exec(w.x + off.x), y: clamp_exec(w.y + off.y) };
            let ghost before = self.towers@;
            self.add_tower(pos);
            assert(self.towers@[t0.len() + k as int].pos == tower_site(self.path@[wi], offsets@[k as int]));
            assert forall|j: int| 0 <= j < k + 1 implies exists|i: int| 0 <= i < self.path@.len()
                && (#[trigger] self.towers@[t0.len() + j]).pos == tower_site(self.path@[i], offsets@[j]) by {
                if j == k {
                    assert(0 <= wi < self.path@.len());
                }
                if j < k {
                    assert(self.towers@[t0.len() + j] == before[t0.len() + j]);
                }
            }
            k = k + 1;
        }
    }

    proof fn lemma_sub_population_wf(self, s: Seq<Enemy>)
        requires
            forall|j: int| 0 <= j < self.enemies@.len() ==> exists|i: int| 0 <= i < s.len()
                && s[i] == #[trigger] self.enemies@[j],
            all_enemies_wf(s),
            forall|i: int| 0 <= i < s.len() ==> is_live(#[trigger] s[i], self.path@.len() as int),
            ids_below(s, self.next_id as int),
        ensures
            all_enemies_wf(self.enemies@),
            forall|i: int| 0 <= i < self.enemies@.len() ==> is_live(
                #[trigger] self.enemies@[i],
                self.path@.len() as int,
            ),
            ids_below(self.enemies@, self.next_id as int),
    {
        assert forall|j: int| 0 <= j < self.enemies@.len() implies #[trigger] self.enemies@[j].wf()
            && is_live(self.enemies@[j], self.path@.len() as int)
            && self.enemies@[j].id < self.next_id by {
            let i = choose|i: int| 0 <= i < s.len() && s[i] == self.enemies@[j];
        }
    }
}

/// The enemy a spawner emits at the path's start.
pub fn spawn_enemy(id: u64, path: &Vec<Point>) -> (r: Enemy)
    requires
        path_wf(path@),
    ensures
        r == spawned_spec(id, path@),
        r.wf(),
{
    let start = path[0];
    let heading = if path.len() >= 2 {
        let next = path[1];
        assert(path@[1].wf() && path@[0].wf());
        Point { x: next.x - start.x, y: next.y - start.y }
    } else {
        Point { x: 0, y: 0 }
    };
    assert(path@[0].wf());
    Enemy::new(id, start, heading)
}

/// What a tick keeps holds only enemies short of the goal and alive: one
/// whose waypoint index reached the path's length, or whose health reached
/// zero, is gone in the tick in which that happened.
pub proof fn lemma_finished_enemies_removed(s: Seq<Enemy>, n: int)
    ensures
        forall|j: int| 0 <= j < survivors(s, n).len() ==> (#[trigger] survivors(s, n)[j]).mover.0 < n
            && survivors(s, n)[j].health.0 > 0,
{
    lemma_keep_where_props(s, |e: Enemy| is_live(e, n));
}

/// Removing an id that no live enemy carries leaves every enemy as it was.
pub proof fn lemma_remove_absent_id(s: Seq<Enemy>, id: u64)
    requires
        forall|i: int| 0 <= i < s.len() ==> #[trigger] s[i].id != id,
    ensures
        keep_where(s, |e: Enemy| e.id != id) == s,
{
    lemma_keep_where_props(s, |e: Enemy| e.id != id);
}

} // verus!
