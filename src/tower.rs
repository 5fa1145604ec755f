use vstd::prelude::*;
use crate::enemy::{Enemy, Health};
use crate::geometry::{Point, dist_sq, dist_sq_spec};

verus! {

/// Damage a tower deals per millisecond, in thousandths of a hit point.
pub const DPS: u64 = 100;

/// Squared range of a tower (150 units).
pub const RANGE_SQ: u64 = 22_500_000_000;

/// A stationary defender.
#[derive(Clone, Copy, Debug, PartialEq, Eq, Structural)]
pub struct Tower {
    pub pos: Point,
}

impl Tower {
    pub open spec fn wf(self) -> bool {
        self.pos.wf()
    }

    pub fn new_at(pos: Point) -> (r: Tower)
        ensures
            r.pos == pos,
    {
        Tower { pos }
    }
}

pub open spec fn all_enemies_wf(s: Seq<Enemy>) -> bool {
    forall|i: int| 0 <= i < s.len() ==> #[trigger] s[i].wf()
}

/// `s[i]` is nearest to `p`, and no enemy before it is as near.
pub open spec fn is_first_nearest(s: Seq<Enemy>, p: Point, i: int) -> bool {
    &&& 0 <= i < s.len()
    &&& forall|j: int| 0 <= j < s.len() ==> dist_sq_spec(s[i].pos, p) <= dist_sq_spec(
        #[trigger] s[j].pos,
        p,
    )
    &&& forall|j: int| 0 <= j < i ==> dist_sq_spec(s[i].pos, p) < dist_sq_spec(
        #[trigger] s[j].pos,
        p,
    )
}

pub proof fn lemma_first_nearest_unique(s: Seq<Enemy>, p: Point, i: int, k: int)
    requires
        is_first_nearest(s, p, i),
        is_first_nearest(s, p, k),
    ensures
        i == k,
{
    if i < k {
        assert(dist_sq_spec(s[k].pos, p) < dist_sq_spec(s[i].pos, p));
        assert(dist_sq_spec(s[i].pos, p) <= dist_sq_spec(s[k].pos, p));
    } else if k < i {
        assert(dist_sq_spec(s[i].pos, p) < dist_sq_spec(s[k].pos, p));
        assert(dist_sq_spec(s[k].pos, p) <= dist_sq_spec(s[i].pos, p));
    }
}

/// Health after taking `dmg`, stopping at the least `i64`.
pub open spec fn damaged(h: int, dmg: int) -> int {
    if h - dmg < i64::MIN { i64::MIN as int } else { h - dmg }
}

/// The enemies after one tower at `p` has fired for one tick: the first of
/// the nearest enemies loses `dmg` health if it is within range; no other
/// enemy changes.
pub open spec fn fire_spec(s: Seq<Enemy>, p: Point, dmg: int) -> Seq<Enemy> {
    if exists|i: int| is_first_nearest(s, p, i) {
        let i = choose|i: int| is_first_nearest(s, p, i);
        if dist_sq_spec(s[i].pos, p) <= RANGE_SQ {
            s.update(i, Enemy { health: Health(damaged(s[i].health.0 as int, dmg) as i64), ..s[i] })
        } else {
            s
        }
    } else {
        s
    }
}

/// The enemies after each tower in turn has fired for one tick.
pub open spec fn combat_spec(s: Seq<Enemy>, towers: Seq<Tower>, dmg: int) -> Seq<Enemy>
    decreases towers.len(),
{
    if towers.len() == 0 {
        s
    } else {
        fire_spec(combat_spec(s, towers.drop_last(), dmg), towers.last().pos, dmg)
    }
}

/// Index of the enemy nearest to `p`; of several at the same distance, the
/// first. `None` when there are no enemies.
pub fn nearest_enemy(enemies: &Vec<Enemy>, p: Point) -> (r: Option<usize>)
    requires
        all_enemies_wf(enemies@),
        p.wf(),
    ensures
        r.is_none() <==> enemies@.len() == 0,
        r matches Some(i) ==> is_first_nearest(enemies@, p, i as int),
{
    let n = enemies.len();
    if n == 0 {
        return None;
    }
    let mut best: usize = 0;
    assert(enemies@[0].wf());
    let mut best_d: u64 = dist_sq(enemies[0].pos, p);
    let mut i: usize = 1;
    while i < n
        invariant
            n == enemies@.len(),
            all_enemies_wf(enemies@),
            p.wf(),
            1 <= i <= n,
            best < i,
            best_d as int == dist_sq_spec(enemies@[best as int].pos, p),
            forall|j: int| 0 <= j < i ==> best_d <= dist_sq_spec(#[trigger] enemies@[j].pos, p),
            forall|j: int| 0 <= j < best ==> best_d < dist_sq_spec(#[trigger] enemies@[j].pos, p),
        decreases n - i,
    {
        assert(enemies@[i as int].wf());
        let d = dist_sq(enemies[i].pos, p);
        if d < best_d {
            best = i;
            best_d = d;
        }
        i = i + 1;
    }
    Some(best)
}

fn damage_health(h: i64, dmg: u64) -> (r: i64)
    ensures
        r as int == damaged(h as int, dmg as int),
{
    let room: i128 = h as i128 - i64::MIN as i128;
    if (dmg as i128) > room {
        i64::MIN
    } else {
        (h as i128 - dmg as i128) as i64
    }
}

/// One tower at `p` fires for a tick dealing `dmg`.
pub fn fire(enemies: &mut Vec<Enemy>, p: Point, dmg: u64)
    requires
        all_enemies_wf(old(enemies)@),
        p.wf(),
    ensures
        final(enemies)@ == fire_spec(old(enemies)@, p, dmg as int),
        all_enemies_wf(final(enemies)@),
{
    let ghost s = enemies@;
    match nearest_enemy(enemies, p) {
        None => {
            assert(!exists|i: int| is_first_nearest(s, p, i));
        },
        Some(i) => {
            proof {
                let c = choose|k: int| is_first_nearest(s, p, k);
                lemma_first_nearest_unique(s, p, i as int, c);
            }
            let e = enemies[i];
            assert(e.wf());
            if dist_sq(e.pos, p) <= RANGE_SQ {
                let h = damage_health(e.health.0, dmg);
                enemies.set(i, Enemy { health: Health(h), ..e });
                assert forall|j: int| 0 <= j < enemies@.len() implies #[trigger] enemies@[j].wf() by {
                    if j != i {
                        assert(enemies@[j] == s[j]);
                    }
                }
            }
        },
    }
}

/// Every tower fires once, in order, with damage `DPS * dt_ms`.
pub fn resolve_combat(enemies: &mut Vec<Enemy>, towers: &Vec<Tower>, dt_ms: u64)
    requires
        all_enemies_wf(old(enemies)@),
        forall|k: int| 0 <= k < towers@.len() ==> #[trigger] towers@[k].wf(),
        dt_ms <= 1_000_000_000,
    ensures
        final(enemies)@ == combat_spec(old(enemies)@, towers@, (DPS * dt_ms) as int),
        all_enemies_wf(final(enemies)@),
        final(enemies)@.len() == old(enemies)@.len(),
{
    let ghost s = enemies@;
    let dmg: u64 = DPS * dt_ms;
    let n = towers.len();
    let mut k: usize = 0;
    while k < n
        invariant
            n == towers@.len(),
            forall|k: int| 0 <= k < towers@.len() ==> #[trigger] towers@[k].wf(),
            0 <= k <= n,
            enemies@ == combat_spec(s, towers@.take(k as int), dmg as int),
            all_enemies_wf(enemies@),
            dmg == DPS * dt_ms,
        decreases n - k,
    {
        assert(towers@.take(k as int + 1).drop_last() =~= towers@.take(k as int));
        assert(towers@[k as int].wf());
        fire(enemies, towers[k].pos, dmg);
        k = k + 1;
    }
    assert(towers@.take(n as int) =~= towers@);
    proof { lemma_combat_len(s, towers@, dmg as int); }
}

pub proof fn lemma_fire_len(s: Seq<Enemy>, p: Point, dmg: int)
    ensures
        fire_spec(s, p, dmg).len() == s.len(),
{
}

proof fn lemma_combat_len(s: Seq<Enemy>, towers: Seq<Tower>, dmg: int)
    ensures
        combat_spec(s, towers, dmg).len() == s.len(),
    decreases towers.len(),
{
    if towers.len() > 0 {
        lemma_combat_len(s, towers.drop_last(), dmg);
        lemma_fire_len(combat_spec(s, towers.drop_last(), dmg), towers.last().pos, dmg);
    }
}

/// A tower that fires changes at most one enemy, however many are equally
/// near: some index `i` is the only one whose entry may differ, and where
/// the nearest are tied it is the first of them.
pub proof fn lemma_fire_changes_at_most_one(s: Seq<Enemy>, p: Point, dmg: int)
    ensures
        fire_spec(s, p, dmg).len() == s.len(),
        s.len() > 0 ==> exists|i: int| #[trigger] is_first_nearest(s, p, i) && forall|j: int|
            0 <= j < s.len() && j != i ==> fire_spec(s, p, dmg)[j] == s[j],
{
    if s.len() > 0 {
        let b = lemma_first_nearest_exists(s, p);
        let c = choose|k: int| is_first_nearest(s, p, k);
        lemma_first_nearest_unique(s, p, b, c);
    }
}

/// A nonempty population has a first nearest enemy.
pub proof fn lemma_first_nearest_exists(s: Seq<Enemy>, p: Point) -> (b: int)
    requires
        s.len() > 0,
    ensures
        is_first_nearest(s, p, b),
    decreases s.len(),
{
    if s.len() == 1 {
        0
    } else {
        let t = s.drop_last();
        let b = lemma_first_nearest_exists(t, p);
        assert(forall|j: int| 0 <= j < t.len() ==> t[j] == s[j]);
        let last = s.len() - 1;
        if dist_sq_spec(s[last].pos, p) < dist_sq_spec(s[b].pos, p) {
            assert forall|j: int| 0 <= j < s.len() implies dist_sq_spec(s[last].pos, p)
                <= dist_sq_spec(#[trigger] s[j].pos, p) by {
                if j < last {
                    assert(t[j] == s[j]);
                }
            }
            assert forall|j: int| 0 <= j < last implies dist_sq_spec(s[last].pos, p)
                < dist_sq_spec(#[trigger] s[j].pos, p) by {
                assert(t[j] == s[j]);
            }
            last
        } else {
            assert forall|j: int| 0 <= j < s.len() implies dist_sq_spec(s[b].pos, p)
                <= dist_sq_spec(#[trigger] s[j].pos, p) by {
                if j < last {
                    assert(t[j] == s[j]);
                }
            }
            assert forall|j: int| 0 <= j < b implies dist_sq_spec(s[b].pos, p)
                < dist_sq_spec(#[trigger] s[j].pos, p) by {
                assert(t[j] == s[j]);
            }
            b
        }
    }
}

/// A single enemy within range of a tower loses exactly `dmg` health
/// (unless that would pass the least `i64`); one out of range loses none.
pub proof fn lemma_single_enemy_damage(e: Enemy, p: Point, dmg: int)
    requires
        0 <= dmg,
    ensures
        fire_spec(seq![e], p, dmg).len() == 1,
        dist_sq_spec(e.pos, p) <= RANGE_SQ ==> fire_spec(seq![e], p, dmg)[0].health.0 == damaged(
            e.health.0 as int,
            dmg,
        ),
        dist_sq_spec(e.pos, p) <= RANGE_SQ && e.health.0 - dmg >= i64::MIN ==> fire_spec(
            seq![e],
            p,
            dmg,
        )[0].health.0 == e.health.0 - dmg,
        dist_sq_spec(e.pos, p) > RANGE_SQ ==> fire_spec(seq![e], p, dmg)[0] == e,
{
    let s = seq![e];
    assert(is_first_nearest(s, p, 0));
    let c = choose|k: int| is_first_nearest(s, p, k);
    lemma_first_nearest_unique(s, p, 0, c);
}

} // verus!
