use vstd::prelude::*;
use vstd::arithmetic::div_mod::{lemma_fundamental_div_mod, lemma_fundamental_div_mod_converse};
use crate::geometry::{Point, abs, clamp_coord, clamp_exec, dist_sq, dist_sq_spec, is_isqrt, isqrt, isqrt_spec};
use crate::spawner::MAX_TICK_MS;

verus! {

/// Health an enemy starts with, in thousandths of a hit point.
pub const START_HEALTH: i64 = 1_000_000;

/// Display scale at no health, in thousandths.
pub const MIN_SCALE: i64 = 400;

/// Display scale at full health, in thousandths.
pub const MAX_SCALE: i64 = 1200;

/// Health per thousandth of display scale:
/// `START_HEALTH / (MAX_SCALE - MIN_SCALE)`.
pub const HEALTH_PER_SCALE_STEP: i64 = 1250;

/// Enemy speed, in thousandths of a unit per millisecond.
pub const SPEED: u64 = 100;

/// Longest move in one tick: `SPEED * MAX_TICK_MS`.
pub const MAX_STEP: u64 = 100_000_000_000;

/// Squared distance within which a waypoint counts as reached (one unit).
pub const REACH_DIST_SQ: u64 = 1_000_000;

/// Index of the waypoint an enemy walks to.
#[derive(Clone, Copy, Debug, PartialEq, Eq, Structural)]
pub struct PathMover(pub usize);

/// Remaining health, in thousandths of a hit point; it may fall below zero
/// before the enemy is removed.
#[derive(Clone, Copy, Debug, PartialEq, Eq, Structural)]
pub struct Health(pub i64);

/// One hostile unit walking the path.
#[derive(Clone, Copy, Debug, PartialEq, Eq, Structural)]
pub struct Enemy {
    pub id: u64,
    pub pos: Point,
    /// Direction of travel: the offset from the position it last moved
    /// from to the waypoint it walks to.
    pub heading: Point,
    pub mover: PathMover,
    pub health: Health,
}

/// Display scale in thousandths: linear in health, `MAX_SCALE` at full
/// health and `MIN_SCALE` at none, not clamped.
pub open spec fn scale_spec(health: int) -> int {
    health / (HEALTH_PER_SCALE_STEP as int) + MIN_SCALE
}

/// The scale step divides the health range evenly over the scale range, so
/// full health shows at `MAX_SCALE` and no health at `MIN_SCALE`.
pub proof fn lemma_scale_endpoints()
    ensures
        HEALTH_PER_SCALE_STEP * (MAX_SCALE - MIN_SCALE) == START_HEALTH,
        scale_spec(START_HEALTH as int) == MAX_SCALE,
        scale_spec(0) == MIN_SCALE,
{
    lemma_fundamental_div_mod_converse(START_HEALTH as int, HEALTH_PER_SCALE_STEP as int, (MAX_SCALE - MIN_SCALE) as int, 0);
    lemma_fundamental_div_mod_converse(0, HEALTH_PER_SCALE_STEP as int, 0, 0);
}

/// Display scale, in thousandths, of an enemy with the given health.
pub fn health_scale(health: i64) -> (r: i64)
    ensures
        r as int == scale_spec(health as int),
{
    let step: u128 = HEALTH_PER_SCALE_STEP as u128;
    if health >= 0 {
        ((health as u128) / step) as i64 + MIN_SCALE
    } else {
        let m: u128 = (-(health as i128)) as u128;
        let c: u128 = (m + 1249) / step;
        proof {
            let h = health as int;
            lemma_fundamental_div_mod(m as int, 1250);
            let q = (m as int) / 1250;
            let r = (m as int) % 1250;
            if r == 0 {
                lemma_fundamental_div_mod_converse(h, 1250, -q, 0);
                lemma_fundamental_div_mod_converse(m + 1249, 1250, q, 1249);
            } else {
                lemma_fundamental_div_mod_converse(h, 1250, -(q + 1), 1250 - r);
                lemma_fundamental_div_mod_converse(m + 1249, 1250, q + 1, r - 1);
            }
        }
        MIN_SCALE - (c as i64)
    }
}

pub open spec fn sign_times(d: int, s: int) -> int {
    if d < 0 { -s } else { s }
}

/// Offset along one axis when moving `step` along a vector of length `dist`
/// whose component on that axis is `d`, rounded towards zero.
pub open spec fn shift(d: int, step: int, dist: int) -> int {
    sign_times(d, (abs(d) * step) / dist)
}

/// The offset from `p` to `t`.
pub open spec fn offset(p: Point, t: Point) -> Point {
    Point { x: (t.x - p.x) as i64, y: (t.y - p.y) as i64 }
}

/// Position after moving `step` from `p` in the direction of `t`, whether
/// or not that carries it past `t`, kept within the coordinate limit. When
/// `p` and `t` coincide the direction is zero and `p` stays.
pub open spec fn move_toward(p: Point, t: Point, step: int) -> Point {
    let n = dist_sq_spec(p, t);
    if n == 0 {
        p
    } else {
        let dist = isqrt_spec(n);
        Point {
            x: clamp_coord(p.x + shift(t.x - p.x, step, dist)) as i64,
            y: clamp_coord(p.y + shift(t.y - p.y, step, dist)) as i64,
        }
    }
}

/// One tick of an enemy walking towards `path[e.mover.0]`. A waypoint
/// within one unit is taken as reached and the index advances; if that was
/// the last waypoint the enemy stays where it is, otherwise it moves
/// `SPEED * dt` towards the next waypoint and faces it. An enemy short of
/// its waypoint moves `SPEED * dt` towards it and faces it.
pub open spec fn step_spec(e: Enemy, path: Seq<Point>, dt: int) -> Enemy {
    let w = e.mover.0 as int;
    let t = path[w];
    if dist_sq_spec(e.pos, t) <= REACH_DIST_SQ {
        if w + 1 >= path.len() {
            Enemy { mover: PathMover((w + 1) as usize), ..e }
        } else {
            let t1 = path[w + 1];
            Enemy {
                mover: PathMover((w + 1) as usize),
                pos: move_toward(e.pos, t1, SPEED * dt),
                heading: offset(e.pos, t1),
                ..e
            }
        }
    } else {
        Enemy { pos: move_toward(e.pos, t, SPEED * dt), heading: offset(e.pos, t), ..e }
    }
}

proof fn lemma_component_le_dist(d: int, n: int, r: int)
    requires
        0 <= d * d <= n,
        is_isqrt(n, r),
    ensures
        abs(d) <= r,
{
    if abs(d) > r {
        let a = abs(d);
        assert(a * a >= (r + 1) * (r + 1)) by (nonlinear_arith)
            requires a >= r + 1, r >= 0;
        assert(a * a == d * d) by (nonlinear_arith)
            requires a == abs(d);
    }
}

fn shift_exec(d: i64, step: u64, dist: u64) -> (r: i64)
    requires
        -2_000_000_000 <= d <= 2_000_000_000,
        abs(d as int) <= dist,
        0 < dist,
        step <= MAX_STEP,
    ensures
        r as int == shift(d as int, step as int, dist as int),
        abs(r as int) <= step,
{
    let a: u128 = if d < 0 { (-d) as u128 } else { d as u128 };
    assert(a * (step as u128) <= 200_000_000_000_000_000_000) by (nonlinear_arith)
        requires a <= 2_000_000_000, step <= MAX_STEP;
    let s: u128 = a * (step as u128) / (dist as u128);
    assert(s <= step) by (nonlinear_arith)
        requires s as int == (a as int * step as int) / (dist as int), a <= dist, 0 < dist;
    if d < 0 { -(s as i64) } else { s as i64 }
}

/// Moves `step` from `p` in the direction of `t`.
fn move_toward_exec(p: Point, t: Point, step: u64) -> (r: Point)
    requires
        p.wf(),
        t.wf(),
        step <= MAX_STEP,
    ensures
        r == move_toward(p, t, step as int),
        r.wf(),
{
    let n = dist_sq(p, t);
    if n == 0 {
        return p;
    }
    let dist = isqrt(n);
    let dx: i64 = t.x - p.x;
    let dy: i64 = t.y - p.y;
    proof {
        assert(dx * dx >= 0 && dy * dy >= 0) by (nonlinear_arith);
        lemma_component_le_dist(dx as int, n as int, dist as int);
        lemma_component_le_dist(dy as int, n as int, dist as int);
        if dist == 0 {
            assert(n < 1);
        }
    }
    let sx = shift_exec(dx, step, dist);
    let sy = shift_exec(dy, step, dist);
    Point { x: clamp_exec(p.x + sx), y: clamp_exec(p.y + sy) }
}

impl Enemy {
    pub open spec fn wf(self) -> bool {
        self.pos.wf()
    }

    /// A fresh enemy at `pos`, walking to the first waypoint, facing along
    /// `heading`, with full health.
    pub fn new(id: u64, pos: Point, heading: Point) -> (r: Enemy)
        ensures
            r == (Enemy { id, pos, heading, mover: PathMover(0), health: Health(START_HEALTH) }),
    {
        Enemy { id, pos, heading, mover: PathMover(0), health: Health(START_HEALTH) }
    }

    /// Display scale of this enemy, in thousandths.
    pub fn scale(&self) -> (r: i64)
        ensures
            r as int == scale_spec(self.health.0 as int),
    {
        health_scale(self.health.0)
    }

    /// Advances this enemy by one tick of `dt_ms` along `path`.
    pub fn step(&self, path: &Vec<Point>, dt_ms: u64) -> (r: Enemy)
        requires
            self.wf(),
            self.mover.0 < path@.len(),
            forall|i: int| 0 <= i < path@.len() ==> #[trigger] path@[i].wf(),
            dt_ms <= MAX_TICK_MS,
        ensures
            r == step_spec(*self, path@, dt_ms as int),
            r.wf(),
            r.mover.0 == self.mover.0 || r.mover.0 == self.mover.0 + 1,
            r.id == self.id,
            r.health.0 == self.health.0,
    {
        let n_waypoints = path.len();
        let w = self.mover.0;
        let p = self.pos;
        let t = path[w];
        assert(path@[w as int].wf());
        let step: u64 = SPEED * dt_ms;
        if dist_sq(p, t) <= REACH_DIST_SQ {
            let next: usize = w + 1;
            if next >= n_waypoints {
                return Enemy { mover: PathMover(next), ..*self };
            }
            let t1 = path[next];
            assert(path@[next as int].wf());
            return Enemy {
                mover: PathMover(next),
                pos: move_toward_exec(p, t1, step),
                heading: Point { x: t1.x - p.x, y: t1.y - p.y },
                ..*self
            };
        }
        Enemy { pos: move_toward_exec(p, t, step), heading: Point { x: t.x - p.x, y: t.y - p.y }, ..*self }
    }
}

} // verus!
