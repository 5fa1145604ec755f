use vstd::prelude::*;
use crate::geometry::{Point, COORD_LIMIT, abs, in_bounds};

verus! {

/// Number of waypoints in a generated path.
pub const PATH_LENGTH: usize = 30;

/// Half of the horizontal extent a path is fitted into.
pub const HALF_WIDTH: i64 = 400_000;

/// Half of the vertical extent a path is fitted into.
pub const HALF_HEIGHT: i64 = 290_000;

pub open spec fn max_int(a: int, b: int) -> int {
    if a < b { b } else { a }
}

/// The largest magnitude of the X coordinates of `s`, or 0 for no points.
pub open spec fn max_abs_x(s: Seq<Point>) -> int
    decreases s.len(),
{
    if s.len() == 0 { 0 } else { max_int(max_abs_x(s.drop_last()), abs(s.last().x as int)) }
}

/// The largest magnitude of the Y coordinates of `s`, or 0 for no points.
pub open spec fn max_abs_y(s: Seq<Point>) -> int
    decreases s.len(),
{
    if s.len() == 0 { 0 } else { max_int(max_abs_y(s.drop_last()), abs(s.last().y as int)) }
}

/// A coordinate scaled by `half / max` towards zero; an axis with no extent
/// is left as it is.
pub open spec fn fit_coord(c: int, max: int, half: int) -> int {
    if max == 0 {
        c
    } else if c < 0 {
        -((-c * half) / max)
    } else {
        (c * half) / max
    }
}

pub open spec fn fit_point(p: Point, mx: int, my: int) -> Point {
    Point { x: fit_coord(p.x as int, mx, HALF_WIDTH as int) as i64,
        y: fit_coord(p.y as int, my, HALF_HEIGHT as int) as i64 }
}

pub open spec fn fitted(s: Seq<Point>) -> Seq<Point> {
    s.map_values(|p: Point| fit_point(p, max_abs_x(s), max_abs_y(s)))
}

pub open spec fn all_wf(s: Seq<Point>) -> bool {
    forall|i: int| 0 <= i < s.len() ==> #[trigger] s[i].wf()
}

pub open spec fn within_extent(s: Seq<Point>) -> bool {
    forall|i: int| 0 <= i < s.len() ==> abs(#[trigger] s[i].x as int) <= HALF_WIDTH
        && abs(s[i].y as int) <= HALF_HEIGHT
}

proof fn lemma_max_abs_bounds(s: Seq<Point>)
    requires
        all_wf(s),
    ensures
        0 <= max_abs_x(s) <= COORD_LIMIT,
        0 <= max_abs_y(s) <= COORD_LIMIT,
        forall|i: int| 0 <= i < s.len() ==> abs(#[trigger] s[i].x as int) <= max_abs_x(s)
            && abs(s[i].y as int) <= max_abs_y(s),
    decreases s.len(),
{
    if s.len() > 0 {
        let t = s.drop_last();
        assert(all_wf(t)) by {
            assert forall|i: int| 0 <= i < t.len() implies #[trigger] t[i].wf() by {
                assert(t[i] == s[i]);
            }
        }
        lemma_max_abs_bounds(t);
        assert(s.last().wf());
        assert forall|i: int| 0 <= i < s.len() implies abs(#[trigger] s[i].x as int) <= max_abs_x(s)
            && abs(s[i].y as int) <= max_abs_y(s) by {
            if i < s.len() - 1 {
                assert(s[i] == t[i]);
            }
        }
    }
}

proof fn lemma_fit_coord(c: int, max: int, half: int)
    requires
        abs(c) <= max,
        0 <= half <= COORD_LIMIT,
        max <= COORD_LIMIT,
    ensures
        abs(fit_coord(c, max, half)) <= half,
{
    if max != 0 {
        let m = abs(c);
        assert(0 <= (m * half) / max <= half) by (nonlinear_arith)
            requires 0 <= m <= max, 0 < max, 0 <= half;
    } else {
        assert(c == 0);
    }
}

fn abs_u64(c: i64) -> (r: u64)
    requires
        in_bounds(c as int),
    ensures
        r as int == abs(c as int),
{
    if c < 0 { (-c) as u64 } else { c as u64 }
}

fn fit_coord_exec(c: i64, max: u64, half: i64) -> (r: i64)
    requires
        in_bounds(c as int),
        abs(c as int) <= max,
        max <= COORD_LIMIT,
        0 <= half <= COORD_LIMIT,
    ensures
        r as int == fit_coord(c as int, max as int, half as int),
{
    if max == 0 {
        return c;
    }
    let m: u64 = abs_u64(c);
    assert(m * (half as u64) <= 1_000_000_000_000_000_000) by (nonlinear_arith)
        requires m <= COORD_LIMIT, 0 <= half <= COORD_LIMIT;
    let q: u64 = m * (half as u64) / max;
    assert(q <= half) by (nonlinear_arith)
        requires q as int == (m as int * half as int) / (max as int), m <= max, 0 < max, 0 <= half;
    if c < 0 { -(q as i64) } else { q as i64 }
}

/// Fits sampled points into the path's extent: every X coordinate is scaled
/// by `HALF_WIDTH / max |x|` and every Y by `HALF_HEIGHT / max |y|`, so that
/// the widest point on each axis lands on the extent's edge. An axis whose
/// samples are all zero is left unscaled.
pub fn fit_path(samples: &Vec<Point>) -> (r: Vec<Point>)
    requires
        all_wf(samples@),
    ensures
        r@ == fitted(samples@),
        r@.len() == samples@.len(),
        within_extent(r@),
        all_wf(r@),
{
    let ghost s = samples@;
    let n = samples.len();
    let mut mx: u64 = 0;
    let mut my: u64 = 0;
    let mut i: usize = 0;
    while i < n
        invariant
            n == s.len(),
            s == samples@,
            all_wf(s),
            0 <= i <= n,
            mx as int == max_abs_x(s.take(i as int)),
            my as int == max_abs_y(s.take(i as int)),
        decreases n - i,
    {
        let p = samples[i];
        assert(s.take(i as int + 1).drop_last() =~= s.take(i as int));
        assert(p.wf());
        let ax = abs_u64(p.x);
        let ay = abs_u64(p.y);
        if ax > mx {
            mx = ax;
        }
        if ay > my {
            my = ay;
        }
        i = i + 1;
    }
    assert(s.take(n as int) =~= s);
    proof {
        lemma_max_abs_bounds(s);
    }
    let mut out: Vec<Point> = Vec::with_capacity(n);
    let mut j: usize = 0;
    while j < n
        invariant
            n == s.len(),
            s == samples@,
            all_wf(s),
            0 <= j <= n,
            mx as int == max_abs_x(s),
            my as int == max_abs_y(s),
            0 <= mx <= COORD_LIMIT,
            0 <= my <= COORD_LIMIT,
            forall|k: int| 0 <= k < s.len() ==> abs(#[trigger] s[k].x as int) <= max_abs_x(s)
                && abs(s[k].y as int) <= max_abs_y(s),
            out@.len() == j,
            forall|k: int| 0 <= k < j ==> #[trigger] out@[k] == fit_point(s[k], mx as int, my as int),
            within_extent(out@),
        decreases n - j,
    {
        let p = samples[j];
        assert(p.wf());
        assert(abs(p.x as int) <= mx && abs(p.y as int) <= my);
        proof {
            lemma_fit_coord(p.x as int, mx as int, HALF_WIDTH as int);
            lemma_fit_coord(p.y as int, my as int, HALF_HEIGHT as int);
        }
        let q = Point { x: fit_coord_exec(p.x, mx, HALF_WIDTH), y: fit_coord_exec(p.y, my, HALF_HEIGHT) };
        out.push(q);
        j = j + 1;
    }
    assert(out@ =~= fitted(s));
    out
}

/// Every fitted path keeps the number of samples (so `PATH_LENGTH` samples
/// give a path of `PATH_LENGTH` waypoints), and each waypoint lies
/// within the horizontal and vertical half-extents.
pub proof fn lemma_fitted_path_in_extent(samples: Seq<Point>)
    requires
        all_wf(samples),
    ensures
        fitted(samples).len() == samples.len(),
        samples.len() == PATH_LENGTH ==> fitted(samples).len() == PATH_LENGTH,
        within_extent(fitted(samples)),
{
    lemma_max_abs_bounds(samples);
    let f = fitted(samples);
    assert forall|i: int| 0 <= i < f.len() implies abs(#[trigger] f[i].x as int) <= HALF_WIDTH
        && abs(f[i].y as int) <= HALF_HEIGHT by {
        lemma_fit_coord(samples[i].x as int, max_abs_x(samples), HALF_WIDTH as int);
        lemma_fit_coord(samples[i].y as int, max_abs_y(samples), HALF_HEIGHT as int);
    }
}

} // verus!
