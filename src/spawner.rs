use vstd::prelude::*;
use vstd::arithmetic::div_mod::{lemma_fundamental_div_mod, lemma_fundamental_div_mod_converse};

verus! {

/// Milliseconds between two spawns.
pub const SPAWN_PERIOD_MS: u64 = 1500;

/// Longest period a spawn timer may have, in milliseconds.
pub const MAX_PERIOD_MS: u64 = 1_000_000_000;

/// Longest frame a tick may cover, in milliseconds.
pub const MAX_TICK_MS: u64 = 1_000_000_000;

/// A repeating countdown: it fires on each tick in which the time carried
/// over plus the frame's time reaches the period, and keeps the remainder.
#[derive(Clone, Copy, Debug, PartialEq, Eq, Structural)]
pub struct SpawnTimer {
    pub elapsed_ms: u64,
    pub period_ms: u64,
}

/// Time carried over after a run of frames.
pub open spec fn timer_after(e0: int, p: int, dts: Seq<int>) -> int
    decreases dts.len(),
{
    if dts.len() == 0 {
        e0
    } else {
        (timer_after(e0, p, dts.drop_last()) + dts.last()) % p
    }
}

/// Number of ticks that fired during a run of frames.
pub open spec fn spawns_after(e0: int, p: int, dts: Seq<int>) -> int
    decreases dts.len(),
{
    if dts.len() == 0 {
        0
    } else {
        spawns_after(e0, p, dts.drop_last()) + if timer_after(e0, p, dts.drop_last()) + dts.last()
            >= p { 1int } else { 0int }
    }
}

/// Total time covered by a run of frames.
pub open spec fn total_time(dts: Seq<int>) -> int
    decreases dts.len(),
{
    if dts.len() == 0 { 0 } else { total_time(dts.drop_last()) + dts.last() }
}

impl SpawnTimer {
    pub open spec fn new_spec(period_ms: u64) -> SpawnTimer {
        SpawnTimer { elapsed_ms: 0, period_ms }
    }

    pub open spec fn wf(self) -> bool {
        0 < self.period_ms <= MAX_PERIOD_MS && self.elapsed_ms < self.period_ms
    }

    /// A timer with nothing carried over.
    pub fn new(period_ms: u64) -> (r: SpawnTimer)
        requires
            0 < period_ms <= MAX_PERIOD_MS,
        ensures
            r.wf(),
            r == SpawnTimer::new_spec(period_ms),
    {
        SpawnTimer { elapsed_ms: 0, period_ms }
    }

    /// Advances the timer by `dt_ms` and tells whether it fired. At most one
    /// firing is reported per tick; the time carried over is the remainder
    /// modulo the period.
    pub fn tick(&mut self, dt_ms: u64) -> (fired: bool)
        requires
            old(self).wf(),
            dt_ms <= MAX_TICK_MS,
        ensures
            final(self).wf(),
            final(self).period_ms == old(self).period_ms,
            fired == (old(self).elapsed_ms + dt_ms >= old(self).period_ms),
            final(self).elapsed_ms == (old(self).elapsed_ms + dt_ms) % (old(self).period_ms as int),
    {
        let total: u64 = self.elapsed_ms + dt_ms;
        self.elapsed_ms = total % self.period_ms;
        total >= self.period_ms
    }
}

/// Over a run of frames none longer than the period, starting from a carry
/// below the period, the timer fires `floor((carry + T) / P)` times, where
/// `T` is the run's total time, and carries `(carry + T) mod P` over.
pub proof fn lemma_spawn_cadence(e0: int, p: int, dts: Seq<int>)
    requires
        0 <= e0 < p,
        forall|i: int| 0 <= i < dts.len() ==> 0 <= #[trigger] dts[i] <= p,
    ensures
        spawns_after(e0, p, dts) == (e0 + total_time(dts)) / p,
        timer_after(e0, p, dts) == (e0 + total_time(dts)) % p,
    decreases dts.len(),
{
    if dts.len() == 0 {
        lemma_fundamental_div_mod_converse(e0, p, 0, e0);
    } else {
        let pre = dts.drop_last();
        assert forall|i: int| 0 <= i < pre.len() implies 0 <= #[trigger] pre[i] <= p by {
            assert(pre[i] == dts[i]);
        }
        lemma_spawn_cadence(e0, p, pre);
        let big = e0 + total_time(pre);
        let dt = dts.last();
        assert(dt == dts[dts.len() - 1]);
        lemma_fundamental_div_mod(big, p);
        let q = big / p;
        let r = big % p;
        if r + dt >= p {
            assert(big + dt == (q + 1) * p + (r + dt - p)) by (nonlinear_arith)
                requires big == p * q + r;
            lemma_fundamental_div_mod_converse(big + dt, p, q + 1, r + dt - p);
            lemma_fundamental_div_mod_converse(r + dt, p, 1, r + dt - p);
        } else {
            assert(big + dt == q * p + (r + dt)) by (nonlinear_arith)
                requires big == p * q + r;
            lemma_fundamental_div_mod_converse(big + dt, p, q, r + dt);
            lemma_fundamental_div_mod_converse(r + dt, p, 0, r + dt);
        }
    }
}

} // verus!
