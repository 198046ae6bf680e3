//! The clock abstraction and its deterministic implementation.
//!
//! A clock produces a monotonic sequence of tick notifications numbered from
//! 1, with a configurable period, and a start/stop/reset lifecycle: `start`
//! fires tick 1 immediately and is a no-op when already running, `stop` halts
//! firing and preserves the counter, `reset` only zeroes the counter.
//!
//! `ManualClock` is the deterministic implementation: it advances under
//! explicit control, either one tick at a time through `fire`, or by model
//! time through `advance_micros`, which fires exactly the ticks the polling
//! algorithm would fire in that span. A real-time implementation polling the
//! operating system's monotonic clock from a dedicated thread lives outside
//! the verified library; any conforming implementation must meet the
//! contracts of this trait.

use vstd::arithmetic::div_mod::lemma_fundamental_div_mod_converse;
use vstd::prelude::*;

verus! {

/// A source of tick notifications numbered from 1.
pub trait Clock: Sized {
    /// Well-formedness of the clock's configuration.
    spec fn inv(&self) -> bool;

    /// Total ticks fired since the counter was last zeroed.
    spec fn ticks(&self) -> int;

    /// Whether the clock is running.
    spec fn running(&self) -> bool;

    /// The configured period between ticks, in microseconds.
    spec fn period_us(&self) -> int;

    /// A well-formed clock's period is at least one microsecond.
    proof fn lemma_inv_period(&self)
        requires
            self.inv(),
        ensures
            self.period_us() >= 1,
    ;

    /// A stopped clock with zero ticks and the default period of one second.
    fn new() -> (c: Self)
        ensures
            c.inv(),
            c.ticks() == 0,
            !c.running(),
            c.period_us() == 1_000_000,
    ;

    /// Begins firing ticks; tick `old(self).ticks() + 1` fires immediately.
    /// No-op if already running.
    fn start(&mut self)
        requires
            old(self).inv(),
            old(self).ticks() < usize::MAX,
        ensures
            final(self).inv(),
            final(self).running(),
            final(self).period_us() == old(self).period_us(),
            old(self).running() ==> *final(self) == *old(self),
            !old(self).running() ==> final(self).ticks() == old(self).ticks() + 1,
    ;

    /// Halts firing; the tick counter is preserved. Idempotent.
    fn stop(&mut self)
        requires
            old(self).inv(),
        ensures
            final(self).inv(),
            !final(self).running(),
            final(self).ticks() == old(self).ticks(),
            final(self).period_us() == old(self).period_us(),
    ;

    /// Zeroes the tick counter; run state and period are untouched.
    fn reset(&mut self)
        requires
            old(self).inv(),
        ensures
            final(self).inv(),
            final(self).ticks() == 0,
            final(self).running() == old(self).running(),
            final(self).period_us() == old(self).period_us(),
    ;

    /// Whether the clock is currently firing ticks.
    fn is_running(&self) -> (r: bool)
        ensures
            r == self.running(),
    ;

    /// Sets the interval between ticks, in microseconds.
    fn with_period(&mut self, period_us: u64)
        requires
            old(self).inv(),
            period_us >= 1,
        ensures
            final(self).inv(),
            final(self).period_us() == period_us,
            final(self).ticks() == old(self).ticks(),
            final(self).running() == old(self).running(),
    ;

    /// Total ticks fired since the counter was last zeroed.
    fn get_ticks(&self) -> (t: usize)
        ensures
            t as int == self.ticks(),
    ;

    /// The configured period, in microseconds.
    fn get_period(&self) -> (p: u64)
        ensures
            p as int == self.period_us(),
    ;

    /// Fires the next tick: the delivery of one tick notification.
    fn fire(&mut self)
        requires
            old(self).inv(),
            old(self).running(),
            old(self).ticks() < usize::MAX,
        ensures
            final(self).inv(),
            final(self).ticks() == old(self).ticks() + 1,
            final(self).running(),
            final(self).period_us() == old(self).period_us(),
    ;
}

/// The deterministic clock: ticks fire under explicit control instead of on a
/// timer thread, so tests drive the engine without real-time waits.
#[derive(Clone, Copy, Debug, PartialEq, Eq, Structural)]
pub struct ManualClock {
    /// Total ticks fired since the counter was last zeroed.
    pub ticks: usize,
    /// Whether the clock is running.
    pub running: bool,
    /// The interval between ticks, in microseconds.
    pub period_us: u64,
    /// Model time elapsed since the current run began, in microseconds.
    pub elapsed_us: u64,
}

/// The state after `start`: a stopped clock starts running, fires one tick at
/// once and begins a fresh run; a running clock is untouched.
pub open spec fn clock_started(c: ManualClock) -> ManualClock {
    if c.running {
        c
    } else {
        ManualClock { ticks: (c.ticks + 1) as usize, running: true, elapsed_us: 0, ..c }
    }
}

/// The state after `stop`: firing halts, everything else is preserved.
pub open spec fn clock_stopped(c: ManualClock) -> ManualClock {
    ManualClock { running: false, ..c }
}

/// The state after `reset`: the counter is zeroed, nothing else changes.
pub open spec fn clock_reset(c: ManualClock) -> ManualClock {
    ManualClock { ticks: 0, ..c }
}

/// How many ticks a started run has fired once `elapsed` microseconds have
/// passed since `start`, for a period of `p` microseconds: the immediate tick
/// plus one tick for every whole period that has elapsed. This is the timing
/// behaviour of the polling algorithm, which advances each deadline by
/// exactly one period rather than by "now", so drift does not accumulate.
pub open spec fn ticks_after(elapsed: int, p: int) -> int
    recommends
        p >= 1,
{
    1 + elapsed / p
}

impl Clock for ManualClock {
    open spec fn inv(&self) -> bool {
        self.period_us >= 1
    }

    open spec fn ticks(&self) -> int {
        self.ticks as int
    }

    open spec fn running(&self) -> bool {
        self.running
    }

    open spec fn period_us(&self) -> int {
        self.period_us as int
    }

    proof fn lemma_inv_period(&self) {
    }

    fn new() -> (c: Self) {
        ManualClock { ticks: 0, running: false, period_us: 1_000_000, elapsed_us: 0 }
    }

    fn start(&mut self)
        ensures
            *final(self) == clock_started(*old(self)),
    {
        if !self.running {
            self.running = true;
            self.ticks = self.ticks + 1;
            self.elapsed_us = 0;
        }
    }

    fn stop(&mut self)
        ensures
            *final(self) == clock_stopped(*old(self)),
    {
        self.running = false;
    }

    fn reset(&mut self)
        ensures
            *final(self) == clock_reset(*old(self)),
    {
        self.ticks = 0;
    }

    fn is_running(&self) -> (r: bool) {
        self.running
    }

    fn with_period(&mut self, period_us: u64)
        ensures
            final(self).elapsed_us == old(self).elapsed_us,
    {
        self.period_us = period_us;
    }

    fn get_ticks(&self) -> (t: usize) {
        self.ticks
    }

    fn get_period(&self) -> (p: u64) {
        self.period_us
    }

    fn fire(&mut self)
        ensures
            *final(self) == (ManualClock { ticks: (old(self).ticks + 1) as usize, ..*old(self) }),
    {
        self.ticks = self.ticks + 1;
    }
}

impl ManualClock {
    /// Advances model time by `dt_us` microseconds, firing every tick whose
    /// deadline passes, exactly as the polling loop does: after `e`
    /// microseconds of a run the counter shows `start + e / period` more
    /// ticks than when the run began.
    pub fn advance_micros(&mut self, dt_us: u64) -> (fired: usize)
        requires
            old(self).inv(),
            old(self).running,
            old(self).elapsed_us + dt_us <= u64::MAX,
            old(self).ticks + (old(self).elapsed_us + dt_us) / (old(self).period_us as int)
                - (old(self).elapsed_us as int) / (old(self).period_us as int) <= usize::MAX,
        ensures
            final(self).running,
            final(self).period_us == old(self).period_us,
            final(self).elapsed_us == old(self).elapsed_us + dt_us,
            fired == (old(self).elapsed_us + dt_us) / (old(self).period_us as int)
                - (old(self).elapsed_us as int) / (old(self).period_us as int),
            final(self).ticks == old(self).ticks + fired,
    {
        let total = self.elapsed_us + dt_us;
        proof {
            vstd::arithmetic::div_mod::lemma_div_is_ordered(
                self.elapsed_us as int,
                total as int,
                self.period_us as int,
            );
        }
        let fired_wide = total / self.period_us - self.elapsed_us / self.period_us;
        assert(fired_wide <= usize::MAX);
        let fired = fired_wide as usize;
        self.ticks = self.ticks + fired;
        self.elapsed_us = total;
        fired
    }
}

/// Law: starting twice in a row leaves the clock in exactly the state one
/// `start` produces; the second call changes nothing.
pub proof fn lemma_start_idempotent(c: ManualClock)
    ensures
        clock_started(clock_started(c)) == clock_started(c),
{
}

/// Law: stopping twice in a row leaves the clock in exactly the state one
/// `stop` produces; the second call changes nothing.
pub proof fn lemma_stop_idempotent(c: ManualClock)
    ensures
        clock_stopped(clock_stopped(c)) == clock_stopped(c),
{
}

/// Law: resetting twice in a row zeroes the tick counter just as one `reset`
/// does, and touches nothing else.
pub proof fn lemma_reset_idempotent(c: ManualClock)
    ensures
        clock_reset(clock_reset(c)) == clock_reset(c),
        clock_reset(c).ticks == 0,
        clock_reset(c).running == c.running,
        clock_reset(c).period_us == c.period_us,
{
}

/// Law: with period `p >= 2`, once `n * p - p / 2` microseconds have elapsed
/// since `start` on a fresh counter, exactly `n` ticks have fired: the
/// immediate tick plus `n - 1` whole periods, with half a period to spare.
pub proof fn lemma_tick_count(n: int, p: int)
    requires
        n >= 1,
        p >= 2,
    ensures
        ticks_after(n * p - p / 2, p) == n,
{
    let h = p / 2;
    assert(1 <= h < p);
    assert(n * p - h == (n - 1) * p + (p - h)) by (nonlinear_arith);
    lemma_fundamental_div_mod_converse(n * p - h, p, n - 1, p - h);
}

} // verus!
