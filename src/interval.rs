use vstd::prelude::*;

use crate::driver::{lemma_paused_elapsed_iff_due, rearmed, Sleep, Timer};
use crate::time::{Duration, Instant, NANOS_PER_MILLI};
use crate::Poll;

verus! {

/// How far past its deadline a tick may be seen before it counts as missed.
pub const TICK_SLOP_NANOS: u64 = 5 * NANOS_PER_MILLI;

/// What an interval does after it has missed ticks.
#[derive(Clone, Copy, Debug, PartialEq, Eq, Structural)]
pub enum MissedTickBehavior {
    /// Tick as fast as possible until caught up.
    Burst,
    /// Start the period again from the time the tick was seen.
    Delay,
    /// Skip the missed ticks and stay on the grid of the first deadline.
    Skip,
}

impl MissedTickBehavior {
    pub fn default() -> (r: MissedTickBehavior)
        ensures
            r == MissedTickBehavior::Burst,
    {
        MissedTickBehavior::Burst
    }
}

/// The deadline after a tick due at `timeout` that was seen late, at `now`.
pub open spec fn next_timeout_spec(b: MissedTickBehavior, timeout: int, now: int, period: int) -> int {
    match b {
        MissedTickBehavior::Burst => timeout + period,
        MissedTickBehavior::Delay => now + period,
        MissedTickBehavior::Skip => now + period - (now - timeout) % period,
    }
}

/// A tick due at `timeout` and seen at `now` was missed.
pub open spec fn missed(timeout: int, now: int) -> bool {
    now > timeout + TICK_SLOP_NANOS
}

/// The deadline after a tick due at `timeout` and seen at `now`.
pub open spec fn next_tick_spec(b: MissedTickBehavior, timeout: int, now: int, period: int) -> int {
    if missed(timeout, now) {
        next_timeout_spec(b, timeout, now, period)
    } else {
        timeout + period
    }
}

/// The next deadline can be computed without overflow (and, for `Skip`, without a zero period).
pub open spec fn next_tick_fits(b: MissedTickBehavior, timeout: int, now: int, period: int) -> bool {
    if missed(timeout, now) {
        match b {
            MissedTickBehavior::Burst => timeout + period <= u64::MAX,
            MissedTickBehavior::Delay => now + period <= u64::MAX,
            MissedTickBehavior::Skip => period > 0 && now + period <= u64::MAX,
        }
    } else {
        timeout + period <= u64::MAX
    }
}

impl MissedTickBehavior {
    /// The deadline after a tick due at `timeout` that was seen late, at `now`.
    pub fn next_timeout(&self, timeout: Instant, now: Instant, period: Duration) -> (r: Instant)
        requires
            now@ >= timeout@,
            match *self {
                MissedTickBehavior::Burst => timeout@ + period@ <= u64::MAX,
                MissedTickBehavior::Delay => now@ + period@ <= u64::MAX,
                MissedTickBehavior::Skip => period@ > 0 && now@ + period@ <= u64::MAX,
            },
        ensures
            r@ == next_timeout_spec(*self, timeout@, now@, period@),
    {
        match self {
            MissedTickBehavior::Burst => timeout.add(period),
            MissedTickBehavior::Delay => now.add(period),
            MissedTickBehavior::Skip => {
                let late = now.duration_since(timeout).as_nanos();
                let rem = late % period.as_nanos();
                let ahead = now.add(period);
                proof {
                    assert(rem < period@);
                }
                ahead.sub(Duration::from_nanos(rem))
            },
        }
    }
}

/// A stream of ticks, one per period, kept by a sleep that is re-armed at each tick.
#[derive(Debug)]
pub struct Interval {
    sleep: Sleep,
    interval: Duration,
    missed_tick_behavior: MissedTickBehavior,
}

impl Interval {
    pub closed spec fn sleep_of(&self) -> &Sleep {
        &self.sleep
    }

    pub closed spec fn period_spec(&self) -> Duration {
        self.interval
    }

    pub closed spec fn behavior(&self) -> MissedTickBehavior {
        self.missed_tick_behavior
    }

    /// The deadline of the next tick.
    pub open spec fn next_deadline(&self) -> Instant {
        self.sleep_of().deadline_spec()
    }

    pub open spec fn valid(&self, timer: &Timer) -> bool {
        self.sleep_of().valid(timer)
    }

    /// An interval whose first tick comes at `at`, then one each `period`.
    pub fn new_at(timer: &mut Timer, at: Instant, period: Duration) -> (r: Interval)
        requires
            old(timer).wf(),
            old(timer).timers().len() < usize::MAX,
        ensures
            crate::driver::registered(*old(timer), at, *final(timer), *r.sleep_of()),
            r.valid(final(timer)),
            r.next_deadline() == at,
            r.period_spec() == period,
            r.behavior() == MissedTickBehavior::Burst,
    {
        Interval {
            sleep: Sleep::new_at(timer, at),
            interval: period,
            missed_tick_behavior: MissedTickBehavior::default(),
        }
    }

    /// An interval whose first tick comes one `period` from now.
    pub fn new(timer: &mut Timer, period: Duration) -> (r: Interval)
        requires
            old(timer).wf(),
            old(timer).timers().len() < usize::MAX,
            old(timer).now_spec() + period@ <= u64::MAX,
        ensures
            crate::driver::registered(*old(timer), r.next_deadline(), *final(timer), *r.sleep_of()),
            r.valid(final(timer)),
            r.next_deadline()@ == old(timer).now_spec() + period@,
            r.period_spec() == period,
            r.behavior() == MissedTickBehavior::Burst,
    {
        let now = timer.now();
        Interval::new_at(timer, now.add(period), period)
    }

    /// Pending until the next tick is due; then ready with the tick's deadline, and the
    /// sleep re-armed for the tick after it as the missed-tick behaviour decides.
    pub fn poll_tick(&mut self, timer: &mut Timer) -> (r: Poll<Instant>)
        requires
            old(timer).wf(),
            old(self).valid(old(timer)),
            old(self).sleep_of().elapsed_in(old(timer)) ==> next_tick_fits(
                old(self).behavior(),
                old(self).next_deadline()@,
                old(timer).now_spec(),
                old(self).period_spec()@,
            ),
        ensures
            final(self).period_spec() == old(self).period_spec(),
            final(self).behavior() == old(self).behavior(),
            !old(self).sleep_of().elapsed_in(old(timer)) ==> r == Poll::<Instant>::Pending && *final(timer)
                == *old(timer) && *final(self) == *old(self),
            old(self).sleep_of().elapsed_in(old(timer)) ==> r == Poll::Ready(old(self).next_deadline()) && rearmed(
                *old(timer),
                *old(self).sleep_of(),
                Instant {
                    nanos: next_tick_spec(
                        old(self).behavior(),
                        old(self).next_deadline()@,
                        old(timer).now_spec(),
                        old(self).period_spec()@,
                    ) as u64,
                },
                *final(timer),
                *final(self).sleep_of(),
            ),
            final(self).valid(final(timer)),
    {
        if !self.sleep.is_elapsed(timer) {
            return Poll::Pending;
        }
        let timeout = self.sleep.deadline();
        let now = timer.now();
        let late = now.saturating_duration_since(timeout);
        let next = if late.as_nanos() > TICK_SLOP_NANOS {
            self.missed_tick_behavior.next_timeout(timeout, now, self.interval)
        } else {
            timeout.add(self.interval)
        };
        self.sleep.reset(timer, next);
        Poll::Ready(timeout)
    }

    /// Starts the period again: the next tick comes one period from now.
    pub fn reset(&mut self, timer: &mut Timer)
        requires
            old(timer).wf(),
            old(self).valid(old(timer)),
            old(timer).now_spec() + old(self).period_spec()@ <= u64::MAX,
        ensures
            final(self).period_spec() == old(self).period_spec(),
            final(self).behavior() == old(self).behavior(),
            final(self).next_deadline()@ == old(timer).now_spec() + old(self).period_spec()@,
            rearmed(*old(timer), *old(self).sleep_of(), final(self).next_deadline(), *final(timer), *final(self).sleep_of()),
            final(self).valid(final(timer)),
    {
        let now = timer.now();
        let next = now.add(self.interval);
        self.sleep.reset(timer, next);
    }

    /// The deadline of the next tick.
    pub fn deadline(&self) -> (r: Instant)
        ensures
            r == self.next_deadline(),
    {
        self.sleep.deadline()
    }

    pub fn missed_tick_behavior(&self) -> (r: MissedTickBehavior)
        ensures
            r == self.behavior(),
    {
        self.missed_tick_behavior
    }

    pub fn set_missed_tick_behavior(&mut self, behavior: MissedTickBehavior)
        ensures
            final(self).behavior() == behavior,
            final(self).period_spec() == old(self).period_spec(),
            *final(self).sleep_of() == *old(self).sleep_of(),
    {
        self.missed_tick_behavior = behavior;
    }

    pub fn period(&self) -> (r: Duration)
        ensures
            r == self.period_spec(),
    {
        self.interval
    }

    /// Gives the interval's sleep back to the driver; no tick comes after this.
    pub fn cancel(self, timer: &mut Timer)
        requires
            old(timer).wf(),
            self.valid(old(timer)),
        ensures
            final(timer).wf(),
            final(timer).now_spec() == old(timer).now_spec(),
    {
        self.sleep.cancel(timer);
    }
}

/// An interval whose first tick comes one `period` from now.
pub fn interval(timer: &mut Timer, period: Duration) -> (r: Interval)
    requires
        old(timer).wf(),
        old(timer).timers().len() < usize::MAX,
        old(timer).now_spec() + period@ <= u64::MAX,
    ensures
        crate::driver::registered(*old(timer), r.next_deadline(), *final(timer), *r.sleep_of()),
        r.valid(final(timer)),
        r.next_deadline()@ == old(timer).now_spec() + period@,
        r.period_spec() == period,
        r.behavior() == MissedTickBehavior::Burst,
{
    Interval::new(timer, period)
}

/// An interval whose first tick comes at `start`, then one each `period`.
pub fn interval_at(timer: &mut Timer, start: Instant, period: Duration) -> (r: Interval)
    requires
        old(timer).wf(),
        old(timer).timers().len() < usize::MAX,
    ensures
        crate::driver::registered(*old(timer), start, *final(timer), *r.sleep_of()),
        r.valid(final(timer)),
        r.next_deadline() == start,
        r.period_spec() == period,
        r.behavior() == MissedTickBehavior::Burst,
{
    Interval::new_at(timer, start, period)
}

/// Under a paused clock a tick is ready exactly when its deadline is not in the future.
pub proof fn lemma_paused_tick_ready_iff_due(timer: &Timer, i: &Interval)
    requires
        timer.wf(),
        timer.is_paused(),
        i.valid(timer),
    ensures
        i.sleep_of().elapsed_in(timer) <==> i.next_deadline()@ <= timer.now_spec(),
{
    lemma_paused_elapsed_iff_due(timer, i.sleep_of());
}

/// How many ticks in a row a `Burst` interval with the given period hands out, from a
/// next deadline `deadline`, while a paused clock stands at `now`: each ready tick moves
/// the deadline on by one period, and ticks stop at the first deadline in the future.
pub open spec fn burst_run(deadline: int, now: int, period: int) -> nat
    decreases now - deadline + period,
    when period > 0
{
    if deadline <= now {
        1 + burst_run(deadline + period, now, period)
    } else {
        0
    }
}

/// A `Burst` interval that started at `start`, on a clock paused and then advanced by
/// `n` periods and a little more (`eps`, under one period), has exactly `n` ticks ready.
pub proof fn law_burst_catches_up(start: int, period: int, n: nat, eps: int)
    requires
        period > 0,
        0 <= eps < period,
    ensures
        burst_run(start + period, start + n * period + eps, period) == n,
    decreases n,
{
    if n > 0 {
        let m = (n - 1) as nat;
        assert(start + n * period + eps == (start + period) + m * period + eps) by (nonlinear_arith)
            requires
                n == m + 1,
        ;
        law_burst_catches_up(start + period, period, m, eps);
    } else {
        assert(start + n * period + eps == start + eps) by (nonlinear_arith)
            requires
                n == 0,
        ;
    }
}

/// With `Skip`, the deadline after a tick seen at or after its deadline stays on the grid of the missed
/// deadline, and is the first point of that grid after `now`.
pub proof fn law_skip_keeps_grid(timeout: int, now: int, period: int)
    requires
        period > 0,
        now >= timeout,
    ensures
        (next_timeout_spec(MissedTickBehavior::Skip, timeout, now, period) - timeout) % period == 0,
        now < next_timeout_spec(MissedTickBehavior::Skip, timeout, now, period) <= now + period,
{
    let late = now - timeout;
    let k = late / period;
    let rem = late % period;
    assert(late == k * period + rem && 0 <= rem < period) by (nonlinear_arith)
        requires
            period > 0,
            late >= 0,
            k == late / period,
            rem == late % period,
    ;
    let next = now + period - rem;
    assert(next - timeout == (k + 1) * period) by (nonlinear_arith)
        requires
            next == now + period - rem,
            late == now - timeout,
            late == k * period + rem,
    ;
    assert(((k + 1) * period) % period == 0) by (nonlinear_arith)
        requires
            period > 0,
    ;
}

/// With `Delay`, the deadline after a missed tick is one period after the time it was seen.
pub proof fn law_delay_restarts_period(timeout: int, now: int, period: int)
    ensures
        next_timeout_spec(MissedTickBehavior::Delay, timeout, now, period) == now + period,
{
}

} // verus!
