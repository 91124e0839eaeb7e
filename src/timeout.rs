use vstd::prelude::*;

use crate::driver::{lemma_paused_elapsed_iff_due, registered, Sleep, Timer};
use crate::time::{Duration, Instant};
use crate::Poll;

verus! {

/// The error of a timeout whose deadline passed before the work it guarded finished.
#[derive(Clone, Copy, Debug, PartialEq, Eq, Structural)]
pub struct Elapsed {}

impl Elapsed {
    pub fn new() -> (r: Elapsed) {
        Elapsed {}
    }

    pub fn message(&self) -> (r: &'static str)
        ensures
            r@ == "deadline has elapsed"@,
    {
        proof {
            reveal_strlit("deadline has elapsed");
        }
        "deadline has elapsed"
    }
}

/// What a poll of a timeout gives, from whether the guarded work is done (`inner`) and
/// whether the deadline has passed: the work is looked at first.
pub open spec fn race<V>(inner: Poll<V>, deadline_passed: bool) -> Poll<Result<V, Elapsed>> {
    match inner {
        Poll::Ready(v) => Poll::Ready(Ok(v)),
        Poll::Pending => if deadline_passed {
            Poll::Ready(Err(Elapsed {}))
        } else {
            Poll::Pending
        },
    }
}

/// Some work raced against a sleep.
#[derive(Debug)]
pub struct Timeout<T> {
    delay: Sleep,
    future: T,
}

impl<T> Timeout<T> {
    pub closed spec fn delay_of(&self) -> &Sleep {
        &self.delay
    }

    pub closed spec fn inner(&self) -> T {
        self.future
    }

    pub open spec fn valid(&self, timer: &Timer) -> bool {
        self.delay_of().valid(timer)
    }

    /// Guards `future` with a deadline `duration` from now.
    pub fn new(timer: &mut Timer, duration: Duration, future: T) -> (r: Timeout<T>)
        requires
            old(timer).wf(),
            old(timer).timers().len() < usize::MAX,
            old(timer).now_spec() + duration@ <= u64::MAX,
        ensures
            r.delay_of().deadline_spec()@ == old(timer).now_spec() + duration@,
            registered(*old(timer), r.delay_of().deadline_spec(), *final(timer), *r.delay_of()),
            r.inner() == future,
    {
        Timeout { delay: Sleep::new(timer, duration), future }
    }

    /// Guards `future` with the deadline `at`.
    pub fn new_at(timer: &mut Timer, at: Instant, future: T) -> (r: Timeout<T>)
        requires
            old(timer).wf(),
            old(timer).timers().len() < usize::MAX,
        ensures
            registered(*old(timer), at, *final(timer), *r.delay_of()),
            r.inner() == future,
    {
        Timeout { delay: Sleep::new_at(timer, at), future }
    }

    pub fn get_ref(&self) -> (r: &T)
        ensures
            *r == self.inner(),
    {
        &self.future
    }

    pub fn get_mut(&mut self) -> (r: &mut T)
        ensures
            *r == old(self).inner(),
            final(self).inner() == *final(r),
            *final(self).delay_of() == *old(self).delay_of(),
    {
        &mut self.future
    }

    pub fn into_inner(self) -> (r: T)
        ensures
            r == self.inner(),
    {
        self.future
    }

    /// The deadline of the guard.
    pub fn deadline(&self) -> (r: Instant)
        ensures
            r == self.delay_of().deadline_spec(),
    {
        self.delay.deadline()
    }

    /// One poll of the race, given what a poll of the guarded work gave (`inner`): its
    /// value where it is done, else the elapsed error where the deadline has passed.
    pub fn poll<V>(&self, timer: &Timer, inner: Poll<V>) -> (r: Poll<Result<V, Elapsed>>)
        requires
            self.valid(timer),
        ensures
            r == race(inner, self.delay_of().elapsed_in(timer)),
    {
        match inner {
            Poll::Ready(v) => Poll::Ready(Ok(v)),
            Poll::Pending => {
                if self.delay.is_elapsed(timer) {
                    Poll::Ready(Err(Elapsed::new()))
                } else {
                    Poll::Pending
                }
            },
        }
    }

    /// Gives the guard back to the driver and returns the work.
    pub fn cancel(self, timer: &mut Timer) -> (r: T)
        requires
            old(timer).wf(),
            self.valid(old(timer)),
        ensures
            r == self.inner(),
            final(timer).wf(),
            final(timer).now_spec() == old(timer).now_spec(),
    {
        let Timeout { delay, future } = self;
        delay.cancel(timer);
        future
    }
}

/// Guards `future` with a deadline `duration` from now.
pub fn timeout<T>(timer: &mut Timer, duration: Duration, future: T) -> (r: Timeout<T>)
    requires
        old(timer).wf(),
        old(timer).timers().len() < usize::MAX,
        old(timer).now_spec() + duration@ <= u64::MAX,
    ensures
        r.delay_of().deadline_spec()@ == old(timer).now_spec() + duration@,
        registered(*old(timer), r.delay_of().deadline_spec(), *final(timer), *r.delay_of()),
        r.inner() == future,
{
    Timeout::new(timer, duration, future)
}

/// Guards `future` with the deadline `deadline`.
pub fn timeout_at<T>(timer: &mut Timer, deadline: Instant, future: T) -> (r: Timeout<T>)
    requires
        old(timer).wf(),
        old(timer).timers().len() < usize::MAX,
    ensures
        registered(*old(timer), deadline, *final(timer), *r.delay_of()),
        r.inner() == future,
{
    Timeout::new_at(timer, deadline, future)
}

/// A timeout of `big_d` around a sleep of `d`, both made at the time `start` under a paused
/// clock and polled once the clock reaches the earlier of the two ends, gives the sleep's
/// completion where `d < big_d` and the elapsed error where `d > big_d`.
pub proof fn law_timeout_race(
    timer: &Timer,
    start: int,
    d: int,
    big_d: int,
    inner: &Sleep,
    guard: &Timeout<Sleep>,
)
    requires
        timer.wf(),
        timer.is_paused(),
        inner.valid(timer),
        guard.valid(timer),
        d != big_d,
        inner.deadline_spec()@ == start + d,
        guard.delay_of().deadline_spec()@ == start + big_d,
        timer.now_spec() == start + if d < big_d { d } else { big_d },
    ensures
        d < big_d ==> race(
            if inner.elapsed_in(timer) { Poll::Ready(()) } else { Poll::Pending },
            guard.delay_of().elapsed_in(timer),
        ) == Poll::<Result<(), Elapsed>>::Ready(Ok(())),
        d > big_d ==> race(
            if inner.elapsed_in(timer) { Poll::Ready(()) } else { Poll::Pending },
            guard.delay_of().elapsed_in(timer),
        ) == Poll::<Result<(), Elapsed>>::Ready(Err(Elapsed {})),
{
    lemma_paused_elapsed_iff_due(timer, inner);
    lemma_paused_elapsed_iff_due(timer, guard.delay_of());
}

} // verus!
