use vstd::prelude::*;

use crate::clock::Clock;
use crate::time::{Duration, Instant, NANOS_PER_MILLI};
use crate::Poll;

verus! {

/// The largest delay, in milliseconds, that the host's one-shot callback accepts.
pub const HOST_DELAY_LIMIT: u64 = 2_147_483_647;

/// The driver's record of one pending wakeup.
#[derive(Clone, Copy, Debug, PartialEq, Eq, Structural)]
pub struct ScheduledTimer {
    /// When it is due; `None` once its owner has let it go.
    pub at: Option<Instant>,
    /// Set by the driver once the deadline has been reached.
    pub fired: bool,
    /// Counts the resets, so that a reset after a fire is told apart from the fire.
    pub generation: u64,
}

impl ScheduledTimer {
    /// Armed and not yet fired.
    pub open spec fn is_armed(self) -> bool {
        self.at.is_some() && !self.fired
    }

    /// Armed, and due at the time `now`.
    pub open spec fn is_due(self, now: int) -> bool {
        self.is_armed() && self.at.unwrap()@ <= now
    }
}

/// The record after the driver has looked at it at the time `now`.
pub open spec fn fire_if_due(t: ScheduledTimer, now: int) -> ScheduledTimer {
    ScheduledTimer { fired: t.fired || t.is_due(now), ..t }
}

/// Every record after the driver has looked at them at the time `now`.
pub open spec fn fire_due(ts: Seq<ScheduledTimer>, now: int) -> Seq<ScheduledTimer> {
    Seq::new(ts.len(), |i: int| fire_if_due(ts[i], now))
}

/// The timer driver: the freezable clock, the last host reading, and every scheduled timer.
/// It also tracks whether it wants the host to call back soon (`wake_requested`) and
/// whether such a call is already booked (`reserved`).
#[derive(Debug)]
pub struct Timer {
    clock: Clock,
    host: Instant,
    timers: Vec<ScheduledTimer>,
    wake_requested: bool,
    reserved: bool,
}

impl Timer {
    pub closed spec fn clock(&self) -> Clock {
        self.clock
    }

    pub closed spec fn host(&self) -> Instant {
        self.host
    }

    pub closed spec fn timers(&self) -> Seq<ScheduledTimer> {
        self.timers@
    }

    pub closed spec fn wake_requested(&self) -> bool {
        self.wake_requested
    }

    pub closed spec fn reserved(&self) -> bool {
        self.reserved
    }

    pub open spec fn is_paused(&self) -> bool {
        self.clock().is_paused()
    }

    /// What `now` returns.
    pub open spec fn now_spec(&self) -> int {
        self.clock().now_at(self.host())
    }

    /// The clock's reading fits an `Instant`, no timer has fired before its deadline, and a
    /// paused clock has nothing overdue.
    pub open spec fn wf(&self) -> bool {
        &&& self.sound()
        &&& self.is_paused() ==> forall|i: int|
            0 <= i < self.timers().len() ==> !(#[trigger] self.timers()[i]).is_due(self.now_spec())
    }

    /// The clock's reading fits an `Instant`, and no timer has fired before its deadline.
    pub open spec fn sound(&self) -> bool {
        &&& self.now_spec() <= u64::MAX
        &&& forall|i: int|
            0 <= i < self.timers().len() && (#[trigger] self.timers()[i]).fired && self.timers()[i].at.is_some()
                ==> self.timers()[i].at.unwrap()@ <= self.now_spec()
    }

    /// A driver whose clock starts at the host reading `host`, running or paused.
    pub fn new(host: Instant, start_paused: bool) -> (r: Timer)
        ensures
            r.wf(),
            r.host() == host,
            r.now_spec() == host@,
            r.is_paused() == start_paused,
            r.timers().len() == 0,
    {
        Timer {
            clock: Clock::new(host, start_paused),
            host,
            timers: Vec::new(),
            wake_requested: false,
            reserved: false,
        }
    }

    pub fn paused(&self) -> (r: bool)
        ensures
            r == self.is_paused(),
    {
        self.clock.paused()
    }

    /// How many timers the driver has registered.
    pub fn timer_count(&self) -> (r: usize)
        ensures
            r == self.timers().len(),
    {
        self.timers.len()
    }

    /// What the clock would show at the host reading `host`, or `None` where that does not
    /// fit an `Instant`.
    pub fn clock_at(&self, host: Instant) -> (r: Option<Instant>)
        ensures
            self.clock().now_at(host) <= u64::MAX ==> r == Some(Instant { nanos: self.clock().now_at(host) as u64 }),
            self.clock().now_at(host) > u64::MAX ==> r.is_none(),
    {
        self.clock.checked_now(host)
    }

    /// The last host reading the driver has taken.
    pub fn last_host_reading(&self) -> (r: Instant)
        ensures
            r == self.host(),
    {
        self.host
    }

    /// The current time of the clock.
    pub fn now(&self) -> (r: Instant)
        requires
            self.wf(),
        ensures
            r@ == self.now_spec(),
    {
        self.clock.now(self.host)
    }

    /// Marks fired every armed timer whose deadline has been reached.
    fn tick(&mut self)
        requires
            old(self).sound(),
        ensures
            final(self).timers() == fire_due(old(self).timers(), old(self).now_spec()),
            final(self).clock() == old(self).clock(),
            final(self).host() == old(self).host(),
            final(self).wake_requested() == old(self).wake_requested(),
            final(self).reserved() == old(self).reserved(),
            final(self).wf(),
    {
        let now = self.clock.now(self.host);
        let ghost ts0 = self.timers@;
        let n = self.timers.len();
        let mut i: usize = 0;
        while i < n
            invariant
                n == self.timers@.len(),
                ts0.len() == n,
                i <= n,
                now@ == old(self).now_spec(),
                self.clock == old(self).clock(),
                self.host == old(self).host(),
                self.wake_requested == old(self).wake_requested(),
                self.reserved == old(self).reserved(),
                ts0 == old(self).timers(),
                forall|j: int| 0 <= j < i ==> self.timers@[j] == fire_if_due(#[trigger] ts0[j], now@),
                forall|j: int| i <= j < n ==> self.timers@[j] == ts0[j],
            decreases n - i,
        {
            let t = self.timers[i];
            let due = match t.at {
                Some(at) => !t.fired && at.nanos <= now.nanos,
                None => false,
            };
            if due {
                self.timers.set(i, ScheduledTimer { fired: true, ..t });
            }
            i = i + 1;
        }
        assert(self.timers@ =~= fire_due(ts0, now@));
    }

    /// The driver has been told that something changed: under a paused clock it looks at
    /// its timers at once; otherwise it asks the host for a prompt callback.
    fn wake(&mut self)
        requires
            old(self).sound(),
        ensures
            final(self).wf(),
            final(self).clock() == old(self).clock(),
            final(self).host() == old(self).host(),
            final(self).reserved() == old(self).reserved(),
            old(self).is_paused() ==> final(self).timers() == fire_due(old(self).timers(), old(self).now_spec()),
            old(self).is_paused() ==> final(self).wake_requested() == old(self).wake_requested(),
            !old(self).is_paused() ==> final(self).timers() == old(self).timers(),
            !old(self).is_paused() ==> final(self).wake_requested(),
    {
        if self.clock.paused() {
            self.tick();
        } else {
            self.wake_requested = true;
        }
    }

    /// The earliest deadline among the armed timers, if any.
    pub fn next_deadline(&self) -> (r: Option<Instant>)
        ensures
            r.is_none() <==> forall|i: int| 0 <= i < self.timers().len() ==> !(#[trigger] self.timers()[i]).is_armed(),
            r.is_some() ==> exists|i: int|
                0 <= i < self.timers().len() && (#[trigger] self.timers()[i]).is_armed() && self.timers()[i].at == r,
            r.is_some() ==> forall|i: int|
                0 <= i < self.timers().len() && (#[trigger] self.timers()[i]).is_armed() ==> r.unwrap()@ <= self.timers()[i].at.unwrap()@,
    {
        let mut best: Option<Instant> = None;
        let n = self.timers.len();
        let mut i: usize = 0;
        while i < n
            invariant
                n == self.timers@.len(),
                i <= n,
                best.is_none() <==> forall|j: int| 0 <= j < i ==> !(#[trigger] self.timers@[j]).is_armed(),
                best.is_some() ==> exists|j: int| 0 <= j < i && (#[trigger] self.timers@[j]).is_armed() && self.timers@[j].at == best,
                best.is_some() ==> forall|j: int|
                    0 <= j < i && (#[trigger] self.timers@[j]).is_armed() ==> best.unwrap()@ <= self.timers@[j].at.unwrap()@,
            decreases n - i,
        {
            let t = self.timers[i];
            if !t.fired {
                if let Some(at) = t.at {
                    let better = match best {
                        Some(b) => at.nanos < b.nanos,
                        None => true,
                    };
                    if better {
                        best = Some(at);
                    }
                }
            }
            i = i + 1;
        }
        best
    }

    /// Registers a new timer due at `at` and returns its index.
    fn register(&mut self, at: Instant) -> (r: usize)
        requires
            old(self).wf(),
            old(self).timers().len() < usize::MAX,
        ensures
            r <= old(self).timers().len(),
            r < old(self).timers().len() ==> old(self).timers()[r as int].at.is_none(),
            forall|i: int| 0 <= i < r ==> (#[trigger] old(self).timers()[i]).at.is_some(),
            final(self).wf(),
            final(self).clock() == old(self).clock(),
            final(self).host() == old(self).host(),
            final(self).reserved() == old(self).reserved(),
            final(self).timers() == after_register(*old(self), r as int, at),
            !old(self).is_paused() ==> final(self).wake_requested(),
    {
        let n = self.timers.len();
        let mut i: usize = 0;
        while i < n && self.timers[i].at.is_some()
            invariant
                n == self.timers@.len(),
                i <= n,
                *self == *old(self),
                forall|j: int| 0 <= j < i ==> (#[trigger] self.timers@[j]).at.is_some(),
            decreases n - i,
        {
            i = i + 1;
        }
        let rec = ScheduledTimer { at: Some(at), fired: false, generation: 0 };
        if i < n {
            self.timers.set(i, rec);
        } else {
            self.timers.push(rec);
        }
        let ghost placed = self.timers@;
        self.wake();
        proof {
            if old(self).is_paused() {
                assert forall|j: int| 0 <= j < old(self).timers().len() && j != i implies
                    self.timers@[j] == old(self).timers()[j] by {
                    assert(placed[j] == old(self).timers()[j]);
                    assert(!old(self).timers()[j].is_due(old(self).now_spec()));
                }
                assert(self.timers@ =~= after_register(*old(self), i as int, at));
            } else {
                assert(self.timers@ =~= after_register(*old(self), i as int, at));
            }
        }
        i
    }

    /// Pauses the clock at what it shows now.
    pub fn pause(&mut self)
        requires
            old(self).wf(),
            !old(self).is_paused(),
        ensures
            final(self).wf(),
            final(self).is_paused(),
            final(self).now_spec() == old(self).now_spec(),
            final(self).timers() == fire_due(old(self).timers(), old(self).now_spec()),
    {
        let host = self.host;
        self.clock.pause(host);
        self.wake();
    }

    /// Lets a paused clock run again from what it shows.
    pub fn resume(&mut self)
        requires
            old(self).wf(),
            old(self).is_paused(),
        ensures
            final(self).wf(),
            !final(self).is_paused(),
            final(self).clock().unfrozen == Some(old(self).host()),
            final(self).clock().base == old(self).clock().base,
            final(self).host() == old(self).host(),
            final(self).now_spec() == old(self).now_spec(),
            final(self).timers() == old(self).timers(),
    {
        let host = self.host;
        self.clock.resume(host);
        self.wake();
    }

    /// Moves a paused clock forward by `duration` and fires what has become due.
    pub fn advance(&mut self, duration: Duration)
        requires
            old(self).wf(),
            old(self).is_paused(),
            old(self).now_spec() + duration@ <= u64::MAX,
        ensures
            final(self).wf(),
            final(self).is_paused(),
            final(self).now_spec() == old(self).now_spec() + duration@,
            final(self).timers() == fire_due(old(self).timers(), old(self).now_spec() + duration@),
    {
        self.clock.advance(duration);
        self.wake();
    }

    /// Takes a new reading of the host clock, which never goes back.
    pub fn observe_host(&mut self, host: Instant)
        requires
            old(self).wf(),
            old(self).host()@ <= host@,
            old(self).clock().now_at(host) <= u64::MAX,
        ensures
            final(self).wf(),
            final(self).host() == host,
            final(self).clock() == old(self).clock(),
            final(self).now_spec() >= old(self).now_spec(),
            old(self).is_paused() ==> final(self).now_spec() == old(self).now_spec(),
            final(self).timers() == old(self).timers(),
    {
        self.host = host;
        proof {
            crate::clock::lemma_now_monotone(self.clock, old(self).host(), host);
            if self.clock.is_paused() {
                crate::clock::lemma_paused_now_constant(self.clock, old(self).host(), host);
                assert(self.now_spec() == old(self).now_spec());
                assert forall|i: int| 0 <= i < self.timers().len() implies
                    !(#[trigger] self.timers()[i]).is_due(self.now_spec()) by {
                    assert(self.timers()[i] == old(self).timers()[i]);
                }
            }
        }
    }

    /// The host's one-shot callback has run at the host reading `host`: fire what is due
    /// and return the delay, in whole milliseconds, after which the host should call again,
    /// or `None` where no call is needed (nothing armed, or a paused clock).
    pub fn host_callback(&mut self, host: Instant) -> (r: Option<u64>)
        requires
            old(self).wf(),
            old(self).host()@ <= host@,
            old(self).clock().now_at(host) <= u64::MAX,
        ensures
            final(self).wf(),
            final(self).host() == host,
            final(self).clock() == old(self).clock(),
            final(self).timers() == fire_due(old(self).timers(), old(self).clock().now_at(host)),
            !final(self).wake_requested(),
            final(self).reserved() == r.is_some(),
            r.is_some() ==> !final(self).is_paused(),
            r.is_some() <==> !final(self).is_paused() && exists|i: int|
                0 <= i < final(self).timers().len() && (#[trigger] final(self).timers()[i]).is_armed(),
            r.is_some() ==> r.unwrap() <= HOST_DELAY_LIMIT,
            r.is_some() ==> exists|i: int|
                0 <= i < final(self).timers().len() && (#[trigger] final(self).timers()[i]).is_armed() && r.unwrap()
                    == host_delay_spec(final(self).timers()[i].at.unwrap()@, final(self).now_spec()) && forall|j: int|
                    0 <= j < final(self).timers().len() && (#[trigger] final(self).timers()[j]).is_armed()
                        ==> final(self).timers()[i].at.unwrap()@ <= final(self).timers()[j].at.unwrap()@,
    {
        self.observe_host(host);
        self.wake_requested = false;
        self.reserved = false;
        self.tick();
        if self.clock.paused() {
            None
        } else {
            match self.next_deadline() {
                None => None,
                Some(next) => {
                    let now = self.now();
                    let delay = host_delay(next, now);
                    let ghost i = choose|i: int| 0 <= i < self.timers().len() && (#[trigger] self.timers()[i]).is_armed() && self.timers()[i].at == Some(next);
                    self.reserved = true;
                    assert(self.timers()[i].is_armed());
                    assert(self.timers()[i].at.unwrap() == next);
                    Some(delay)
                },
            }
        }
    }

    /// Books a prompt host callback where one is wanted and none is booked yet; returns
    /// whether the host should now be asked for a callback without delay.
    pub fn take_wake_request(&mut self) -> (r: bool)
        requires
            old(self).wf(),
        ensures
            final(self).wf(),
            final(self).clock() == old(self).clock(),
            final(self).host() == old(self).host(),
            final(self).timers() == old(self).timers(),
            r == (old(self).wake_requested() && !old(self).reserved() && !old(self).is_paused()),
            r ==> final(self).reserved() && !final(self).wake_requested(),
            !r ==> final(self).reserved() == old(self).reserved() && final(self).wake_requested() == old(self).wake_requested(),
    {
        if self.wake_requested && !self.reserved && !self.clock.paused() {
            self.wake_requested = false;
            self.reserved = true;
            true
        } else {
            false
        }
    }

    /// Whether the timer at `id` has fired.
    fn fired(&self, id: usize) -> (r: bool)
        requires
            id < self.timers().len(),
        ensures
            r == self.timers()[id as int].fired,
    {
        self.timers[id].fired
    }

    /// Re-arms the timer at `id` for `at`, clearing its fired mark.
    fn rearm(&mut self, id: usize, at: Instant)
        requires
            old(self).wf(),
            id < old(self).timers().len(),
        ensures
            final(self).wf(),
            final(self).clock() == old(self).clock(),
            final(self).host() == old(self).host(),
            final(self).reserved() == old(self).reserved(),
            final(self).timers() == old(self).timers().update(
                id as int,
                ScheduledTimer {
                    at: Some(at),
                    fired: old(self).is_paused() && at@ <= old(self).now_spec(),
                    generation: old(self).timers()[id as int].generation.wrapping_add(1),
                },
            ),
    {
        let t = self.timers[id];
        self.timers.set(id, ScheduledTimer { at: Some(at), fired: false, generation: t.generation.wrapping_add(1) });
        let ghost updated = self.timers@;
        self.wake();
        proof {
            if old(self).is_paused() {
                assert forall|i: int| 0 <= i < old(self).timers().len() && i != id implies
                    self.timers@[i] == old(self).timers()[i] by {
                    assert(updated[i] == old(self).timers()[i]);
                    assert(!old(self).timers()[i].is_due(old(self).now_spec()));
                }
                assert(self.timers@ =~= old(self).timers().update(
                    id as int,
                    ScheduledTimer {
                        at: Some(at),
                        fired: at@ <= old(self).now_spec(),
                        generation: t.generation.wrapping_add(1),
                    },
                ));
            }
        }
    }

    /// Lets go of the timer at `id`: it will never fire.
    fn release(&mut self, id: usize)
        requires
            old(self).wf(),
            id < old(self).timers().len(),
        ensures
            final(self).wf(),
            final(self).clock() == old(self).clock(),
            final(self).host() == old(self).host(),
            final(self).timers() == old(self).timers().update(
                id as int,
                ScheduledTimer { at: None, ..old(self).timers()[id as int] },
            ),
    {
        let t = self.timers[id];
        self.timers.set(id, ScheduledTimer { at: None, ..t });
        proof {
            if self.clock.is_paused() {
                assert forall|i: int| 0 <= i < self.timers@.len() implies
                    !(#[trigger] self.timers@[i]).is_due(self.now_spec()) by {
                    if i != id {
                        assert(self.timers@[i] == old(self).timers()[i]);
                    }
                }
            }
        }
    }
}

/// The host delay for a deadline `next` seen at the time `now`: what is left, in whole
/// milliseconds rounded down and never below zero, or zero where it exceeds what the host
/// accepts (the callback then comes at once and asks again).
pub open spec fn host_delay_spec(next: int, now: int) -> int {
    let ms = if next > now { (next - now) / NANOS_PER_MILLI as int } else { 0 };
    if ms > HOST_DELAY_LIMIT { 0 } else { ms }
}

pub fn host_delay(next: Instant, now: Instant) -> (r: u64)
    ensures
        r == host_delay_spec(next@, now@),
        r <= HOST_DELAY_LIMIT,
{
    let ms = next.saturating_duration_since(now).as_millis();
    if ms > HOST_DELAY_LIMIT {
        0
    } else {
        ms
    }
}

impl Instant {
    /// The current time of the driver's clock.
    pub fn now(timer: &Timer) -> (r: Instant)
        requires
            timer.wf(),
        ensures
            r@ == timer.now_spec(),
    {
        timer.now()
    }

    /// Time gone by since this instant on the driver's clock, never below zero.
    pub fn elapsed(&self, timer: &Timer) -> (r: Duration)
        requires
            timer.wf(),
        ensures
            r@ == if timer.now_spec() >= self@ { timer.now_spec() - self@ } else { 0 },
    {
        timer.now().saturating_duration_since(*self)
    }
}

/// A wait until a deadline, bound to the driver that fires it.
#[derive(Debug)]
pub struct Sleep {
    id: usize,
    deadline: Instant,
}

impl Sleep {
    pub closed spec fn id(&self) -> nat {
        self.id as nat
    }

    pub closed spec fn deadline_spec(&self) -> Instant {
        self.deadline
    }

    /// The sleep's record in `timer` holds its deadline.
    pub open spec fn valid(&self, timer: &Timer) -> bool {
        &&& self.id() < timer.timers().len()
        &&& timer.timers()[self.id() as int].at == Some(self.deadline_spec())
    }

    /// Whether the sleep has fired in `timer`.
    pub open spec fn elapsed_in(&self, timer: &Timer) -> bool {
        timer.timers()[self.id() as int].fired
    }

    /// A sleep that ends at `at`, registered with `timer`. Under a paused clock it has
    /// elapsed at once where `at` is not in the future.
    pub fn new_at(timer: &mut Timer, at: Instant) -> (r: Sleep)
        requires
            old(timer).wf(),
            old(timer).timers().len() < usize::MAX,
        ensures
            registered(*old(timer), at, *final(timer), r),
    {
        let id = timer.register(at);
        Sleep { id, deadline: at }
    }

    /// A sleep that ends `duration` from now.
    pub fn new(timer: &mut Timer, duration: Duration) -> (r: Sleep)
        requires
            old(timer).wf(),
            old(timer).timers().len() < usize::MAX,
            old(timer).now_spec() + duration@ <= u64::MAX,
        ensures
            r.deadline_spec()@ == old(timer).now_spec() + duration@,
            registered(*old(timer), r.deadline_spec(), *final(timer), r),
    {
        let now = timer.now();
        let at = now.add(duration);
        Sleep::new_at(timer, at)
    }

    /// The deadline it was last armed for.
    pub fn deadline(&self) -> (r: Instant)
        ensures
            r == self.deadline_spec(),
    {
        self.deadline
    }

    /// Whether the driver has fired this sleep.
    pub fn is_elapsed(&self, timer: &Timer) -> (r: bool)
        requires
            self.valid(timer),
        ensures
            r == self.elapsed_in(timer),
    {
        timer.fired(self.id)
    }

    /// Ready once the sleep has elapsed.
    pub fn poll(&self, timer: &Timer) -> (r: Poll<()>)
        requires
            self.valid(timer),
        ensures
            r == (if self.elapsed_in(timer) { Poll::Ready(()) } else { Poll::Pending }),
    {
        if timer.fired(self.id) {
            Poll::Ready(())
        } else {
            Poll::Pending
        }
    }

    /// Re-arms the sleep for `at`, also after it has elapsed.
    pub fn reset(&mut self, timer: &mut Timer, at: Instant)
        requires
            old(timer).wf(),
            old(self).valid(old(timer)),
        ensures
            rearmed(*old(timer), *old(self), at, *final(timer), *final(self)),
    {
        timer.rearm(self.id, at);
        self.deadline = at;
    }

    /// Gives the sleep back to the driver, which will never fire it.
    pub fn cancel(self, timer: &mut Timer)
        requires
            old(timer).wf(),
            self.valid(old(timer)),
        ensures
            final(timer).wf(),
            final(timer).now_spec() == old(timer).now_spec(),
            final(timer).is_paused() == old(timer).is_paused(),
            final(timer).timers() == old(timer).timers().update(
                self.id() as int,
                ScheduledTimer { at: None, ..old(timer).timers()[self.id() as int] },
            ),
    {
        timer.release(self.id);
    }
}

/// Under a paused clock a sleep has elapsed exactly when its deadline is not in the future.
pub proof fn lemma_paused_elapsed_iff_due(timer: &Timer, s: &Sleep)
    requires
        timer.wf(),
        timer.is_paused(),
        s.valid(timer),
    ensures
        s.elapsed_in(timer) <==> s.deadline_spec()@ <= timer.now_spec(),
{
    let i = s.id() as int;
    assert(timer.timers()[i].fired ==> timer.timers()[i].at.unwrap()@ <= timer.now_spec());
    assert(!timer.timers()[i].is_due(timer.now_spec()));
}

/// A sleep of `d` made under a paused clock has not elapsed when made (for `d` above zero),
/// and has elapsed once the clock has been advanced by `d`.
pub proof fn law_sleep_elapses_after_advance(t0: Timer, d: Duration, s: Sleep, t1: Timer, t2: Timer)
    requires
        t0.wf(),
        t0.is_paused(),
        d@ > 0,
        s.deadline_spec()@ == t0.now_spec() + d@,
        registered(t0, s.deadline_spec(), t1, s),
        t2.wf(),
        t2.now_spec() == t1.now_spec() + d@,
        t2.timers() == fire_due(t1.timers(), t1.now_spec() + d@),
    ensures
        !s.elapsed_in(&t1),
        s.elapsed_in(&t2),
{
    let i = s.id() as int;
    assert(t1.timers()[i].at == Some(s.deadline_spec()));
    assert(t2.timers()[i] == fire_if_due(t1.timers()[i], t1.now_spec() + d@));
}

/// Of two sleeps made under a paused clock, ending after `d1` and after a later `d2`,
/// advancing by `d1` ends only the first, and advancing by `d2 - d1` more ends the second.
pub proof fn law_sleeps_end_in_order(
    t0: Timer,
    d1: Duration,
    d2: Duration,
    s1: Sleep,
    t1: Timer,
    s2: Sleep,
    t2: Timer,
    t3: Timer,
    t4: Timer,
)
    requires
        t0.wf(),
        t0.is_paused(),
        0 < d1@ < d2@,
        s1.deadline_spec()@ == t0.now_spec() + d1@,
        registered(t0, s1.deadline_spec(), t1, s1),
        s2.deadline_spec()@ == t1.now_spec() + d2@,
        registered(t1, s2.deadline_spec(), t2, s2),
        t3.now_spec() == t2.now_spec() + d1@,
        t3.timers() == fire_due(t2.timers(), t2.now_spec() + d1@),
        t4.now_spec() == t3.now_spec() + (d2@ - d1@),
        t4.timers() == fire_due(t3.timers(), t3.now_spec() + (d2@ - d1@)),
    ensures
        s1.elapsed_in(&t3),
        !s2.elapsed_in(&t3),
        s2.elapsed_in(&t4),
{
    let i1 = s1.id() as int;
    let i2 = s2.id() as int;
    assert(t2.timers()[i1] == t1.timers()[i1]);
    assert(t3.timers()[i1] == fire_if_due(t2.timers()[i1], t2.now_spec() + d1@));
    assert(t3.timers()[i2] == fire_if_due(t2.timers()[i2], t2.now_spec() + d1@));
    assert(t4.timers()[i2] == fire_if_due(t3.timers()[i2], t3.now_spec() + (d2@ - d1@)));
}

/// `new` is the driver `old` after the sleep `s`, ending at `at`, was registered with it.
pub open spec fn registered(old: Timer, at: Instant, new: Timer, s: Sleep) -> bool {
    &&& new.wf()
    &&& s.deadline_spec() == at
    &&& s.id() <= old.timers().len()
    &&& s.id() < old.timers().len() ==> old.timers()[s.id() as int].at.is_none()
    &&& forall|i: int| 0 <= i < s.id() ==> (#[trigger] old.timers()[i]).at.is_some()
    &&& new.now_spec() == old.now_spec()
    &&& new.is_paused() == old.is_paused()
    &&& new.timers() == after_register(old, s.id() as int, at)
    &&& s.valid(&new)
}

/// The record that registering a timer due at `at` with the driver `old` makes.
pub open spec fn fresh_record(old: Timer, at: Instant) -> ScheduledTimer {
    ScheduledTimer { at: Some(at), fired: old.is_paused() && at@ <= old.now_spec(), generation: 0 }
}

/// The driver's records after a timer due at `at` was registered at `id`: a released
/// record is reused where there is one, and the list grows by one only where there is none.
pub open spec fn after_register(old: Timer, id: int, at: Instant) -> Seq<ScheduledTimer> {
    if id < old.timers().len() {
        old.timers().update(id, fresh_record(old, at))
    } else {
        old.timers().push(fresh_record(old, at))
    }
}

/// `new_t` and `new_s` are the driver and the sleep after `old_s` was re-armed for `at`.
pub open spec fn rearmed(old_t: Timer, old_s: Sleep, at: Instant, new_t: Timer, new_s: Sleep) -> bool {
    &&& new_t.wf()
    &&& new_s.id() == old_s.id()
    &&& new_s.deadline_spec() == at
    &&& new_t.now_spec() == old_t.now_spec()
    &&& new_t.is_paused() == old_t.is_paused()
    &&& new_t.timers() == old_t.timers().update(
        old_s.id() as int,
        ScheduledTimer {
            at: Some(at),
            fired: old_t.is_paused() && at@ <= old_t.now_spec(),
            generation: old_t.timers()[old_s.id() as int].generation.wrapping_add(1),
        },
    )
    &&& new_s.valid(&new_t)
}

/// A sleep that ends `duration` from now.
pub fn sleep(timer: &mut Timer, duration: Duration) -> (r: Sleep)
    requires
        old(timer).wf(),
        old(timer).timers().len() < usize::MAX,
        old(timer).now_spec() + duration@ <= u64::MAX,
    ensures
        r.deadline_spec()@ == old(timer).now_spec() + duration@,
        registered(*old(timer), r.deadline_spec(), *final(timer), r),
{
    Sleep::new(timer, duration)
}

/// A sleep that ends at `deadline`.
pub fn sleep_until(timer: &mut Timer, deadline: Instant) -> (r: Sleep)
    requires
        old(timer).wf(),
        old(timer).timers().len() < usize::MAX,
    ensures
        registered(*old(timer), deadline, *final(timer), r),
{
    Sleep::new_at(timer, deadline)
}

/// Pauses the driver's clock.
pub fn pause(timer: &mut Timer)
    requires
        old(timer).wf(),
        !old(timer).is_paused(),
    ensures
        final(timer).wf(),
        final(timer).is_paused(),
        final(timer).now_spec() == old(timer).now_spec(),
        final(timer).timers() == fire_due(old(timer).timers(), old(timer).now_spec()),
{
    timer.pause();
}

/// Lets the driver's clock run again.
pub fn resume(timer: &mut Timer)
    requires
        old(timer).wf(),
        old(timer).is_paused(),
    ensures
        final(timer).wf(),
        !final(timer).is_paused(),
        final(timer).clock().unfrozen == Some(old(timer).host()),
        final(timer).clock().base == old(timer).clock().base,
        final(timer).host() == old(timer).host(),
        final(timer).now_spec() == old(timer).now_spec(),
        final(timer).timers() == old(timer).timers(),
{
    timer.resume();
}

/// Moves the driver's paused clock forward by `duration`, firing what becomes due.
pub fn advance(timer: &mut Timer, duration: Duration)
    requires
        old(timer).wf(),
        old(timer).is_paused(),
        old(timer).now_spec() + duration@ <= u64::MAX,
    ensures
        final(timer).wf(),
        final(timer).is_paused(),
        final(timer).now_spec() == old(timer).now_spec() + duration@,
        final(timer).timers() == fire_due(old(timer).timers(), old(timer).now_spec() + duration@),
{
    timer.advance(duration);
}

} // verus!
