use vstd::prelude::*;

use crate::time::{Duration, Instant};

verus! {

/// The freezable clock: `base` is the time it showed when last frozen or started, and
/// `unfrozen` the host reading at which it last started to run (`None` while paused).
#[derive(Clone, Copy, Debug)]
pub struct Clock {
    pub base: Instant,
    pub unfrozen: Option<Instant>,
}

impl Clock {
    /// What the clock shows when the host reads `host`: the base while paused, and the
    /// base plus the host time gone by since it started otherwise (never negative).
    pub open spec fn now_at(self, host: Instant) -> int {
        match self.unfrozen {
            Some(t0) => self.base@ + if host@ >= t0@ { host@ - t0@ } else { 0 },
            None => self.base@,
        }
    }

    pub open spec fn is_paused(self) -> bool {
        self.unfrozen.is_none()
    }

    /// A running clock started at the host reading `host`, paused at once if asked.
    pub fn new(host: Instant, start_paused: bool) -> (r: Clock)
        ensures
            r.base == host,
            r.is_paused() == start_paused,
            r.now_at(host) == host@,
            !start_paused ==> r.unfrozen == Some(host),
    {
        let mut clock = Clock { base: host, unfrozen: Some(host) };
        if start_paused {
            clock.pause(host);
        }
        clock
    }

    pub fn paused(&self) -> (r: bool)
        ensures
            r == self.is_paused(),
    {
        self.unfrozen.is_none()
    }

    /// What the clock shows when the host reads `host`.
    pub fn now(&self, host: Instant) -> (r: Instant)
        requires
            self.now_at(host) <= u64::MAX,
        ensures
            r@ == self.now_at(host),
    {
        match self.unfrozen {
            Some(t0) => self.base.add(host.saturating_duration_since(t0)),
            None => self.base,
        }
    }

    /// What the clock shows when the host reads `host`, or `None` where that does not fit
    /// an `Instant`.
    pub fn checked_now(&self, host: Instant) -> (r: Option<Instant>)
        ensures
            self.now_at(host) <= u64::MAX ==> r == Some(Instant { nanos: self.now_at(host) as u64 }),
            self.now_at(host) > u64::MAX ==> r.is_none(),
    {
        match self.unfrozen {
            Some(t0) => self.base.checked_add(host.saturating_duration_since(t0)),
            None => Some(self.base),
        }
    }

    /// Freezes a running clock at what it shows now.
    pub fn pause(&mut self, host: Instant)
        requires
            !old(self).is_paused(),
            old(self).now_at(host) <= u64::MAX,
        ensures
            final(self).is_paused(),
            final(self).base@ == old(self).now_at(host),
            final(self).now_at(host) == old(self).now_at(host),
    {
        let now = self.now(host);
        self.base = now;
        self.unfrozen = None;
    }

    /// Lets a paused clock run again from what it shows, starting at the host reading `host`.
    pub fn resume(&mut self, host: Instant)
        requires
            old(self).is_paused(),
        ensures
            !final(self).is_paused(),
            final(self).base == old(self).base,
            final(self).unfrozen == Some(host),
            final(self).now_at(host) == old(self).now_at(host),
    {
        self.unfrozen = Some(host);
    }

    /// Moves a paused clock forward by `duration`.
    pub fn advance(&mut self, duration: Duration)
        requires
            old(self).is_paused(),
            old(self).base@ + duration@ <= u64::MAX,
        ensures
            final(self).is_paused(),
            final(self).base@ == old(self).base@ + duration@,
            forall|host: Instant| #[trigger] final(self).now_at(host) == old(self).now_at(host) + duration@,
    {
        self.base = self.base.add(duration);
    }
}

/// What a clock shows never goes back while the host clock goes forward.
pub proof fn lemma_now_monotone(clock: Clock, h1: Instant, h2: Instant)
    requires
        h1@ <= h2@,
    ensures
        clock.now_at(h1) <= clock.now_at(h2),
{
}

/// A paused clock shows the same time whatever the host clock reads.
pub proof fn lemma_paused_now_constant(clock: Clock, h1: Instant, h2: Instant)
    requires
        clock.is_paused(),
    ensures
        clock.now_at(h1) == clock.now_at(h2),
{
}

} // verus!
