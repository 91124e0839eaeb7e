use vstd::prelude::*;

verus! {

pub const NANOS_PER_MICRO: u64 = 1_000;

pub const NANOS_PER_MILLI: u64 = 1_000_000;

pub const NANOS_PER_SEC: u64 = 1_000_000_000;

pub const MILLIS_PER_SEC: i64 = 1_000;

/// A non-negative span of time, counted in nanoseconds.
#[derive(Clone, Copy, Debug, PartialEq, Eq, Structural, PartialOrd, Ord, Hash)]
pub struct Duration {
    pub nanos: u64,
}

impl Duration {
    pub open spec fn view(self) -> int {
        self.nanos as int
    }

    pub fn from_nanos(nanos: u64) -> (r: Duration)
        ensures
            r@ == nanos,
    {
        Duration { nanos }
    }

    pub fn from_micros(micros: u64) -> (r: Duration)
        requires
            micros * NANOS_PER_MICRO <= u64::MAX,
        ensures
            r@ == micros * NANOS_PER_MICRO,
    {
        Duration { nanos: micros * NANOS_PER_MICRO }
    }

    pub fn from_millis(millis: u64) -> (r: Duration)
        requires
            millis * NANOS_PER_MILLI <= u64::MAX,
        ensures
            r@ == millis * NANOS_PER_MILLI,
    {
        Duration { nanos: millis * NANOS_PER_MILLI }
    }

    pub fn from_secs(secs: u64) -> (r: Duration)
        requires
            secs * NANOS_PER_SEC <= u64::MAX,
        ensures
            r@ == secs * NANOS_PER_SEC,
    {
        Duration { nanos: secs * NANOS_PER_SEC }
    }

    pub fn as_nanos(&self) -> (r: u64)
        ensures
            r == self@,
    {
        self.nanos
    }

    pub fn as_micros(&self) -> (r: u64)
        ensures
            r == self@ / NANOS_PER_MICRO as int,
    {
        self.nanos / NANOS_PER_MICRO
    }

    /// Whole milliseconds, rounded down.
    pub fn as_millis(&self) -> (r: u64)
        ensures
            r == self@ / NANOS_PER_MILLI as int,
    {
        self.nanos / NANOS_PER_MILLI
    }

    /// Whole milliseconds, rounded up.
    pub fn as_millis_ceil(&self) -> (r: u64)
        ensures
            r == (self@ + NANOS_PER_MILLI - 1) / NANOS_PER_MILLI as int,
    {
        let whole = self.nanos / NANOS_PER_MILLI;
        if self.nanos % NANOS_PER_MILLI == 0 {
            whole
        } else {
            whole + 1
        }
    }

    pub fn as_secs(&self) -> (r: u64)
        ensures
            r == self@ / NANOS_PER_SEC as int,
    {
        self.nanos / NANOS_PER_SEC
    }

    /// The nanoseconds past the last whole second.
    pub fn subsec_nanos(&self) -> (r: u32)
        ensures
            r == self@ % NANOS_PER_SEC as int,
    {
        (self.nanos % NANOS_PER_SEC) as u32
    }

    pub fn is_zero(&self) -> (r: bool)
        ensures
            r == (self@ == 0),
    {
        self.nanos == 0
    }

    pub fn checked_add(&self, other: Duration) -> (r: Option<Duration>)
        ensures
            self@ + other@ <= u64::MAX ==> r == Some(Duration { nanos: (self@ + other@) as u64 }),
            self@ + other@ > u64::MAX ==> r.is_none(),
    {
        match self.nanos.checked_add(other.nanos) {
            Some(n) => Some(Duration { nanos: n }),
            None => None,
        }
    }

    pub fn checked_sub(&self, other: Duration) -> (r: Option<Duration>)
        ensures
            self@ >= other@ ==> r == Some(Duration { nanos: (self@ - other@) as u64 }),
            self@ < other@ ==> r.is_none(),
    {
        if self.nanos >= other.nanos {
            Some(Duration { nanos: self.nanos - other.nanos })
        } else {
            None
        }
    }

    pub fn saturating_sub(&self, other: Duration) -> (r: Duration)
        ensures
            r@ == if self@ >= other@ { self@ - other@ } else { 0 },
    {
        if self.nanos >= other.nanos {
            Duration { nanos: self.nanos - other.nanos }
        } else {
            Duration { nanos: 0 }
        }
    }
}

/// A point on the monotonic clock: nanoseconds since an arbitrary epoch.
#[derive(Clone, Copy, Debug, PartialEq, Eq, Structural, PartialOrd, Ord, Hash)]
pub struct Instant {
    pub nanos: u64,
}

impl Instant {
    pub open spec fn view(self) -> int {
        self.nanos as int
    }

    /// The instant that lies `since_epoch` after the clock's epoch.
    pub fn from_epoch(since_epoch: Duration) -> (r: Instant)
        ensures
            r@ == since_epoch@,
    {
        Instant { nanos: since_epoch.nanos }
    }

    /// The instant of a host reading given in whole microseconds.
    pub fn from_host_micros(micros: u64) -> (r: Instant)
        requires
            micros * NANOS_PER_MICRO <= u64::MAX,
        ensures
            r@ == micros * NANOS_PER_MICRO,
    {
        Instant { nanos: micros * NANOS_PER_MICRO }
    }

    /// Time from the epoch to this instant.
    pub fn since_epoch(&self) -> (r: Duration)
        ensures
            r@ == self@,
    {
        Duration { nanos: self.nanos }
    }

    pub fn checked_duration_since(&self, earlier: Instant) -> (r: Option<Duration>)
        ensures
            self@ >= earlier@ ==> r == Some(Duration { nanos: (self@ - earlier@) as u64 }),
            self@ < earlier@ ==> r.is_none(),
    {
        if self.nanos >= earlier.nanos {
            Some(Duration { nanos: self.nanos - earlier.nanos })
        } else {
            None
        }
    }

    /// Time from `earlier` to `self`, or zero where `earlier` is later.
    pub fn saturating_duration_since(&self, earlier: Instant) -> (r: Duration)
        ensures
            r@ == if self@ >= earlier@ { self@ - earlier@ } else { 0 },
    {
        match self.checked_duration_since(earlier) {
            Some(d) => d,
            None => Duration { nanos: 0 },
        }
    }

    /// Same as `saturating_duration_since`: the difference never goes below zero.
    pub fn duration_since(&self, earlier: Instant) -> (r: Duration)
        ensures
            r@ == if self@ >= earlier@ { self@ - earlier@ } else { 0 },
    {
        self.saturating_duration_since(earlier)
    }

    pub fn checked_add(&self, duration: Duration) -> (r: Option<Instant>)
        ensures
            self@ + duration@ <= u64::MAX ==> r == Some(Instant { nanos: (self@ + duration@) as u64 }),
            self@ + duration@ > u64::MAX ==> r.is_none(),
    {
        match self.nanos.checked_add(duration.nanos) {
            Some(n) => Some(Instant { nanos: n }),
            None => None,
        }
    }

    pub fn checked_sub(&self, duration: Duration) -> (r: Option<Instant>)
        ensures
            self@ >= duration@ ==> r == Some(Instant { nanos: (self@ - duration@) as u64 }),
            self@ < duration@ ==> r.is_none(),
    {
        if self.nanos >= duration.nanos {
            Some(Instant { nanos: self.nanos - duration.nanos })
        } else {
            None
        }
    }

    /// `self + duration`; the sum must be representable.
    pub fn add(&self, duration: Duration) -> (r: Instant)
        requires
            self@ + duration@ <= u64::MAX,
        ensures
            r@ == self@ + duration@,
    {
        Instant { nanos: self.nanos + duration.nanos }
    }

    /// `self - duration`; the difference must not fall before the epoch.
    pub fn sub(&self, duration: Duration) -> (r: Instant)
        requires
            self@ >= duration@,
        ensures
            r@ == self@ - duration@,
    {
        Instant { nanos: self.nanos - duration.nanos }
    }

    pub fn is_before(&self, other: Instant) -> (r: bool)
        ensures
            r == (self@ < other@),
    {
        self.nanos < other.nanos
    }
}

/// Why `SystemTime::duration_since` failed: how far the second time lies after the first.
#[derive(Clone, Copy, Debug, PartialEq, Eq, Structural)]
pub struct SystemTimeError {
    pub gap: Duration,
}

impl SystemTimeError {
    pub fn duration(&self) -> (r: Duration)
        ensures
            r == self.gap,
    {
        self.gap
    }

    pub fn message(&self) -> (r: &'static str)
        ensures
            r@ == "second time provided was later than self"@,
    {
        proof {
            reveal_strlit("second time provided was later than self");
        }
        "second time provided was later than self"
    }
}

/// A wall-clock time, in whole milliseconds relative to the Unix epoch.
#[derive(Clone, Copy, Debug, PartialEq, Eq, Structural, PartialOrd, Ord, Hash)]
pub struct SystemTime {
    pub millis: i64,
}

/// The largest count of milliseconds that a `Duration` can carry.
pub const MAX_DURATION_MILLIS: i64 = 18_446_744_073_709;

impl SystemTime {
    pub open spec fn view(self) -> int {
        self.millis as int
    }

    /// The Unix epoch itself.
    pub fn unix_epoch() -> (r: SystemTime)
        ensures
            r@ == 0,
    {
        SystemTime { millis: 0 }
    }

    pub fn from_epoch_millis(millis: i64) -> (r: SystemTime)
        ensures
            r@ == millis,
    {
        SystemTime { millis }
    }

    /// How long after `earlier` this time lies, in whole milliseconds; an error holding
    /// the gap where `earlier` is the later one.
    pub open spec fn duration_since_spec(self, earlier: SystemTime) -> Result<Duration, SystemTimeError> {
        if self@ >= earlier@ {
            Ok(Duration { nanos: ((self@ - earlier@) * NANOS_PER_MILLI) as u64 })
        } else {
            Err(SystemTimeError { gap: Duration { nanos: ((earlier@ - self@) * NANOS_PER_MILLI) as u64 } })
        }
    }

    pub fn duration_since(&self, earlier: SystemTime) -> (r: Result<Duration, SystemTimeError>)
        requires
            -MAX_DURATION_MILLIS <= self@ - earlier@ <= MAX_DURATION_MILLIS,
        ensures
            r == self.duration_since_spec(earlier),
    {
        let diff: i128 = self.millis as i128 - earlier.millis as i128;
        if diff < 0 {
            let gap = (-diff) as u64;
            Err(SystemTimeError { gap: Duration::from_millis(gap) })
        } else {
            Ok(Duration::from_millis(diff as u64))
        }
    }

    /// How long ago this time was, seen from the wall-clock reading `now`; an error
    /// holding the gap where this time lies after `now`.
    pub fn elapsed(&self, now: SystemTime) -> (r: Result<Duration, SystemTimeError>)
        requires
            -MAX_DURATION_MILLIS <= now@ - self@ <= MAX_DURATION_MILLIS,
        ensures
            r == now.duration_since_spec(*self),
    {
        now.duration_since(*self)
    }

    /// `self + duration`, counted in whole milliseconds of the duration, or `None`
    /// where it leaves the range.
    pub fn checked_add(&self, duration: Duration) -> (r: Option<SystemTime>)
        ensures
            self@ + duration@ / NANOS_PER_MILLI as int <= i64::MAX ==> r == Some(
                SystemTime { millis: (self@ + duration@ / NANOS_PER_MILLI as int) as i64 },
            ),
            self@ + duration@ / NANOS_PER_MILLI as int > i64::MAX ==> r.is_none(),
    {
        let ms = duration.as_millis();
        let sum: i128 = self.millis as i128 + ms as i128;
        if sum <= i64::MAX as i128 {
            Some(SystemTime { millis: sum as i64 })
        } else {
            None
        }
    }

    /// `self - duration`, counted in whole milliseconds of the duration, or `None`
    /// where it leaves the range.
    pub fn checked_sub(&self, duration: Duration) -> (r: Option<SystemTime>)
        ensures
            self@ - duration@ / NANOS_PER_MILLI as int >= i64::MIN ==> r == Some(
                SystemTime { millis: (self@ - duration@ / NANOS_PER_MILLI as int) as i64 },
            ),
            self@ - duration@ / (NANOS_PER_MILLI as int) < i64::MIN ==> r.is_none(),
    {
        let ms = duration.as_millis();
        let diff: i128 = self.millis as i128 - ms as i128;
        if diff >= i64::MIN as i128 {
            Some(SystemTime { millis: diff as i64 })
        } else {
            None
        }
    }

    /// The serialised form: whole seconds and the nanoseconds past them since the Unix
    /// epoch, or `None` for a time before the epoch.
    pub fn to_epoch_parts(&self) -> (r: Option<(u64, u32)>)
        ensures
            self@ >= 0 ==> r == Some(
                ((self@ / 1000) as u64, ((self@ % 1000) * 1_000_000) as u32),
            ),
            self@ < 0 ==> r.is_none(),
    {
        if self.millis < 0 {
            None
        } else {
            let secs = (self.millis / MILLIS_PER_SEC) as u64;
            let sub = (self.millis % MILLIS_PER_SEC) as u32;
            Some((secs, sub * 1_000_000))
        }
    }

    /// The time of a serialised form, to the millisecond, or `None` where it does not fit.
    pub fn from_epoch_parts(secs: u64, nanos: u32) -> (r: Option<SystemTime>)
        ensures
            (secs as int) * 1000 + (nanos as int) / 1_000_000 <= i64::MAX ==> r == Some(
                SystemTime { millis: ((secs as int) * 1000 + (nanos as int) / 1_000_000) as i64 },
            ),
            (secs as int) * 1000 + (nanos as int) / 1_000_000 > i64::MAX ==> r.is_none(),
    {
        let total: u128 = secs as u128 * 1_000 + (nanos as u128) / 1_000_000;
        if total <= i64::MAX as u128 {
            Some(SystemTime { millis: total as i64 })
        } else {
            None
        }
    }
}

} // verus!
