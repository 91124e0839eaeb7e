use vstd::prelude::*;

use crate::driver::{Sleep, Timer};
use crate::storage::SlabStorage;
use crate::store::SlotData;
use crate::time::{Duration, Instant, NANOS_PER_MILLI};
use crate::wheel::{InsertError, Wheel, MAX_DURATION, WHEEL_TIME_LIMIT};
use crate::Poll;
use vstd::multiset::Multiset;

verus! {

/// The most entries a queue holds.
pub const MAX_ENTRIES: usize = 1_073_741_823;

/// The name of an entry in a queue, handed out by `insert`.
#[derive(Clone, Copy, Debug, PartialEq, Eq, Structural, Hash)]
pub struct Key {
    pub index: usize,
}

impl Key {
    pub fn new(index: usize) -> (r: Key)
        ensures
            r.index == index,
    {
        Key { index }
    }
}

/// An entry that has left the queue: its value, its deadline and its key.
#[derive(Debug)]
pub struct Expired<T> {
    data: T,
    deadline: Instant,
    key: Key,
}

impl<T> Expired<T> {
    pub closed spec fn data_spec(&self) -> T {
        self.data
    }

    pub closed spec fn deadline_spec(&self) -> Instant {
        self.deadline
    }

    pub closed spec fn key_spec(&self) -> Key {
        self.key
    }

    pub fn get_ref(&self) -> (r: &T)
        ensures
            *r == self.data_spec(),
    {
        &self.data
    }

    pub fn get_mut(&mut self) -> (r: &mut T)
        ensures
            *r == old(self).data_spec(),
            final(self).data_spec() == *final(r),
            final(self).key_spec() == old(self).key_spec(),
            final(self).deadline_spec() == old(self).deadline_spec(),
    {
        &mut self.data
    }

    pub fn into_inner(self) -> (r: T)
        ensures
            r == self.data_spec(),
    {
        self.data
    }

    pub fn deadline(&self) -> (r: Instant)
        ensures
            r == self.deadline_spec(),
    {
        self.deadline
    }

    pub fn key(&self) -> (r: Key)
        ensures
            r == self.key_spec(),
    {
        self.key
    }
}

/// The instant `ms` milliseconds after `start`, or the last representable instant where
/// that lies beyond it.
pub open spec fn instant_at_spec(start: Instant, ms: u64) -> int {
    if start@ + ms * NANOS_PER_MILLI <= u64::MAX {
        start@ + ms * NANOS_PER_MILLI
    } else {
        u64::MAX as int
    }
}

pub fn instant_at(start: Instant, ms: u64) -> (r: Instant)
    ensures
        r@ == instant_at_spec(start, ms),
{
    let nanos: u128 = start.nanos as u128 + ms as u128 * NANOS_PER_MILLI as u128;
    if nanos <= u64::MAX as u128 {
        Instant { nanos: nanos as u64 }
    } else {
        Instant { nanos: u64::MAX }
    }
}

/// A later millisecond is never an earlier instant.
pub proof fn lemma_instant_at_monotone(start: Instant, a: u64, b: u64)
    requires
        a <= b,
    ensures
        instant_at_spec(start, a) <= instant_at_spec(start, b),
{
    assert(a * NANOS_PER_MILLI <= b * NANOS_PER_MILLI) by (nonlinear_arith)
        requires
            a <= b,
    ;
}

/// A deadline counted in milliseconds from `start` stays within the wheel's reach.
proof fn lemma_ms_after_bound(start: Instant, when: Instant)
    ensures
        ms_after(start, when) <= WHEEL_TIME_LIMIT,
{
    if when@ >= start@ {
        let a = when@ - start@ + NANOS_PER_MILLI - 1;
        assert(a / (NANOS_PER_MILLI as int) <= WHEEL_TIME_LIMIT) by (nonlinear_arith)
            requires
                0 <= a <= 18_446_744_073_710_551_615 + 1_000_000,
        ;
    }
}

/// The millisecond, counted from `start` and rounded up, at which a deadline `when`
/// falls; zero for a deadline before `start`.
pub open spec fn ms_after(start: Instant, when: Instant) -> int {
    if when@ < start@ {
        0
    } else {
        (when@ - start@ + NANOS_PER_MILLI - 1) / NANOS_PER_MILLI as int
    }
}

/// `new` is the queue `old` after a poll that gave `r`: an entry handed out was in the
/// queue, is due by the queue's time, and has left it; `Ready(None)` comes only from an
/// empty queue; `Pending` changes nothing.
pub open spec fn polled<T>(old: DelayQueue<T>, r: Poll<Option<Expired<T>>>, new: DelayQueue<T>) -> bool {
    match r {
        Poll::Ready(Some(e)) => {
            &&& old.view().contains_key(e.key_spec().index)
            &&& e.data_spec() == old.view()[e.key_spec().index].0
            &&& e.deadline_spec()@ == instant_at_spec(old.start_spec(), old.view()[e.key_spec().index].1)
            &&& old.view()[e.key_spec().index].1 <= new.queue_time()
            &&& new.view() == old.view().remove(e.key_spec().index)
        },
        Poll::Ready(None) => old.view().dom().is_empty() && new.view() == old.view(),
        Poll::Pending => new.view() == old.view(),
    }
}

/// The keys `exp` are in order of their deadlines in `slots`.
pub open spec fn sorted_by_due(exp: Seq<usize>, slots: Map<usize, SlotData>) -> bool {
    forall|i: int, j: int| 0 <= i < j < exp.len() ==> slots[#[trigger] exp[i]].0 <= slots[#[trigger] exp[j]].0
}

proof fn lemma_sorted_remove(exp: Seq<usize>, i: int, s1: Map<usize, SlotData>, s2: Map<usize, SlotData>)
    requires
        0 <= i < exp.len(),
        sorted_by_due(exp, s1),
        forall|j: int| 0 <= j < exp.len() && j != i ==> s2[#[trigger] exp[j]] == s1[exp[j]],
    ensures
        sorted_by_due(exp.remove(i), s2),
{
    let r = exp.remove(i);
    assert forall|a: int, b: int| 0 <= a < b < r.len() implies s2[#[trigger] r[a]].0 <= s2[#[trigger] r[b]].0 by {
        let a0 = if a < i { a } else { a + 1 };
        let b0 = if b < i { b } else { b + 1 };
        assert(r[a] == exp[a0] && r[b] == exp[b0]);
    }
}

proof fn lemma_sorted_frame(exp: Seq<usize>, s1: Map<usize, SlotData>, s2: Map<usize, SlotData>)
    requires
        sorted_by_due(exp, s1),
        forall|j: int| 0 <= j < exp.len() ==> s2[#[trigger] exp[j]] == s1[exp[j]],
    ensures
        sorted_by_due(exp, s2),
{
    assert forall|a: int, b: int| 0 <= a < b < exp.len() implies s2[#[trigger] exp[a]].0 <= s2[#[trigger] exp[b]].0 by {
        assert(s2[exp[a]] == s1[exp[a]]);
        assert(s2[exp[b]] == s1[exp[b]]);
    }
}

/// Taking `key` out of the list (if it was there), with the deadlines of every other key
/// kept, keeps the list in order.
proof fn lemma_sorted_after_removal(
    e1: Seq<usize>,
    s1: Map<usize, SlotData>,
    e2: Seq<usize>,
    s2: Map<usize, SlotData>,
    key: usize,
)
    requires
        sorted_by_due(e1, s1),
        e1.no_duplicates(),
        !e2.contains(key),
        forall|j: int| 0 <= j < e1.len() ==> s1.contains_key(#[trigger] e1[j]),
        forall|m: usize| m != key && #[trigger] s1.contains_key(m) ==> s2.contains_key(m) && s2[m] == s1[m],
        e2 == e1 || exists|i: int| 0 <= i < e1.len() && e1[i] == key && e2 == e1.remove(i),
    ensures
        sorted_by_due(e2, s2),
{
    if e2 == e1 {
        assert forall|j: int| 0 <= j < e1.len() implies s2[#[trigger] e1[j]] == s1[e1[j]] by {
            assert(e2[j] == e1[j]);
            assert(e1[j] != key);
        }
        lemma_sorted_frame(e1, s1, s2);
    } else {
        let i = choose|i: int| 0 <= i < e1.len() && e1[i] == key && e2 == e1.remove(i);
        assert forall|j: int| 0 <= j < e1.len() && j != i implies s2[#[trigger] e1[j]] == s1[e1[j]] by {
            assert(e1[j] != e1[i]);
        }
        lemma_sorted_remove(e1, i, s1, s2);
    }
}

/// Putting `key` in place, maybe at the end of the list with a deadline no earlier than
/// any in it, with the deadlines of every other key kept, keeps the list in order.
proof fn lemma_sorted_after_place(
    e1: Seq<usize>,
    s1: Map<usize, SlotData>,
    e2: Seq<usize>,
    s2: Map<usize, SlotData>,
    key: usize,
)
    requires
        sorted_by_due(e1, s1),
        !e1.contains(key),
        forall|j: int| 0 <= j < e1.len() ==> s1.contains_key(#[trigger] e1[j]),
        forall|m: usize| m != key && #[trigger] s1.contains_key(m) ==> s2.contains_key(m) && s2[m] == s1[m],
        e2 == e1 || (e2 == e1.push(key) && forall|j: int| 0 <= j < e1.len() ==> s1[#[trigger] e1[j]].0 <= s2[key].0),
    ensures
        sorted_by_due(e2, s2),
{
    assert forall|j: int| 0 <= j < e1.len() implies s2[#[trigger] e1[j]] == s1[e1[j]] by {
        assert(e1[j] != key);
    }
    lemma_sorted_frame(e1, s1, s2);
    if e2 != e1 {
        lemma_sorted_push(e1, key, s1, s2);
    }
}

proof fn lemma_sorted_push(exp: Seq<usize>, k: usize, s1: Map<usize, SlotData>, s2: Map<usize, SlotData>)
    requires
        sorted_by_due(exp, s1),
        forall|j: int| 0 <= j < exp.len() ==> s2[#[trigger] exp[j]] == s1[exp[j]],
        forall|j: int| 0 <= j < exp.len() ==> s1[#[trigger] exp[j]].0 <= s2[k].0,
    ensures
        sorted_by_due(exp.push(k), s2),
{
    let r = exp.push(k);
    assert forall|a: int, b: int| 0 <= a < b < r.len() implies s2[#[trigger] r[a]].0 <= s2[#[trigger] r[b]].0 by {
        assert(r[a] == exp[a]);
        if b < exp.len() {
            assert(r[b] == exp[b]);
        }
    }
}

/// Every entry of `q` is due after the time `now`.
pub open spec fn nothing_due<T>(q: DelayQueue<T>, now: int) -> bool {
    forall|k: usize| #[trigger] q.view().contains_key(k) ==> instant_at_spec(q.start_spec(), q.view()[k].1) > now
}

/// Once a paused clock has reached the deadline that an entry was reset to, a poll of the
/// queue is no longer pending.
pub proof fn law_reset_entry_due_is_not_pending<T>(
    q0: DelayQueue<T>,
    key: Key,
    due: u64,
    q1: DelayQueue<T>,
    r: Poll<Option<Expired<T>>>,
    now: int,
)
    requires
        q0.view().contains_key(key.index),
        q1.view() == q0.view().insert(key.index, (q0.view()[key.index].0, due)),
        q1.start_spec() == q0.start_spec(),
        instant_at_spec(q1.start_spec(), due) <= now,
        r is Pending ==> nothing_due(q1, now),
    ensures
        !(r is Pending),
{
    if r is Pending {
        assert(q1.view().contains_key(key.index));
    }
}

/// An entry removed from a queue is never handed out by a later poll.
pub proof fn law_removed_never_polled<T>(
    q0: DelayQueue<T>,
    key: Key,
    q1: DelayQueue<T>,
    r: Poll<Option<Expired<T>>>,
    q2: DelayQueue<T>,
)
    requires
        q1.view() == q0.view().remove(key.index),
        polled(q1, r, q2),
    ensures
        r matches Poll::Ready(Some(e)) ==> e.key_spec().index != key.index,
        !q2.view().contains_key(key.index),
{
}

/// After an entry has been reset to a deadline, a poll hands it out only with that
/// deadline, and only once the queue's time has reached it.
pub proof fn law_reset_moves_deadline<T>(
    q0: DelayQueue<T>,
    key: Key,
    due: u64,
    q1: DelayQueue<T>,
    r: Poll<Option<Expired<T>>>,
    q2: DelayQueue<T>,
)
    requires
        q0.view().contains_key(key.index),
        q1.view() == q0.view().insert(key.index, (q0.view()[key.index].0, due)),
        q1.start_spec() == q0.start_spec(),
        polled(q1, r, q2),
    ensures
        r matches Poll::Ready(Some(e)) ==> (e.key_spec().index == key.index ==> e.deadline_spec()@
            == instant_at_spec(q0.start_spec(), due) && due <= q2.queue_time()),
{
}

/// A queue of values, each handed back once its deadline has passed.
#[derive(Debug)]
pub struct DelayQueue<T> {
    slab: SlabStorage<T>,
    wheel: Wheel,
    expired: Vec<usize>,
    delay: Option<Sleep>,
    delay_at: u64,
    wheel_now: u64,
    start: Instant,
}

impl<T> DelayQueue<T> {
    pub closed spec fn slots(&self) -> Map<usize, SlotData> {
        self.slab.data()
    }

    /// The entries, by key index: each value and the millisecond, counted from the
    /// queue's start, at which it is due.
    pub closed spec fn view(&self) -> Map<usize, (T, u64)> {
        Map::new(
            |k: usize| self.slots().contains_key(k),
            |k: usize| (self.slab.value(k), self.slots()[k].0),
        )
    }

    /// The slab indices that hold the queue's entries.
    pub closed spec fn slab_indices(&self) -> Set<usize> {
        self.slab.slab_map().dom()
    }

    pub closed spec fn start_spec(&self) -> Instant {
        self.start
    }

    pub closed spec fn wheel_elapsed(&self) -> u64 {
        self.wheel.elapsed_spec()
    }

    /// How far the queue's own time has got, in milliseconds from its start.
    pub closed spec fn queue_time(&self) -> u64 {
        if self.wheel.elapsed_spec() >= self.wheel_now {
            self.wheel.elapsed_spec()
        } else {
            self.wheel_now
        }
    }

    /// The queue's start, its wheel's time and the time it last polled the wheel at.
    pub closed spec fn clock_marks(&self) -> (Instant, u64, u64) {
        (self.start, self.wheel.elapsed_spec(), self.wheel_now)
    }

    /// The queue's own time has not run ahead of the driver's clock.
    pub open spec fn synced(&self, timer: &Timer) -> bool {
        let (start, elapsed, polled_at) = self.clock_marks();
        &&& start@ <= timer.now_spec()
        &&& instant_at_spec(start, elapsed) <= timer.now_spec()
        &&& instant_at_spec(start, polled_at) <= timer.now_spec()
    }

    pub closed spec fn delay_spec(&self) -> Option<Sleep> {
        self.delay
    }

    /// The millisecond at which an entry with deadline `when` is due: never before the
    /// queue's time.
    pub open spec fn normalized(&self, when: Instant) -> u64 {
        let ms = ms_after(self.start_spec(), when);
        if ms >= self.wheel_elapsed() {
            ms as u64
        } else {
            self.wheel_elapsed()
        }
    }

    /// What holds of the key index `k`: it sits in the wheel once,
    /// at its deadline, unless it went to the past-due list, which then holds it and whose
    /// entries are not due after the wheel's time.
    pub closed spec fn key_ok(&self, k: usize) -> bool {
        &&& forall|w: u64| #[trigger] self.wheel.entries().count((k, w)) == if self.slots().contains_key(k)
            && !self.slots()[k].1 && self.slots()[k].0 == w {
            1nat
        } else {
            0nat
        }
        &&& self.expired@.contains(k) <==> self.slots().contains_key(k) && self.slots()[k].1
        &&& self.slots().contains_key(k) && self.slots()[k].1 ==> self.slots()[k].0 <= self.wheel.elapsed_spec()
    }

    pub closed spec fn base_ok(&self) -> bool {
        &&& self.slab.wf()
        &&& self.wheel.wf()
        &&& self.wheel_now <= WHEEL_TIME_LIMIT
        &&& self.expired@.no_duplicates()
    }

    pub closed spec fn wf(&self) -> bool {
        &&& self.base_ok()
        &&& forall|k: usize| #[trigger] self.key_ok(k)
    }

    /// Every entry is due within the wheel's reach, and every entry in the wheel is due no
    /// earlier than the queue's sleep, which is set for the millisecond `delay_at`.
    pub closed spec fn timed(&self) -> bool {
        &&& self.delay.is_some() ==> self.delay_at <= WHEEL_TIME_LIMIT && self.delay.unwrap().deadline_spec()@
            == instant_at_spec(self.start, self.delay_at)
        &&& forall|k: usize| #[trigger] self.slots().contains_key(k) ==> self.slots()[k].0 <= WHEEL_TIME_LIMIT && (
        !self.slots()[k].1 ==> self.delay.is_some() && self.delay_at <= self.slots()[k].0)
        &&& sorted_by_due(self.expired@, self.slots())
    }

    /// Only finitely many keys have an entry.
    pub proof fn lemma_view_finite(&self)
        requires
            self.wf(),
        ensures
            self.view().dom().finite(),
    {
        self.slab.lemma_data_finite();
        assert(self.view().dom() =~= self.slots().dom());
    }

    /// The keys on the past-due list have entries, went there past due, and are not due
    /// after the wheel's time.
    proof fn lemma_expired_entries(&self)
        requires
            self.wf(),
        ensures
            forall|j: int| 0 <= j < self.expired@.len() ==> self.slots().contains_key(#[trigger] self.expired@[j])
                && self.slots()[self.expired@[j]].1 && self.slots()[self.expired@[j]].0 <= self.wheel.elapsed_spec(),
    {
        assert forall|j: int| 0 <= j < self.expired@.len() implies self.slots().contains_key(#[trigger] self.expired@[j])
            && self.slots()[self.expired@[j]].1 && self.slots()[self.expired@[j]].0 <= self.wheel.elapsed_spec() by {
            let k = self.expired@[j];
            assert(self.expired@.contains(k));
            assert(self.key_ok(k));
        }
    }

    /// The queue's sleep, if it has one, is registered with `timer`.
    pub open spec fn bound_to(&self, timer: &Timer) -> bool {
        self.delay_spec().is_some() ==> self.delay_spec().unwrap().valid(timer)
    }

    /// An empty queue whose time starts now.
    pub fn new(timer: &Timer) -> (r: DelayQueue<T>)
        requires
            timer.wf(),
        ensures
            r.wf(),
            r.timed(),
            r.wheel_elapsed() == 0,
            r.synced(timer),
            r.bound_to(timer),
            r.view() =~= Map::<usize, (T, u64)>::empty(),
            r.start_spec()@ == timer.now_spec(),
    {
        DelayQueue::with_capacity(timer, 0)
    }

    /// An empty queue whose time starts now, with room made for `capacity` entries.
    pub fn with_capacity(timer: &Timer, capacity: usize) -> (r: DelayQueue<T>)
        requires
            timer.wf(),
        ensures
            r.wf(),
            r.timed(),
            r.wheel_elapsed() == 0,
            r.synced(timer),
            r.bound_to(timer),
            r.view() =~= Map::<usize, (T, u64)>::empty(),
            r.start_spec()@ == timer.now_spec(),
    {
        let r = DelayQueue {
            slab: SlabStorage::with_capacity(capacity),
            wheel: Wheel::new(),
            expired: Vec::new(),
            delay: None,
            delay_at: 0,
            wheel_now: 0,
            start: timer.now(),
        };
        proof {
            assert(r.slots().dom() =~= Set::<usize>::empty());
            assert forall|k: usize| #[trigger] r.key_ok(k) by {
                assert forall|w: u64| #[trigger] r.wheel.entries().count((k, w)) == 0 by {}
                assert(!r.expired@.contains(k));
            }
        }
        r
    }

    /// The number of entries.
    pub fn len(&self) -> (r: usize)
        requires
            self.wf(),
        ensures
            r == self.view().len(),
    {
        proof {
            assert(self.view().dom() =~= self.slots().dom());
        }
        self.slab.len()
    }

    /// The millisecond at which an entry with deadline `when` is due.
    fn normalize_deadline(&self, when: Instant) -> (r: u64)
        ensures
            r == self.normalized(when),
    {
        let ms = if when.is_before(self.start) {
            0
        } else {
            when.duration_since(self.start).as_millis_ceil()
        };
        let elapsed = self.wheel.elapsed();
        if ms >= elapsed {
            ms
        } else {
            elapsed
        }
    }

    /// Puts the key index `key`, just stored in the slab with deadline `due`, in the
    /// wheel, or at the back of the past-due list where the wheel's time has reached `due`.
    fn place(&mut self, due: u64, key: usize)
        requires
            old(self).base_ok(),
            forall|k: usize| k != key ==> #[trigger] old(self).key_ok(k),
            old(self).slots().contains_key(key),
            old(self).slots()[key] == (due, false),
            forall|w: u64| #[trigger] old(self).wheel.entries().count((key, w)) == 0,
            !old(self).expired@.contains(key),
            due >= old(self).wheel.elapsed_spec(),
            due - old(self).wheel.elapsed_spec() <= MAX_DURATION,
        ensures
            final(self).wf(),
            final(self).view() == old(self).view(),
            final(self).slots().remove(key) == old(self).slots().remove(key),
            final(self).slots().contains_key(key) && final(self).slots()[key].0 == due,
            final(self).expired@ == old(self).expired@ || (final(self).expired@ == old(self).expired@.push(key) && due
                == old(self).wheel.elapsed_spec()),
            final(self).wheel.elapsed_spec() == old(self).wheel.elapsed_spec(),
            final(self).delay == old(self).delay,
            final(self).delay_at == old(self).delay_at,
            final(self).start == old(self).start,
            final(self).wheel_now == old(self).wheel_now,
    {
        let ghost entries0 = self.wheel.entries();
        match self.wheel.insert(due, key) {
            Ok(()) => {
                proof {
                    assert forall|k: usize| #[trigger] self.key_ok(k) by {
                        if k != key {
                            assert(old(self).key_ok(k));
                            assert forall|w: u64| #[trigger] self.wheel.entries().count((k, w)) == entries0.count((k, w)) by {}
                        } else {
                            assert forall|w: u64| #[trigger] self.wheel.entries().count((k, w)) == if w == due { 1nat } else { 0nat } by {}
                        }
                    }
                }
            },
            Err(_) => {
                let ghost pre_set = *self;
                self.slab.set(key, (due, true));
                self.expired.push(key);
                proof {
                    assert(due == self.wheel.elapsed_spec());
                    assert(self.expired@.no_duplicates()) by {
                        assert forall|i: int, j: int| 0 <= i < j < self.expired@.len() implies self.expired@[i] != self.expired@[j] by {
                            if j == self.expired@.len() - 1 {
                                assert(old(self).expired@.contains(self.expired@[i]) ==> self.expired@[i] != key);
                                assert(self.expired@[i] == old(self).expired@[i]);
                            }
                        }
                    }
                    assert forall|k: usize| #[trigger] self.key_ok(k) by {
                        if k != key {
                            assert(old(self).key_ok(k));
                            assert(self.expired@.contains(k) <==> old(self).expired@.contains(k)) by {
                                if old(self).expired@.contains(k) {
                                    let i = choose|i: int| 0 <= i < old(self).expired@.len() && old(self).expired@[i] == k;
                                    assert(self.expired@[i] == k);
                                }
                            }
                        } else {
                            assert(self.expired@[self.expired@.len() - 1] == key);
                        }
                    }
                    assert(self.view() =~= old(self).view());
                }
            },
        }
    }

    /// Puts `value` in the queue, due at `when` (or at the queue's time, where that is later),
    /// and returns its key.
    pub fn insert_at(&mut self, timer: &mut Timer, value: T, when: Instant) -> (r: Key)
        requires
            old(self).wf(),
            old(self).bound_to(old(timer)),
            old(timer).wf(),
            old(timer).timers().len() < usize::MAX,
            old(self).timed(),
            old(self).view().len() < MAX_ENTRIES,
            old(self).normalized(when) - old(self).wheel_elapsed() <= MAX_DURATION,
        ensures
            final(self).wf(),
            final(self).clock_marks() == old(self).clock_marks(),
            final(self).timed(),
            final(self).bound_to(final(timer)),
            final(self).view().dom().finite(),
            final(self).delay_spec().is_some() && final(self).delay_spec().unwrap().deadline_spec()@ <= instant_at_spec(
                final(self).start_spec(),
                old(self).normalized(when),
            ),
            final(timer).timers().len() <= old(timer).timers().len() + 1,
            !old(self).view().contains_key(r.index),
            final(self).view() == old(self).view().insert(r.index, (value, old(self).normalized(when))),
            final(self).start_spec() == old(self).start_spec(),
            final(self).wheel_elapsed() == old(self).wheel_elapsed(),
            final(timer).wf(),
            final(timer).now_spec() == old(timer).now_spec(),
            final(timer).is_paused() == old(timer).is_paused(),
    {
        let when_ms = self.normalize_deadline(when);
        let ghost before = *self;
        proof {
            assert(self.view().dom() =~= self.slots().dom());
        }
        let key = self.slab.insert((when_ms, false), value);
        proof {
            assert(before.key_ok(key));
            assert forall|w: u64| #[trigger] self.wheel.entries().count((key, w)) == 0 by {
                assert(before.wheel.entries().count((key, w)) == 0);
            }
            assert forall|k: usize| k != key implies #[trigger] self.key_ok(k) by {
                assert(before.key_ok(k));
            }
        }
        let ghost mid = *self;
        self.place(when_ms, key);
        proof {
            assert(mid.view().dom() =~= before.view().dom().insert(key));
            assert forall|k: usize| #[trigger] mid.view().contains_key(k) implies mid.view()[k] == before.view().insert(
                key,
                (value, when_ms),
            )[k] by {
                if k != key {
                    assert(before.key_ok(k));
                }
            }
            assert(mid.view() =~= before.view().insert(key, (value, when_ms)));
        }
        proof {
            before.lemma_expired_entries();
            assert(before.key_ok(key));
            assert(!before.expired@.contains(key));
            assert(mid.expired@ == before.expired@);
            assert forall|m: usize| m != key && #[trigger] before.slots().contains_key(m) implies self.slots().contains_key(m)
                && self.slots()[m] == before.slots()[m] by {
                assert(mid.slots().contains_key(m) && mid.slots()[m] == before.slots()[m]);
                assert(mid.slots().remove(key).contains_key(m));
                assert(self.slots().remove(key)[m] == mid.slots().remove(key)[m]);
            }
            if self.expired@ != before.expired@ {
                assert(self.slots()[key].0 == when_ms);
                assert(when_ms == before.wheel.elapsed_spec());
                assert forall|j: int| 0 <= j < before.expired@.len() implies before.slots()[#[trigger] before.expired@[j]].0
                    <= self.slots()[key].0 by {}
            }
            lemma_sorted_after_place(before.expired@, before.slots(), self.expired@, self.slots(), key);
        }
        let ghost placed = *self;
        let should_set_delay = match &self.delay {
            Some(_) => self.delay_at > when_ms,
            None => true,
        };
        if should_set_delay {
            self.arm(timer, when_ms);
        }
        proof {
            lemma_ms_after_bound(self.start, when);
            assert forall|k: usize| #[trigger] self.key_ok(k) by {
                assert(placed.key_ok(k));
            }
            assert(self.view() =~= placed.view());
            assert forall|k: usize| #[trigger] self.slots().contains_key(k) implies self.slots()[k].0 <= WHEEL_TIME_LIMIT && (
            !self.slots()[k].1 ==> self.delay.is_some() && self.delay_at <= self.slots()[k].0) by {
                if k != key {
                    assert(self.slots() == placed.slots());
                    assert(mid.slots() == before.slots().insert(key, (when_ms, false)));
                    assert(placed.slots().remove(key).contains_key(k));
                    assert(placed.slots().remove(key)[k] == mid.slots().remove(key)[k]);
                    assert(self.slots()[k] == before.slots()[k]);
                    assert(before.slots().contains_key(k));
                }
            }
            self.lemma_view_finite();
            lemma_instant_at_monotone(self.start, self.delay_at, when_ms);
        }
        Key { index: key }
    }

    /// Points the queue's sleep at the millisecond `ms`, making one where there is none.
    fn arm(&mut self, timer: &mut Timer, ms: u64)
        requires
            old(self).bound_to(old(timer)),
            old(timer).wf(),
            old(self).delay.is_none() ==> old(timer).timers().len() < usize::MAX,
        ensures
            final(self).delay.is_some(),
            final(self).delay_at == ms,
            final(self).delay.unwrap().deadline_spec()@ == instant_at_spec(final(self).start, ms),
            final(self).bound_to(final(timer)),
            final(timer).wf(),
            final(timer).now_spec() == old(timer).now_spec(),
            final(timer).is_paused() == old(timer).is_paused(),
            final(timer).timers().len() <= old(timer).timers().len() + 1,
            old(self).delay.is_some() ==> final(timer).timers().len() == old(timer).timers().len(),
            final(self).slab == old(self).slab,
            final(self).wheel == old(self).wheel,
            final(self).expired == old(self).expired,
            final(self).wheel_now == old(self).wheel_now,
            final(self).start == old(self).start,
    {
        let at = instant_at(self.start, ms);
        self.delay_at = ms;
        match self.delay.take() {
            Some(mut delay) => {
                delay.reset(timer, at);
                self.delay = Some(delay);
            },
            None => {
                self.delay = Some(crate::driver::sleep_until(timer, at));
            },
        }
    }

    /// Lets go of the queue's sleep, if it has one.
    fn disarm(&mut self, timer: &mut Timer)
        requires
            old(self).bound_to(old(timer)),
            old(timer).wf(),
        ensures
            final(self).delay.is_none(),
            final(self).delay_at == old(self).delay_at,
            final(timer).wf(),
            final(timer).now_spec() == old(timer).now_spec(),
            final(timer).is_paused() == old(timer).is_paused(),
            final(timer).timers().len() == old(timer).timers().len(),
            final(self).slab == old(self).slab,
            final(self).wheel == old(self).wheel,
            final(self).expired == old(self).expired,
            final(self).wheel_now == old(self).wheel_now,
            final(self).start == old(self).start,
    {
        if let Some(delay) = self.delay.take() {
            delay.cancel(timer);
        }
    }

    /// Takes the key index `key` out of the wheel or the past-due list, leaving its slab
    /// entry and value in place.
    fn unplace(&mut self, key: usize)
        requires
            old(self).wf(),
            old(self).slots().contains_key(key),
        ensures
            final(self).base_ok(),
            forall|k: usize| k != key ==> #[trigger] final(self).key_ok(k),
            forall|w: u64| #[trigger] final(self).wheel.entries().count((key, w)) == 0,
            !final(self).expired@.contains(key),
            final(self).expired@ == old(self).expired@ || exists|i: int| 0 <= i < old(self).expired@.len() && old(self).expired@[i] == key
                && final(self).expired@ == old(self).expired@.remove(i),
            final(self).slab == old(self).slab,
            final(self).wheel.elapsed_spec() == old(self).wheel.elapsed_spec(),
            final(self).delay == old(self).delay,
            final(self).delay_at == old(self).delay_at,
            final(self).start == old(self).start,
            final(self).wheel_now == old(self).wheel_now,
    {
        proof {
            assert(old(self).key_ok(key));
        }
        let data = self.slab.get(key);
        if data.1 {
            let mut i: usize = 0;
            while i < self.expired.len() && self.expired[i] != key
                invariant
                    *self == *old(self),
                    i <= self.expired@.len(),
                    self.expired@.contains(key),
                    forall|j: int| 0 <= j < i ==> self.expired@[j] != key,
                decreases self.expired@.len() - i,
            {
                i = i + 1;
            }
            if i == self.expired.len() {
                proof {
                    let j = choose|j: int| 0 <= j < self.expired@.len() && self.expired@[j] == key;
                    assert(false);
                }
                return;
            }
            let ghost e0 = self.expired@;
            self.expired.remove(i);
            proof {
                assert(e0[i as int] == key);
                assert(self.expired@ =~= e0.remove(i as int));
                assert forall|x: usize| #[trigger] self.expired@.contains(x) <==> e0.contains(x) && x != key by {
                    if e0.contains(x) && x != key {
                        let j = choose|j: int| 0 <= j < e0.len() && e0[j] == x;
                        if j < i {
                            assert(self.expired@[j] == x);
                        } else {
                            assert(j != i);
                            assert(self.expired@[j - 1] == x);
                        }
                    }
                    if self.expired@.contains(x) {
                        let j = choose|j: int| 0 <= j < self.expired@.len() && self.expired@[j] == x;
                        if j < i {
                            assert(e0[j] == x);
                        } else {
                            assert(e0[j + 1] == x);
                            assert(j + 1 != i);
                        }
                    }
                }
                assert(self.expired@.no_duplicates()) by {
                    assert forall|a: int, b: int| 0 <= a < b < self.expired@.len() implies self.expired@[a] != self.expired@[b] by {
                        let a0 = if a < i { a } else { a + 1 };
                        let b0 = if b < i { b } else { b + 1 };
                        assert(self.expired@[a] == e0[a0]);
                        assert(self.expired@[b] == e0[b0]);
                    }
                }
                assert forall|k: usize| k != key implies #[trigger] self.key_ok(k) by {
                    assert(old(self).key_ok(k));
                }
            }
        } else {
            let ghost entries0 = self.wheel.entries();
            self.wheel.remove(key, data.0);
            proof {
                assert forall|k: usize| k != key implies #[trigger] self.key_ok(k) by {
                    assert(old(self).key_ok(k));
                    assert forall|w: u64| #[trigger] self.wheel.entries().count((k, w)) == entries0.count((k, w)) by {}
                }
                assert forall|w: u64| #[trigger] self.wheel.entries().count((key, w)) == 0 by {
                    assert(entries0.count((key, w)) == if w == data.0 { 1nat } else { 0nat });
                }
            }
        }
    }

    /// Takes the entry of the key index `key` out of the queue: its value and deadline.
    fn remove_entry(&mut self, key: usize) -> (r: (T, u64))
        requires
            old(self).wf(),
            old(self).slots().contains_key(key),
        ensures
            final(self).wf(),
            r == old(self).view()[key],
            final(self).view() == old(self).view().remove(key),
            final(self).slots() == old(self).slots().remove(key),
            final(self).expired@ == old(self).expired@ || exists|i: int| 0 <= i < old(self).expired@.len() && old(self).expired@[i] == key
                && final(self).expired@ == old(self).expired@.remove(i),
            !final(self).expired@.contains(key),
            final(self).wheel.elapsed_spec() == old(self).wheel.elapsed_spec(),
            final(self).delay == old(self).delay,
            final(self).delay_at == old(self).delay_at,
            final(self).start == old(self).start,
            final(self).wheel_now == old(self).wheel_now,
    {
        proof {
            assert(old(self).key_ok(key));
        }
        self.unplace(key);
        self.finish_removal(key)
    }

    /// Drops the slab entry and value of the key index `key`, which neither the wheel nor
    /// the past-due list holds any more.
    fn finish_removal(&mut self, key: usize) -> (r: (T, u64))
        requires
            old(self).base_ok(),
            forall|k: usize| k != key ==> #[trigger] old(self).key_ok(k),
            forall|w: u64| #[trigger] old(self).wheel.entries().count((key, w)) == 0,
            !old(self).expired@.contains(key),
            old(self).slots().contains_key(key),
        ensures
            final(self).wf(),
            r == old(self).view()[key],
            final(self).view() == old(self).view().remove(key),
            final(self).slots() == old(self).slots().remove(key),
            final(self).wheel == old(self).wheel,
            final(self).expired == old(self).expired,
            final(self).delay == old(self).delay,
            final(self).delay_at == old(self).delay_at,
            final(self).start == old(self).start,
            final(self).wheel_now == old(self).wheel_now,
    {
        let (data, value) = self.slab.remove(key);
        proof {
            assert forall|k: usize| #[trigger] self.key_ok(k) by {
                if k != key {
                    assert(old(self).key_ok(k));
                }
            }
            assert(self.view().dom() =~= old(self).view().dom().remove(key));
            assert forall|k: usize| #[trigger] self.view().contains_key(k) implies self.view()[k] == old(self).view()[k] by {
                assert(old(self).key_ok(k));
            }
            assert(self.view() =~= old(self).view().remove(key));
        }
        (value, data.0)
    }

    /// The millisecond of the queue's next wheel deadline, if the wheel holds anything.
    fn next_deadline(&self) -> (r: Option<u64>)
        requires
            self.wf(),
        ensures
            r.is_none() <==> self.wheel.entries() =~= Multiset::empty(),
    {
        self.wheel.poll_at()
    }

    /// Points the queue's sleep at the wheel's next deadline, or lets it go where the wheel
    /// is empty.
    fn follow_wheel(&mut self, timer: &mut Timer)
        requires
            old(self).wf(),
            old(self).bound_to(old(timer)),
            old(timer).wf(),
            sorted_by_due(old(self).expired@, old(self).slots()),
            old(self).delay.is_none() ==> old(timer).timers().len() < usize::MAX,
            forall|k: usize| #[trigger] old(self).slots().contains_key(k) ==> old(self).slots()[k].0 <= WHEEL_TIME_LIMIT,
        ensures
            final(self).wf(),
            final(self).timed(),
            final(self).bound_to(final(timer)),
            final(self).view() == old(self).view(),
            final(self).slots() == old(self).slots(),
            final(self).slab == old(self).slab,
            final(self).wheel == old(self).wheel,
            final(self).expired == old(self).expired,
            final(self).wheel_now == old(self).wheel_now,
            final(self).start == old(self).start,
            final(self).delay.is_some() ==> final(self).delay_at >= final(self).wheel.elapsed_spec(),
            final(self).delay.is_some() && (forall|x: (usize, u64)| final(self).wheel.entries().count(x) > 0 ==> x.1
                > final(self).wheel.elapsed_spec()) ==> final(self).delay_at > final(self).wheel.elapsed_spec(),
            final(self).delay.is_none() <==> final(self).wheel.entries() =~= Multiset::empty(),
            final(timer).wf(),
            final(timer).now_spec() == old(timer).now_spec(),
            final(timer).is_paused() == old(timer).is_paused(),
            final(timer).timers().len() <= old(timer).timers().len() + 1,
            old(self).delay.is_some() ==> final(timer).timers().len() == old(timer).timers().len(),
            final(self).delay.is_none() ==> final(timer).timers().len() == old(timer).timers().len(),
    {
        let ghost before = *self;
        match self.wheel.poll_at() {
            Some(ms) => {
                proof {
                    let x = choose|x: (usize, u64)| self.wheel.entries().count(x) > 0;
                    assert(self.wheel.entries().count(x) > 0) by {
                        if !(exists|x: (usize, u64)| self.wheel.entries().count(x) > 0) {
                            assert(self.wheel.entries() =~= Multiset::empty());
                        }
                    }
                    assert(self.key_ok(x.0));
                    assert(self.wheel.entries().count((x.0, x.1)) > 0);
                    assert(self.slots().contains_key(x.0));
                }
                self.arm(timer, ms);
            },
            None => self.disarm(timer),
        }
        proof {
            assert forall|k: usize| #[trigger] self.key_ok(k) by {
                assert(before.key_ok(k));
            }
            assert(self.view() =~= before.view());
            assert forall|k: usize| #[trigger] self.slots().contains_key(k) implies self.slots()[k].0 <= WHEEL_TIME_LIMIT && (
            !self.slots()[k].1 ==> self.delay.is_some() && self.delay_at <= self.slots()[k].0) by {
                assert(before.key_ok(k));
                if !self.slots()[k].1 {
                    assert(self.wheel.entries().count((k, self.slots()[k].0)) == 1);
                }
            }
        }
    }

    /// Takes the entry of `key` out of the queue and returns it.
    pub fn remove(&mut self, timer: &mut Timer, key: &Key) -> (r: Expired<T>)
        requires
            old(self).wf(),
            old(self).bound_to(old(timer)),
            old(timer).wf(),
            old(timer).timers().len() < usize::MAX,
            old(self).view().contains_key(key.index),
            old(self).timed(),
        ensures
            final(self).wf(),
            final(self).clock_marks() == old(self).clock_marks(),
            final(self).timed(),
            final(self).view().dom().finite(),
            final(timer).timers().len() <= old(timer).timers().len() + 1,
            final(self).bound_to(final(timer)),
            r.key_spec() == *key,
            r.data_spec() == old(self).view()[key.index].0,
            r.deadline_spec()@ == instant_at_spec(old(self).start_spec(), old(self).view()[key.index].1),
            final(self).view() == old(self).view().remove(key.index),
            final(self).start_spec() == old(self).start_spec(),
            final(self).wheel_elapsed() == old(self).wheel_elapsed(),
            final(timer).wf(),
            final(timer).now_spec() == old(timer).now_spec(),
            final(timer).is_paused() == old(timer).is_paused(),
    {
        let prev = self.next_deadline();
        proof {
            old(self).lemma_expired_entries();
        }
        let (data, when) = self.remove_entry(key.index);
        proof {
            lemma_sorted_after_removal(old(self).expired@, old(self).slots(), self.expired@, self.slots(), key.index);
        }
        let next = self.next_deadline();
        let changed = match (prev, next) {
            (Some(a), Some(b)) => a != b,
            (None, None) => false,
            _ => true,
        };
        let ghost removed = *self;
        proof {
            assert forall|k: usize| #[trigger] self.slots().contains_key(k) implies self.slots()[k].0 <= WHEEL_TIME_LIMIT by {
                assert(old(self).slots().contains_key(k));
            }
        }
        if changed {
            self.follow_wheel(timer);
        }
        proof {
            assert forall|k: usize| #[trigger] self.key_ok(k) by {
                assert(removed.key_ok(k));
            }
            assert(self.view() =~= removed.view());
            if !changed {
                assert forall|k: usize| #[trigger] self.slots().contains_key(k) implies self.slots()[k].0 <= WHEEL_TIME_LIMIT && (
                !self.slots()[k].1 ==> self.delay.is_some() && self.delay_at <= self.slots()[k].0) by {
                    assert(old(self).slots().contains_key(k));
                }
            }
            self.lemma_view_finite();
        }
        Expired { key: Key { index: key.index }, data, deadline: instant_at(self.start, when) }
    }

    /// Takes the entry of `key` out of the queue and returns it, or `None` where the queue
    /// holds no such entry.
    pub fn try_remove(&mut self, timer: &mut Timer, key: &Key) -> (r: Option<Expired<T>>)
        requires
            old(self).wf(),
            old(self).bound_to(old(timer)),
            old(timer).wf(),
            old(timer).timers().len() < usize::MAX,
            old(self).timed(),
        ensures
            final(self).wf(),
            final(self).clock_marks() == old(self).clock_marks(),
            final(self).timed(),
            final(timer).timers().len() <= old(timer).timers().len() + 1,
            final(self).bound_to(final(timer)),
            r.is_some() == old(self).view().contains_key(key.index),
            r.is_some() ==> r.unwrap().key_spec() == *key && r.unwrap().data_spec() == old(self).view()[key.index].0
                && r.unwrap().deadline_spec()@ == instant_at_spec(old(self).start_spec(), old(self).view()[key.index].1)
                && final(self).view() == old(self).view().remove(key.index),
            r.is_none() ==> final(self).view() == old(self).view(),
            final(timer).wf(),
            final(timer).now_spec() == old(timer).now_spec(),
            final(timer).is_paused() == old(timer).is_paused(),
    {
        if self.slab.contains(key.index) {
            Some(self.remove(timer, key))
        } else {
            None
        }
    }

    /// Whether the queue holds an entry for `key`.
    pub fn contains(&self, key: &Key) -> (r: bool)
        requires
            self.wf(),
        ensures
            r == self.view().contains_key(key.index),
    {
        self.slab.contains(key.index)
    }

    /// Moves the deadline of the entry of `key` to `when` (or to the queue's time, where
    /// that is later).
    pub fn reset_at(&mut self, timer: &mut Timer, key: &Key, when: Instant)
        requires
            old(self).wf(),
            old(self).bound_to(old(timer)),
            old(timer).wf(),
            old(self).view().contains_key(key.index),
            old(self).normalized(when) - old(self).wheel_elapsed() <= MAX_DURATION,
            old(self).timed(),
            old(timer).timers().len() < usize::MAX,
        ensures
            final(self).wf(),
            final(self).clock_marks() == old(self).clock_marks(),
            final(self).timed(),
            final(self).view().dom().finite(),
            final(timer).timers().len() <= old(timer).timers().len() + 1,
            final(self).bound_to(final(timer)),
            final(self).view() == old(self).view().insert(key.index, (old(self).view()[key.index].0, old(self).normalized(when))),
            final(self).start_spec() == old(self).start_spec(),
            final(self).wheel_elapsed() == old(self).wheel_elapsed(),
            final(timer).wf(),
            final(timer).now_spec() == old(timer).now_spec(),
            final(timer).is_paused() == old(timer).is_paused(),
    {
        let k = key.index;
        proof {
            old(self).lemma_expired_entries();
        }
        self.unplace(k);
        let when_ms = self.normalize_deadline(when);
        let ghost before = *self;
        assert(before.slots() == old(self).slots());
        self.slab.set(k, (when_ms, false));
        let ghost set_state = *self;
        proof {
            assert(old(self).key_ok(k));
            assert forall|j: usize| j != k implies #[trigger] self.key_ok(j) by {
                assert(before.key_ok(j));
            }
        }
        proof {
            lemma_sorted_after_removal(old(self).expired@, old(self).slots(), before.expired@, before.slots(), k);
        }
        self.place(when_ms, k);
        proof {
            assert forall|j: int| 0 <= j < before.expired@.len() implies before.slots().contains_key(#[trigger] before.expired@[j])
                && before.slots()[before.expired@[j]].0 <= before.wheel.elapsed_spec() by {
                let m = before.expired@[j];
                assert(before.expired@.contains(m));
                assert(m != k);
                assert(before.key_ok(m));
            }
            assert forall|m: usize| m != k && #[trigger] before.slots().contains_key(m) implies self.slots().contains_key(m)
                && self.slots()[m] == before.slots()[m] by {
                assert(set_state.slots().contains_key(m) && set_state.slots()[m] == before.slots()[m]);
                assert(set_state.slots().remove(k).contains_key(m));
                assert(self.slots().remove(k)[m] == set_state.slots().remove(k)[m]);
            }
            if self.expired@ != before.expired@ {
                assert(self.slots()[k].0 == when_ms);
                assert forall|j: int| 0 <= j < before.expired@.len() implies before.slots()[#[trigger] before.expired@[j]].0
                    <= self.slots()[k].0 by {}
            }
            lemma_sorted_after_place(before.expired@, before.slots(), self.expired@, self.slots(), k);
        }
        proof {
            assert(self.view().dom() =~= old(self).view().dom());
            assert forall|j: usize| #[trigger] self.view().contains_key(j) implies self.view()[j] == old(self).view().insert(
                k,
                (old(self).view()[k].0, when_ms),
            )[j] by {
                assert(old(self).key_ok(j));
            }
            assert(self.view() =~= old(self).view().insert(k, (old(self).view()[k].0, when_ms)));
        }
        let ghost placed = *self;
        proof {
            lemma_ms_after_bound(self.start, when);
            assert forall|j: usize| #[trigger] self.slots().contains_key(j) implies self.slots()[j].0 <= WHEEL_TIME_LIMIT by {
                if j != k {
                    assert(self.slots().remove(k).contains_key(j));
                    assert(self.slots().remove(k)[j] == set_state.slots().remove(k)[j]);
                    assert(set_state.slots()[j] == before.slots()[j]);
                    assert(old(self).slots().contains_key(j));
                }
            }
        }
        self.follow_wheel(timer);
        proof {
            assert forall|j: usize| #[trigger] self.key_ok(j) by {
                assert(placed.key_ok(j));
            }
            assert(self.view() =~= placed.view());
            self.lemma_view_finite();
        }
    }

    /// Hands out the next entry whose deadline has passed: from the past-due list first,
    /// then from the wheel once the driver's clock reaches the queue's sleep. `Ready(None)` means the
    /// queue is empty; `Pending` that nothing is due yet.
    pub fn poll_expired(&mut self, timer: &mut Timer) -> (r: Poll<Option<Expired<T>>>)
        requires
            old(self).wf(),
            old(self).timed(),
            old(self).bound_to(old(timer)),
            old(self).synced(old(timer)),
            old(timer).wf(),
            old(timer).timers().len() < usize::MAX,
        ensures
            final(self).wf(),
            final(self).timed(),
            final(self).bound_to(final(timer)),
            final(self).synced(final(timer)),
            final(self).view().dom().finite(),
            final(self).start_spec() == old(self).start_spec(),
            final(timer).wf(),
            final(timer).now_spec() == old(timer).now_spec(),
            final(timer).is_paused() == old(timer).is_paused(),
            final(timer).timers().len() <= old(timer).timers().len() + 1,
            polled(*old(self), r, *final(self)),
            old(self).view().dom().is_empty() ==> r is Ready && r->Ready_0.is_none(),
            r is Pending ==> nothing_due(*old(self), final(timer).now_spec()),
            r matches Poll::Ready(Some(e)) ==> instant_at_spec(old(self).start_spec(), old(self).view()[e.key_spec().index].1)
                <= final(timer).now_spec(),
            r matches Poll::Ready(Some(e)) ==> forall|k: usize| #[trigger] old(self).view().contains_key(k) ==> old(self).view()[e.key_spec().index].1
                <= old(self).view()[k].1,
    {
        let n = self.slab.len();
        proof {
            self.slab.lemma_data_finite();
            assert(self.view().dom() =~= self.slots().dom());
            if self.view().dom().is_empty() {
                assert(self.slots().dom() =~= Set::<usize>::empty());
                assert(self.slots().len() == 0);
            }
        }
        if n == 0 {
            proof {
                self.slab.lemma_data_finite();
                assert(self.view().dom() =~= self.slots().dom());
                assert(self.view().dom() =~= Set::<usize>::empty());
                self.lemma_view_finite();
            }
            return Poll::Ready(None);
        }
        if self.expired.len() > 0 {
            let k = self.expired[0];
            proof {
                assert(self.expired@.contains(k));
                assert(self.key_ok(k));
                assert(old(self).view().contains_key(k));
                assert(old(self).view().dom().contains(k));
            }
            let ghost pre = *self;
            let (data, when) = self.remove_entry(k);
            proof {
                lemma_instant_at_monotone(self.start, when, self.wheel.elapsed_spec());
                pre.wheel.lemma_entries_not_before();
                assert forall|j: usize| #[trigger] old(self).view().contains_key(j) implies old(self).view()[k].1 <= old(self).view()[j].1 by {
                    assert(pre.key_ok(j));
                    assert(pre.key_ok(k));
                    assert(pre.slots().contains_key(j));
                    if !pre.slots()[j].1 {
                        assert(pre.wheel.entries().count((j, pre.slots()[j].0)) == 1);
                    } else {
                        assert(pre.expired@.contains(j));
                        let jj = choose|jj: int| 0 <= jj < pre.expired@.len() && pre.expired@[jj] == j;
                        if jj > 0 {
                            assert(pre.slots()[pre.expired@[0]].0 <= pre.slots()[pre.expired@[jj]].0);
                        }
                    }
                }
                assert forall|j: usize| #[trigger] self.slots().contains_key(j) implies self.slots()[j].0 <= WHEEL_TIME_LIMIT && (
                !self.slots()[j].1 ==> self.delay.is_some() && self.delay_at <= self.slots()[j].0) by {
                    assert(old(self).slots().contains_key(j));
                }
                self.lemma_view_finite();
            }
            return Poll::Ready(Some(Expired { key: Key { index: k }, data, deadline: instant_at(self.start, when) }));
        }
        proof {
            assert forall|k: usize| #[trigger] self.slots().contains_key(k) && self.slots()[k].1 implies false by {
                assert(self.key_ok(k));
            }
        }
        loop
            invariant
                self.wf(),
                self.timed(),
                self.bound_to(timer),
                self.expired@.len() == 0,
                self.start == old(self).start,
                self.view() == old(self).view(),
                timer.wf(),
                timer.now_spec() == old(timer).now_spec(),
                timer.is_paused() == old(timer).is_paused(),
                timer.timers().len() <= old(timer).timers().len() + 1,
                old(timer).timers().len() < usize::MAX,
                self.delay.is_none() ==> timer.timers().len() == old(timer).timers().len(),
                self.synced(timer),
                !old(self).view().dom().is_empty(),
            decreases (if self.delay.is_some() { WHEEL_TIME_LIMIT + 2 - self.delay_at } else { WHEEL_TIME_LIMIT + 3 }),
        {
            let ghost top = *self;
            if let Some(delay) = &self.delay {
                let now = timer.now();
                if delay.deadline().nanos > now.nanos {
                    proof {
                        assert forall|k: usize| #[trigger] old(self).view().contains_key(k) implies instant_at_spec(
                            old(self).start_spec(),
                            old(self).view()[k].1,
                        ) > timer.now_spec() by {
                            assert(self.key_ok(k));
                            assert(self.slots().contains_key(k));
                            assert(!self.expired@.contains(k));
                            lemma_instant_at_monotone(self.start, self.delay_at, self.slots()[k].0);
                        }
                        self.lemma_view_finite();
                    }
                    return Poll::Pending;
                }
                self.wheel_now = self.delay_at;
            }
            let ghost before = *self;
            proof {
                assert forall|k: usize| #[trigger] self.key_ok(k) by {
                    assert(top.key_ok(k));
                }
                if old(self).view().dom().is_empty() {
                    assert forall|x: (usize, u64)| self.wheel.entries().count(x) == 0 by {
                        assert(self.key_ok(x.0));
                        assert(!self.view().contains_key(x.0));
                        assert(x == (x.0, x.1));
                        assert(self.wheel.entries().count((x.0, x.1)) == 0);
                    }
                    assert(self.wheel.entries() =~= Multiset::empty());
                }
            }
            let ghost entries0 = self.wheel.entries();
            let ghost e_before = self.wheel.elapsed_spec();
            proof {
                assert(instant_at_spec(self.start, self.wheel_now) <= timer.now_spec());
            }
            let polled = self.wheel.poll(self.wheel_now);
            proof {
                if self.wheel.elapsed_spec() != e_before {
                    lemma_instant_at_monotone(self.start, self.wheel.elapsed_spec(), self.wheel_now);
                }
            }
            match polled {
                Some((k, w)) => {
                    proof {
                        assert(before.key_ok(k));
                        assert(entries0.count((k, w)) > 0);
                        assert forall|j: usize| j != k implies #[trigger] self.key_ok(j) by {
                            assert(before.key_ok(j));
                            assert forall|x: u64| #[trigger] self.wheel.entries().count((j, x)) == entries0.count((j, x)) by {}
                        }
                        assert forall|x: u64| #[trigger] self.wheel.entries().count((k, x)) == 0 by {
                            assert(entries0.count((k, x)) == if x == w { 1nat } else { 0nat });
                        }
                        assert(!self.expired@.contains(k));
                    }
                    proof {
                        lemma_instant_at_monotone(self.start, w, self.wheel_now);
                    }
                    let (data, when) = self.finish_removal(k);
                    proof {
                        assert forall|j: usize| #[trigger] self.slots().contains_key(j) implies self.slots()[j].0 <= WHEEL_TIME_LIMIT by {
                            assert(before.slots().contains_key(j));
                        }
                    }
                    let ghost removed = *self;
                    self.follow_wheel(timer);
                    proof {
                        self.lemma_view_finite();
                        assert(self.view() == removed.view());
                        assert forall|j: usize| #[trigger] old(self).view().contains_key(j) implies old(self).view()[k].1 <= old(self).view()[j].1 by {
                            assert(before.key_ok(j));
                            assert(before.slots().contains_key(j));
                            assert(!before.expired@.contains(j));
                            assert(entries0.count((j, before.slots()[j].0)) == 1);
                            assert(before.key_ok(k));
                        }
                    }
                    return Poll::Ready(Some(Expired { key: Key { index: k }, data, deadline: instant_at(self.start, when) }));
                },
                None => {},
            }
            proof {
                assert forall|k: usize| #[trigger] self.key_ok(k) by {
                    assert(before.key_ok(k));
                    assert forall|w: u64| #[trigger] self.wheel.entries().count((k, w)) == entries0.count((k, w)) by {}
                }
                assert(self.view() =~= before.view());
                assert forall|j: usize| #[trigger] self.slots().contains_key(j) implies self.slots()[j].0 <= WHEEL_TIME_LIMIT by {
                    assert(before.slots().contains_key(j));
                }
            }
            let ghost polled_state = *self;
            self.follow_wheel(timer);
            if self.delay.is_none() {
                proof {
                    assert forall|k: usize| #[trigger] self.view().contains_key(k) implies false by {
                        assert(self.key_ok(k));
                        assert(self.wheel.entries().count((k, self.slots()[k].0)) == 1);
                    }
                    assert(self.view().dom() =~= Set::<usize>::empty());
                    self.lemma_view_finite();
                }
                return Poll::Ready(None);
            }
            proof {
                if top.delay.is_some() {
                    assert(polled_state.wheel_now >= top.delay_at);
                    if polled_state.wheel.elapsed_spec() == polled_state.wheel_now {
                        assert forall|x: (usize, u64)| self.wheel.entries().count(x) > 0 implies x.1 > self.wheel.elapsed_spec() by {
                            assert(entries0.count(x) > 0);
                        }
                    }
                }
            }
        }
    }

    /// Puts `value` in the queue, due `timeout` from now, and returns its key.
    pub fn insert(&mut self, timer: &mut Timer, value: T, timeout: Duration) -> (r: Key)
        requires
            old(self).wf(),
            old(self).bound_to(old(timer)),
            old(timer).wf(),
            old(timer).timers().len() < usize::MAX,
            old(self).view().len() < MAX_ENTRIES,
            old(self).timed(),
            old(timer).now_spec() + timeout@ <= u64::MAX,
            old(self).normalized(Instant { nanos: (old(timer).now_spec() + timeout@) as u64 }) - old(self).wheel_elapsed()
                <= MAX_DURATION,
        ensures
            final(self).wf(),
            final(self).clock_marks() == old(self).clock_marks(),
            final(self).timed(),
            final(self).view().dom().finite(),
            final(timer).timers().len() <= old(timer).timers().len() + 1,
            final(self).bound_to(final(timer)),
            !old(self).view().contains_key(r.index),
            final(self).view() == old(self).view().insert(
                r.index,
                (value, old(self).normalized(Instant { nanos: (old(timer).now_spec() + timeout@) as u64 })),
            ),
            final(timer).wf(),
            final(timer).now_spec() == old(timer).now_spec(),
            final(timer).is_paused() == old(timer).is_paused(),
    {
        let when = timer.now().add(timeout);
        self.insert_at(timer, value, when)
    }

    /// Moves the deadline of the entry of `key` to `timeout` from now.
    pub fn reset(&mut self, timer: &mut Timer, key: &Key, timeout: Duration)
        requires
            old(self).wf(),
            old(self).bound_to(old(timer)),
            old(timer).wf(),
            old(self).view().contains_key(key.index),
            old(self).timed(),
            old(timer).timers().len() < usize::MAX,
            old(timer).now_spec() + timeout@ <= u64::MAX,
            old(self).normalized(Instant { nanos: (old(timer).now_spec() + timeout@) as u64 }) - old(self).wheel_elapsed()
                <= MAX_DURATION,
        ensures
            final(self).wf(),
            final(self).clock_marks() == old(self).clock_marks(),
            final(self).timed(),
            final(self).view().dom().finite(),
            final(timer).timers().len() <= old(timer).timers().len() + 1,
            final(self).bound_to(final(timer)),
            final(self).view() == old(self).view().insert(
                key.index,
                (
                    old(self).view()[key.index].0,
                    old(self).normalized(Instant { nanos: (old(timer).now_spec() + timeout@) as u64 }),
                ),
            ),
            final(timer).wf(),
            final(timer).now_spec() == old(timer).now_spec(),
            final(timer).is_paused() == old(timer).is_paused(),
    {
        let when = timer.now().add(timeout);
        self.reset_at(timer, key, when)
    }

    /// Empties the queue and starts its wheel afresh.
    pub fn clear(&mut self, timer: &mut Timer)
        requires
            old(self).wf(),
            old(self).timed(),
            old(self).bound_to(old(timer)),
            old(timer).wf(),
        ensures
            final(self).wf(),
            old(self).synced(old(timer)) ==> final(self).synced(final(timer)),
            final(self).timed(),
            final(timer).timers().len() <= old(timer).timers().len() + 1,
            final(self).bound_to(final(timer)),
            final(self).view() =~= Map::<usize, (T, u64)>::empty(),
            final(timer).wf(),
            final(timer).now_spec() == old(timer).now_spec(),
            final(timer).is_paused() == old(timer).is_paused(),
    {
        self.slab.clear();
        self.expired = Vec::new();
        self.wheel = Wheel::new();
        self.disarm(timer);
        proof {
            assert(self.slots().dom() =~= Set::<usize>::empty());
            assert forall|k: usize| #[trigger] self.key_ok(k) by {
                assert forall|w: u64| #[trigger] self.wheel.entries().count((k, w)) == 0 by {}
                assert(!self.expired@.contains(k));
            }
            assert(self.view().dom() =~= Set::<usize>::empty());
        }
    }

    /// What the queue can hold without allocating; nothing is promised of the number.
    pub fn capacity(&self) -> (r: usize) {
        self.slab.capacity()
    }

    /// Makes room for `additional` more entries, as far as the cap on entries allows.
    pub fn reserve(&mut self, additional: usize)
        requires
            old(self).wf(),
            old(self).timed(),
        ensures
            final(self).wf(),
            final(self).clock_marks() == old(self).clock_marks(),
            final(self).timed(),
            final(self).view() == old(self).view(),
    {
        let capacity = self.slab.capacity();
        if capacity <= MAX_ENTRIES && additional <= MAX_ENTRIES - capacity {
            let ghost before = *self;
            self.slab.reserve(additional);
            proof {
                assert forall|k: usize| #[trigger] self.key_ok(k) by {
                    assert(before.key_ok(k));
                }
                assert(self.view() =~= before.view());
            }
        }
    }

    /// Gives back memory that the queue does not use; the entries stay as they are.
    pub fn shrink_to_fit(&mut self)
        requires
            old(self).wf(),
            old(self).timed(),
        ensures
            final(self).wf(),
            final(self).clock_marks() == old(self).clock_marks(),
            final(self).timed(),
            final(self).view() == old(self).view(),
    {
        let ghost before = *self;
        self.slab.shrink_to_fit();
        proof {
            assert forall|k: usize| #[trigger] self.key_ok(k) by {
                assert(before.key_ok(k));
            }
            assert(self.view() =~= before.view());
        }
    }

    /// Whether the queue holds no entries.
    pub fn is_empty(&self) -> (r: bool)
        requires
            self.wf(),
        ensures
            r == self.view().dom().is_empty(),
    {
        let n = self.len();
        proof {
            assert(self.view().dom().finite()) by {
                self.slab.lemma_data_finite();
                assert(self.view().dom() =~= self.slots().dom());
            }
            if n == 0 {
                assert(self.view().dom() =~= Set::<usize>::empty());
            } else {
                let k = self.view().dom().choose();
                assert(self.view().dom().contains(k));
            }
        }
        n == 0
    }

    /// Packs the queue's storage into the lowest indices; every key keeps its entry.
    pub fn compact(&mut self)
        requires
            old(self).wf(),
            old(self).timed(),
        ensures
            final(self).wf(),
            final(self).clock_marks() == old(self).clock_marks(),
            final(self).timed(),
            final(self).view() == old(self).view(),
            forall|i: usize| #[trigger] final(self).slab_indices().contains(i) ==> i < final(self).view().len(),
    {
        let ghost before = *self;
        self.slab.compact();
        proof {
            assert(self.view().dom() =~= self.slots().dom());
            assert forall|k: usize| #[trigger] self.key_ok(k) by {
                assert(before.key_ok(k));
            }
            assert(self.view() =~= before.view());
        }
    }
}

} // verus!
