use wasm_timer::clock::Clock;
use wasm_timer::driver::{advance, host_delay, pause, resume, sleep, sleep_until, Timer};
use wasm_timer::interval::{interval, interval_at, MissedTickBehavior};
use wasm_timer::time::{Duration, Instant, SystemTime};
use wasm_timer::timeout::{timeout, timeout_at, Elapsed};
use wasm_timer::Poll;

fn ms(n: u64) -> Duration {
    Duration::from_millis(n)
}

fn at_ms(n: u64) -> Instant {
    Instant::from_epoch(Duration::from_millis(n))
}

fn paused_timer() -> Timer {
    let mut timer = Timer::new(at_ms(10_000), false);
    pause(&mut timer);
    timer
}

#[test]
fn clock_is_monotone_while_running() {
    let mut timer = Timer::new(at_ms(100), false);
    let a = Instant::now(&timer);
    timer.observe_host(at_ms(150));
    let b = Instant::now(&timer);
    assert!(b >= a);
    assert_eq!(ms(50), b.duration_since(a));
}

#[test]
fn paused_clock_stands_still() {
    let mut timer = Timer::new(at_ms(100), false);
    pause(&mut timer);
    let a = Instant::now(&timer);
    timer.observe_host(at_ms(900));
    let _s = sleep(&mut timer, ms(5));
    assert_eq!(a, Instant::now(&timer));
    assert!(timer.paused());
}

#[test]
fn advance_moves_paused_clock_exactly() {
    let mut timer = paused_timer();
    let a = Instant::now(&timer);
    advance(&mut timer, ms(1234));
    assert_eq!(ms(1234), Instant::now(&timer).duration_since(a));
    assert_eq!(ms(1234), a.elapsed(&timer));
}

#[test]
fn resume_runs_from_paused_time() {
    let mut timer = Timer::new(at_ms(100), true);
    advance(&mut timer, ms(50));
    resume(&mut timer);
    assert_eq!(at_ms(150), Instant::now(&timer));
    timer.observe_host(at_ms(110));
    assert_eq!(at_ms(160), Instant::now(&timer));
}

#[test]
fn clock_pause_and_advance() {
    let mut clock = Clock::new(at_ms(0), false);
    assert_eq!(at_ms(30), clock.now(at_ms(30)));
    clock.pause(at_ms(30));
    clock.advance(ms(5));
    assert_eq!(at_ms(35), clock.now(at_ms(1000)));
    clock.resume(at_ms(1000));
    assert_eq!(at_ms(45), clock.now(at_ms(1010)));
}

#[test]
fn scenario_sleep_elapses_after_advance() {
    let mut timer = paused_timer();
    let s = sleep(&mut timer, ms(1000));
    assert!(!s.is_elapsed(&timer));
    advance(&mut timer, ms(1005));
    assert!(s.is_elapsed(&timer));
}

#[test]
fn sleep_elapses_exactly_at_deadline() {
    let mut timer = paused_timer();
    let s = sleep(&mut timer, ms(700));
    advance(&mut timer, ms(699));
    assert_eq!(Poll::Pending, s.poll(&timer));
    advance(&mut timer, ms(1));
    assert_eq!(Poll::Ready(()), s.poll(&timer));
}

#[test]
fn sleeps_end_in_deadline_order() {
    let mut timer = paused_timer();
    let first = sleep(&mut timer, ms(100));
    let second = sleep(&mut timer, ms(300));
    advance(&mut timer, ms(100));
    assert!(first.is_elapsed(&timer));
    assert!(!second.is_elapsed(&timer));
    advance(&mut timer, ms(200));
    assert!(second.is_elapsed(&timer));
}

#[test]
fn sleep_reset_rearms_after_fire() {
    let mut timer = paused_timer();
    let mut s = sleep(&mut timer, ms(10));
    advance(&mut timer, ms(10));
    assert!(s.is_elapsed(&timer));
    let later = Instant::now(&timer).add(ms(50));
    s.reset(&mut timer, later);
    assert_eq!(later, s.deadline());
    assert!(!s.is_elapsed(&timer));
    advance(&mut timer, ms(50));
    assert!(s.is_elapsed(&timer));
}

#[test]
fn sleep_until_past_deadline_is_ready_at_once_when_paused() {
    let mut timer = paused_timer();
    let s = sleep_until(&mut timer, at_ms(5));
    assert!(s.is_elapsed(&timer));
}

#[test]
fn cancelled_sleep_never_fires() {
    let mut timer = paused_timer();
    let s = sleep(&mut timer, ms(10));
    s.cancel(&mut timer);
    advance(&mut timer, ms(20));
    assert_eq!(None, timer.next_deadline());
}

#[test]
fn running_sleep_fires_on_host_callback() {
    let mut timer = Timer::new(at_ms(0), false);
    let s = sleep(&mut timer, ms(40));
    assert!(timer.take_wake_request());
    assert!(!timer.take_wake_request());
    assert_eq!(Some(40), timer.host_callback(at_ms(0)));
    assert!(!s.is_elapsed(&timer));
    assert_eq!(None, timer.host_callback(at_ms(45)));
    assert!(s.is_elapsed(&timer));
}

#[test]
fn host_delay_rounds_down_and_clamps() {
    assert_eq!(2, host_delay(Instant::from_epoch(Duration::from_micros(2_900)), at_ms(0)));
    assert_eq!(0, host_delay(at_ms(5), at_ms(9)));
    assert_eq!(0, host_delay(at_ms(3_000_000_000), at_ms(0)));
    assert_eq!(2_147_483_647, host_delay(at_ms(2_147_483_647), at_ms(0)));
}

#[test]
fn scenario_interval_ticks_each_period() {
    let mut timer = paused_timer();
    let mut i = interval(&mut timer, ms(500));
    assert_eq!(Poll::Pending, i.poll_tick(&mut timer));
    advance(&mut timer, ms(501));
    assert!(matches!(i.poll_tick(&mut timer), Poll::Ready(_)));
    assert_eq!(Poll::Pending, i.poll_tick(&mut timer));
    advance(&mut timer, ms(501));
    assert!(matches!(i.poll_tick(&mut timer), Poll::Ready(_)));
}

#[test]
fn scenario_interval_burst_catches_up() {
    let mut timer = paused_timer();
    let start = Instant::now(&timer);
    let mut i = interval(&mut timer, ms(500));
    i.set_missed_tick_behavior(MissedTickBehavior::Burst);
    advance(&mut timer, ms(1501));
    assert_eq!(Poll::Ready(start.add(ms(500))), i.poll_tick(&mut timer));
    assert_eq!(Poll::Ready(start.add(ms(1000))), i.poll_tick(&mut timer));
    assert_eq!(Poll::Ready(start.add(ms(1500))), i.poll_tick(&mut timer));
    assert_eq!(Poll::Pending, i.poll_tick(&mut timer));
    assert_eq!(start.add(ms(2000)), i.deadline());
}

#[test]
fn scenario_interval_skip_keeps_grid() {
    let mut timer = paused_timer();
    let start = Instant::now(&timer);
    let mut i = interval(&mut timer, ms(500));
    i.set_missed_tick_behavior(MissedTickBehavior::Skip);
    advance(&mut timer, ms(1601));
    assert!(matches!(i.poll_tick(&mut timer), Poll::Ready(_)));
    assert_eq!(Poll::Pending, i.poll_tick(&mut timer));
    assert_eq!(start.add(ms(2000)), i.deadline());
    advance(&mut timer, ms(401));
    assert!(matches!(i.poll_tick(&mut timer), Poll::Ready(_)));
}

#[test]
fn interval_delay_restarts_from_now() {
    let mut timer = paused_timer();
    let start = Instant::now(&timer);
    let mut i = interval(&mut timer, ms(500));
    i.set_missed_tick_behavior(MissedTickBehavior::Delay);
    assert_eq!(MissedTickBehavior::Delay, i.missed_tick_behavior());
    advance(&mut timer, ms(1601));
    assert_eq!(Poll::Ready(start.add(ms(500))), i.poll_tick(&mut timer));
    assert_eq!(start.add(ms(2101)), i.deadline());
    assert_eq!(Poll::Pending, i.poll_tick(&mut timer));
}

#[test]
fn interval_small_lateness_is_not_a_miss() {
    let mut timer = paused_timer();
    let start = Instant::now(&timer);
    let mut i = interval(&mut timer, ms(100));
    i.set_missed_tick_behavior(MissedTickBehavior::Delay);
    advance(&mut timer, ms(105));
    assert_eq!(Poll::Ready(start.add(ms(100))), i.poll_tick(&mut timer));
    assert_eq!(start.add(ms(200)), i.deadline());
}

#[test]
fn interval_at_and_reset() {
    let mut timer = paused_timer();
    let start = Instant::now(&timer);
    let mut i = interval_at(&mut timer, start.add(ms(20)), ms(300));
    assert_eq!(ms(300), i.period());
    assert_eq!(MissedTickBehavior::Burst, i.missed_tick_behavior());
    advance(&mut timer, ms(20));
    assert_eq!(Poll::Ready(start.add(ms(20))), i.poll_tick(&mut timer));
    advance(&mut timer, ms(10));
    i.reset(&mut timer);
    assert_eq!(start.add(ms(330)), i.deadline());
}

#[test]
fn scenario_timeout_elapses() {
    let mut timer = paused_timer();
    let inner = sleep(&mut timer, ms(1500));
    let t = timeout(&mut timer, ms(1000), inner);
    let first = t.poll(&timer, t.get_ref().poll(&timer));
    assert_eq!(Poll::Pending, first);
    advance(&mut timer, ms(1001));
    let second = t.poll(&timer, t.get_ref().poll(&timer));
    assert_eq!(Poll::Ready(Err(Elapsed::new())), second);
    assert_eq!("deadline has elapsed", Elapsed::new().message());
}

#[test]
fn timeout_returns_work_that_finishes_first() {
    let mut timer = paused_timer();
    let inner = sleep(&mut timer, ms(200));
    let t = timeout(&mut timer, ms(1000), inner);
    advance(&mut timer, ms(200));
    assert_eq!(Poll::Ready(Ok(())), t.poll(&timer, t.get_ref().poll(&timer)));
}

#[test]
fn timeout_prefers_work_on_a_tie() {
    let mut timer = paused_timer();
    let deadline = Instant::now(&timer).add(ms(300));
    let inner = sleep_until(&mut timer, deadline);
    let t = timeout_at(&mut timer, deadline, inner);
    assert_eq!(deadline, t.deadline());
    advance(&mut timer, ms(300));
    assert_eq!(Poll::Ready(Ok(())), t.poll(&timer, t.get_ref().poll(&timer)));
    let inner = t.into_inner();
    assert_eq!(deadline, inner.deadline());
}

#[test]
fn duration_conversions() {
    let d = Duration::from_micros(1_500_250);
    assert_eq!(1_500, d.as_millis());
    assert_eq!(1_501, d.as_millis_ceil());
    assert_eq!(1, d.as_secs());
    assert_eq!(500_250_000, d.subsec_nanos());
    assert_eq!(None, Duration::from_nanos(u64::MAX).checked_add(Duration::from_nanos(1)));
    assert_eq!(Some(Duration::from_nanos(1)), Duration::from_nanos(3).checked_sub(Duration::from_nanos(2)));
    assert_eq!(Duration::from_nanos(0), Duration::from_nanos(2).saturating_sub(Duration::from_nanos(3)));
}

#[test]
fn instant_arithmetic_saturates_and_checks() {
    let a = at_ms(10);
    let b = at_ms(25);
    assert_eq!(ms(0), a.duration_since(b));
    assert_eq!(None, a.checked_duration_since(b));
    assert_eq!(Some(ms(15)), b.checked_duration_since(a));
    assert_eq!(Some(b), a.checked_add(ms(15)));
    assert_eq!(None, Instant::from_epoch(Duration::from_nanos(u64::MAX)).checked_add(Duration::from_nanos(1)));
    assert_eq!(None, a.checked_sub(ms(11)));
    assert_eq!(a, b.sub(ms(15)));
}

#[test]
fn system_time_differences() {
    let earlier = SystemTime::from_epoch_millis(1_000);
    let later = SystemTime::from_epoch_millis(3_500);
    assert_eq!(Ok(ms(2_500)), later.duration_since(earlier));
    let err = earlier.duration_since(later).unwrap_err();
    assert_eq!(ms(2_500), err.duration());
    assert_eq!("second time provided was later than self", err.message());
    assert_eq!(Some(later), earlier.checked_add(ms(2_500)));
    assert_eq!(Some(earlier), later.checked_sub(Duration::from_micros(2_500_900)));
}

#[test]
fn system_time_epoch_parts_round_trip() {
    let t = SystemTime::from_epoch_millis(1_700_000_123_456);
    assert_eq!(Some((1_700_000_123, 456_000_000)), t.to_epoch_parts());
    assert_eq!(Some(t), SystemTime::from_epoch_parts(1_700_000_123, 456_000_000));
    assert_eq!(None, SystemTime::from_epoch_millis(-1).to_epoch_parts());
    assert_eq!(None, SystemTime::from_epoch_parts(u64::MAX, 0));
    assert_eq!(SystemTime::from_epoch_millis(0), SystemTime::unix_epoch());
}

#[test]
fn system_time_elapsed_from_a_reading() {
    let then = SystemTime::from_epoch_millis(5_000);
    assert_eq!(Ok(ms(1_500)), then.elapsed(SystemTime::from_epoch_millis(6_500)));
    assert_eq!(ms(500), then.elapsed(SystemTime::from_epoch_millis(4_500)).unwrap_err().duration());
}

#[test]
fn timer_counts_registrations_and_checks_clock_range() {
    let mut timer = paused_timer();
    assert_eq!(0, timer.timer_count());
    let _a = sleep(&mut timer, ms(1));
    let _b = sleep(&mut timer, ms(2));
    assert_eq!(2, timer.timer_count());
    let running = Timer::new(at_ms(0), false);
    assert_eq!(Some(at_ms(7)), running.clock_at(at_ms(7)));
    let mut late = Timer::new(Instant::from_epoch(Duration::from_nanos(u64::MAX - 5)), true);
    advance(&mut late, Duration::from_nanos(5));
    resume(&mut late);
    assert_eq!(None, late.clock_at(Instant::from_epoch(Duration::from_nanos(u64::MAX))));
}

#[test]
fn clock_checked_now_reports_overflow() {
    let clock = Clock::new(at_ms(0), false);
    let far = Clock { base: Instant::from_epoch(Duration::from_nanos(u64::MAX)), unfrozen: Some(at_ms(0)) };
    assert_eq!(Some(at_ms(9)), clock.checked_now(at_ms(9)));
    assert_eq!(None, far.checked_now(at_ms(1)));
}

#[test]
fn skip_at_deadline_moves_one_period() {
    let at = at_ms(100);
    let next = MissedTickBehavior::Skip.next_timeout(at, at, ms(30));
    assert_eq!(at_ms(130), next);
}

#[test]
fn released_records_are_reused() {
    let mut timer = paused_timer();
    let a = sleep(&mut timer, ms(10));
    let b = sleep(&mut timer, ms(20));
    assert_eq!(2, timer.timer_count());
    a.cancel(&mut timer);
    let c = sleep(&mut timer, ms(30));
    assert_eq!(2, timer.timer_count());
    advance(&mut timer, ms(20));
    assert!(b.is_elapsed(&timer));
    assert!(!c.is_elapsed(&timer));
    advance(&mut timer, ms(10));
    assert!(c.is_elapsed(&timer));
}
