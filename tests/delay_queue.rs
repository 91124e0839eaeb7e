use wasm_timer::delay_queue::{DelayQueue, Expired, Key};
use wasm_timer::driver::{advance, pause, Timer};
use wasm_timer::time::{Duration, Instant};
use wasm_timer::Poll;

fn ms(n: u64) -> Duration {
    Duration::from_millis(n)
}

fn paused_timer() -> Timer {
    let mut timer = Timer::new(Instant::from_epoch(ms(50_000)), false);
    pause(&mut timer);
    timer
}

fn expect_value<T: Copy + std::fmt::Debug + PartialEq>(p: Poll<Option<Expired<T>>>, value: T) -> Expired<T> {
    match p {
        Poll::Ready(Some(e)) => {
            assert_eq!(value, *e.get_ref());
            e
        }
        Poll::Ready(None) => panic!("queue was empty"),
        Poll::Pending => panic!("nothing was due"),
    }
}

fn is_pending<T>(p: &Poll<Option<Expired<T>>>) -> bool {
    matches!(p, Poll::Pending)
}

fn is_done<T>(p: &Poll<Option<Expired<T>>>) -> bool {
    matches!(p, Poll::Ready(None))
}

#[test]
fn scenario_delay_queue_order() {
    let mut timer = paused_timer();
    let mut q: DelayQueue<&str> = DelayQueue::new(&timer);
    let a = q.insert(&mut timer, "a", ms(1000));
    let b = q.insert(&mut timer, "b", ms(1000));
    let c = q.insert(&mut timer, "c", ms(1500));
    assert_eq!(3, q.len());
    advance(&mut timer, ms(1000));
    let first = expect_value(q.poll_expired(&mut timer), "a");
    assert_eq!(a, first.key());
    let second = expect_value(q.poll_expired(&mut timer), "b");
    assert_eq!(b, second.key());
    assert!(is_pending(&q.poll_expired(&mut timer)));
    advance(&mut timer, ms(500));
    let third = expect_value(q.poll_expired(&mut timer), "c");
    assert_eq!(c, third.key());
    assert!(is_done(&q.poll_expired(&mut timer)));
    assert!(q.is_empty());
}

#[test]
fn equal_deadlines_come_out_in_insertion_order() {
    let mut timer = paused_timer();
    let mut q: DelayQueue<u32> = DelayQueue::new(&timer);
    q.insert(&mut timer, 1, ms(250));
    q.insert(&mut timer, 2, ms(250));
    q.insert(&mut timer, 3, ms(250));
    advance(&mut timer, ms(300));
    expect_value(q.poll_expired(&mut timer), 1);
    expect_value(q.poll_expired(&mut timer), 2);
    expect_value(q.poll_expired(&mut timer), 3);
    assert!(is_done(&q.poll_expired(&mut timer)));
}

#[test]
fn removed_entry_never_comes_out() {
    let mut timer = paused_timer();
    let mut q: DelayQueue<u32> = DelayQueue::new(&timer);
    let k = q.insert(&mut timer, 7, ms(100));
    let removed = q.remove(&mut timer, &k);
    assert_eq!(7, removed.into_inner());
    assert!(!q.contains(&k));
    advance(&mut timer, ms(200));
    assert!(is_done(&q.poll_expired(&mut timer)));
}

#[test]
fn removing_one_of_two_keeps_the_other() {
    let mut timer = paused_timer();
    let mut q: DelayQueue<u32> = DelayQueue::new(&timer);
    let k1 = q.insert(&mut timer, 1, ms(100));
    let _k2 = q.insert(&mut timer, 2, ms(400));
    let e = q.try_remove(&mut timer, &k1).unwrap();
    assert_eq!(k1, e.key());
    assert!(q.try_remove(&mut timer, &k1).is_none());
    advance(&mut timer, ms(150));
    assert!(is_pending(&q.poll_expired(&mut timer)));
    advance(&mut timer, ms(250));
    expect_value(q.poll_expired(&mut timer), 2);
}

#[test]
fn reset_moves_the_deadline() {
    let mut timer = paused_timer();
    let mut q: DelayQueue<u32> = DelayQueue::new(&timer);
    let start = Instant::now(&timer);
    let k = q.insert(&mut timer, 9, ms(100));
    q.reset(&mut timer, &k, ms(600));
    advance(&mut timer, ms(100));
    assert!(is_pending(&q.poll_expired(&mut timer)));
    advance(&mut timer, ms(500));
    let e = expect_value(q.poll_expired(&mut timer), 9);
    assert_eq!(start.add(ms(600)), e.deadline());
    assert!(is_done(&q.poll_expired(&mut timer)));
}

#[test]
fn reset_to_earlier_deadline_fires_earlier() {
    let mut timer = paused_timer();
    let mut q: DelayQueue<u32> = DelayQueue::new(&timer);
    let start = Instant::now(&timer);
    let k = q.insert_at(&mut timer, 4, start.add(ms(5000)));
    q.reset_at(&mut timer, &k, start.add(ms(70)));
    advance(&mut timer, ms(70));
    let e = expect_value(q.poll_expired(&mut timer), 4);
    assert_eq!(start.add(ms(70)), e.deadline());
}

#[test]
fn past_deadline_comes_out_at_once() {
    let mut timer = paused_timer();
    let mut q: DelayQueue<u32> = DelayQueue::new(&timer);
    let start = Instant::now(&timer);
    q.insert_at(&mut timer, 5, start.sub(ms(10)));
    let e = expect_value(q.poll_expired(&mut timer), 5);
    assert_eq!(start, e.deadline());
    assert!(is_done(&q.poll_expired(&mut timer)));
}

#[test]
fn deadline_rounds_up_to_whole_milliseconds() {
    let mut timer = paused_timer();
    let mut q: DelayQueue<u32> = DelayQueue::new(&timer);
    let start = Instant::now(&timer);
    q.insert(&mut timer, 1, Duration::from_micros(1500));
    advance(&mut timer, ms(1));
    assert!(is_pending(&q.poll_expired(&mut timer)));
    advance(&mut timer, ms(1));
    let e = expect_value(q.poll_expired(&mut timer), 1);
    assert_eq!(start.add(ms(2)), e.deadline());
}

#[test]
fn empty_queue_is_done() {
    let mut timer = paused_timer();
    let mut q: DelayQueue<u32> = DelayQueue::with_capacity(&timer, 8);
    assert!(q.is_empty());
    assert_eq!(0, q.len());
    assert!(is_done(&q.poll_expired(&mut timer)));
}

#[test]
fn clear_and_capacity() {
    let mut timer = paused_timer();
    let mut q: DelayQueue<u32> = DelayQueue::with_capacity(&timer, 4);
    assert!(q.capacity() >= 4);
    q.reserve(10);
    assert!(q.capacity() >= 10);
    let k = q.insert(&mut timer, 1, ms(10));
    q.insert(&mut timer, 2, ms(20));
    assert_eq!(2, q.len());
    q.shrink_to_fit();
    assert!(q.contains(&k));
    q.clear(&mut timer);
    assert!(q.is_empty());
    assert!(!q.contains(&k));
    advance(&mut timer, ms(30));
    assert!(is_done(&q.poll_expired(&mut timer)));
}

#[test]
fn keys_are_reused_after_removal() {
    let mut timer = paused_timer();
    let mut q: DelayQueue<u32> = DelayQueue::new(&timer);
    let k = q.insert(&mut timer, 1, ms(10));
    q.remove(&mut timer, &k);
    let again = q.insert(&mut timer, 2, ms(10));
    assert_eq!(Key::new(k.index), again);
    assert_eq!(1, q.len());
}

#[test]
fn far_deadlines_cascade_through_levels() {
    let mut timer = paused_timer();
    let mut q: DelayQueue<u32> = DelayQueue::new(&timer);
    q.insert(&mut timer, 3, ms(300_000));
    q.insert(&mut timer, 1, ms(70));
    q.insert(&mut timer, 2, ms(5_000));
    advance(&mut timer, ms(70));
    expect_value(q.poll_expired(&mut timer), 1);
    assert!(is_pending(&q.poll_expired(&mut timer)));
    advance(&mut timer, ms(4_930));
    expect_value(q.poll_expired(&mut timer), 2);
    advance(&mut timer, ms(295_000));
    expect_value(q.poll_expired(&mut timer), 3);
    assert!(is_done(&q.poll_expired(&mut timer)));
}

#[test]
fn expired_accessors() {
    let mut timer = paused_timer();
    let mut q: DelayQueue<u32> = DelayQueue::new(&timer);
    let k = q.insert(&mut timer, 11, ms(1));
    advance(&mut timer, ms(1));
    let mut e = expect_value(q.poll_expired(&mut timer), 11);
    *e.get_mut() = 12;
    assert_eq!(12, *e.get_ref());
    assert_eq!(k, e.key());
}

#[test]
fn compact_keeps_every_key() {
    let mut timer = paused_timer();
    let mut q: DelayQueue<u32> = DelayQueue::new(&timer);
    let a = q.insert(&mut timer, 10, ms(100));
    let b = q.insert(&mut timer, 20, ms(200));
    let c = q.insert(&mut timer, 30, ms(300));
    q.remove(&mut timer, &a);
    q.compact();
    assert_eq!(2, q.len());
    assert!(q.contains(&b));
    assert!(q.contains(&c));
    let d = q.insert(&mut timer, 40, ms(400));
    assert_ne!(d, b);
    assert_ne!(d, c);
    assert_eq!(30, q.remove(&mut timer, &c).into_inner());
    advance(&mut timer, ms(400));
    let e = expect_value(q.poll_expired(&mut timer), 20);
    assert_eq!(b, e.key());
    let e = expect_value(q.poll_expired(&mut timer), 40);
    assert_eq!(d, e.key());
    assert!(is_done(&q.poll_expired(&mut timer)));
}

#[test]
fn reset_after_compact_reaches_the_moved_entry() {
    let mut timer = paused_timer();
    let mut q: DelayQueue<u32> = DelayQueue::new(&timer);
    let a = q.insert(&mut timer, 1, ms(100));
    let b = q.insert(&mut timer, 2, ms(900));
    q.remove(&mut timer, &a);
    q.compact();
    q.reset(&mut timer, &b, ms(50));
    advance(&mut timer, ms(50));
    let e = expect_value(q.poll_expired(&mut timer), 2);
    assert_eq!(b, e.key());
}

#[test]
fn deadline_on_a_slot_boundary_fires_on_time() {
    let mut timer = paused_timer();
    let mut q: DelayQueue<u32> = DelayQueue::new(&timer);
    q.insert(&mut timer, 1, ms(128));
    advance(&mut timer, ms(127));
    assert!(is_pending(&q.poll_expired(&mut timer)));
    advance(&mut timer, ms(1));
    expect_value(q.poll_expired(&mut timer), 1);
}

#[test]
fn compact_packs_storage_below_len() {
    let mut timer = paused_timer();
    let mut q: DelayQueue<u32> = DelayQueue::new(&timer);
    let mut keys = Vec::new();
    for i in 0..6u32 {
        keys.push(q.insert(&mut timer, i, ms(100 + i as u64)));
    }
    for k in keys.iter().take(4) {
        q.remove(&mut timer, k);
    }
    q.compact();
    assert_eq!(2, q.len());
    advance(&mut timer, ms(200));
    expect_value(q.poll_expired(&mut timer), 4);
    expect_value(q.poll_expired(&mut timer), 5);
    assert!(is_done(&q.poll_expired(&mut timer)));
}

#[test]
fn pending_until_due_then_each_entry_once() {
    let mut timer = paused_timer();
    let mut q: DelayQueue<u32> = DelayQueue::new(&timer);
    q.insert(&mut timer, 1, ms(40));
    q.insert(&mut timer, 2, ms(900));
    for _ in 0..39 {
        advance(&mut timer, ms(1));
        assert!(is_pending(&q.poll_expired(&mut timer)));
    }
    advance(&mut timer, ms(1));
    expect_value(q.poll_expired(&mut timer), 1);
    assert!(is_pending(&q.poll_expired(&mut timer)));
    advance(&mut timer, ms(860));
    expect_value(q.poll_expired(&mut timer), 2);
    assert!(is_done(&q.poll_expired(&mut timer)));
}

#[test]
fn empty_queue_is_ready_none_even_with_sleep_armed() {
    let mut timer = paused_timer();
    let mut q: DelayQueue<u32> = DelayQueue::new(&timer);
    let k = q.insert(&mut timer, 1, ms(500));
    q.remove(&mut timer, &k);
    let k2 = q.insert(&mut timer, 2, ms(800));
    q.remove(&mut timer, &k2);
    assert!(is_done(&q.poll_expired(&mut timer)));
}

#[test]
fn past_due_entries_come_out_oldest_deadline_first() {
    let mut timer = paused_timer();
    let mut q: DelayQueue<u32> = DelayQueue::new(&timer);
    let start = Instant::now(&timer);
    q.insert(&mut timer, 9, ms(5));
    advance(&mut timer, ms(10));
    expect_value(q.poll_expired(&mut timer), 9);
    q.insert_at(&mut timer, 1, start);
    advance(&mut timer, ms(3));
    q.insert_at(&mut timer, 2, start);
    expect_value(q.poll_expired(&mut timer), 1);
    expect_value(q.poll_expired(&mut timer), 2);
    assert!(is_done(&q.poll_expired(&mut timer)));
}

fn equal_deadlines_in_order(after: u64) {
    let mut timer = paused_timer();
    let mut q: DelayQueue<u32> = DelayQueue::new(&timer);
    let a = q.insert(&mut timer, 1, ms(after));
    let b = q.insert(&mut timer, 2, ms(after));
    let c = q.insert(&mut timer, 3, ms(after));
    advance(&mut timer, ms(after));
    assert_eq!(a, expect_value(q.poll_expired(&mut timer), 1).key());
    assert_eq!(b, expect_value(q.poll_expired(&mut timer), 2).key());
    assert_eq!(c, expect_value(q.poll_expired(&mut timer), 3).key());
    assert!(is_done(&q.poll_expired(&mut timer)));
}

#[test]
fn equal_short_deadlines_keep_insertion_order() {
    equal_deadlines_in_order(30);
}

#[test]
fn equal_far_deadlines_keep_insertion_order() {
    equal_deadlines_in_order(5_000);
    equal_deadlines_in_order(300_000);
}
