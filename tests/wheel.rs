use wasm_timer::wheel::{level_for, InsertError, Wheel};

#[test]
fn test_level_for() {
    for pos in 0..64u64 {
        assert_eq!(0, level_for(0, pos), "level_for({}) -- binary = {:b}", pos, pos);
    }

    for level in 1..5usize {
        for pos in level..64 {
            let a = pos * 64_usize.pow(level as u32);
            assert_eq!(level, level_for(0, a as u64), "level_for({}) -- binary = {:b}", a, a);

            if pos > level {
                let a = a - 1;
                assert_eq!(level, level_for(0, a as u64), "level_for({}) -- binary = {:b}", a, a);
            }

            if pos < 64 {
                let a = a + 1;
                assert_eq!(level, level_for(0, a as u64), "level_for({}) -- binary = {:b}", a, a);
            }
        }
    }
}

#[test]
fn level_for_caps_at_top_level() {
    assert_eq!(5, level_for(0, 1u64 << 40));
    assert_eq!(5, level_for(0, u64::MAX));
}

#[test]
fn wheel_rejects_past_and_far_deadlines() {
    let mut wheel = Wheel::new();
    assert_eq!(Err(InsertError::Elapsed), wheel.insert(0, 1));
    assert_eq!(Err(InsertError::Invalid), wheel.insert(1u64 << 36, 2));
    assert_eq!(Ok(()), wheel.insert((1u64 << 36) - 1, 3));
    assert_eq!(None, wheel.poll(10));
}

#[test]
fn wheel_hands_out_in_deadline_order() {
    let mut wheel = Wheel::new();
    wheel.insert(300, 1).unwrap();
    wheel.insert(5, 2).unwrap();
    wheel.insert(70, 3).unwrap();
    assert_eq!(Some(5), wheel.poll_at());
    assert_eq!(None, wheel.poll(4));
    assert_eq!(Some((2, 5)), wheel.poll(400));
    assert_eq!(Some((3, 70)), wheel.poll(400));
    assert_eq!(Some((1, 300)), wheel.poll(400));
    assert_eq!(None, wheel.poll(400));
    assert_eq!(None, wheel.poll_at());
    assert_eq!(400, wheel.elapsed());
}

#[test]
fn wheel_remove_takes_entry_out() {
    let mut wheel = Wheel::new();
    wheel.insert(100, 1).unwrap();
    wheel.insert(100, 2).unwrap();
    wheel.remove(1, 100);
    assert_eq!(Some((2, 100)), wheel.poll(100));
    assert_eq!(None, wheel.poll(1000));
}

#[test]
fn wheel_same_slot_keeps_insertion_order() {
    let mut wheel = Wheel::new();
    wheel.insert(10, 1).unwrap();
    wheel.insert(10, 2).unwrap();
    assert_eq!(Some((1, 10)), wheel.poll(10));
    assert_eq!(Some((2, 10)), wheel.poll(10));
}

#[test]
fn wheel_entry_on_slot_boundary_is_not_delayed() {
    let mut wheel = Wheel::new();
    wheel.insert(128, 1).unwrap();
    assert_eq!(Some((1, 128)), wheel.poll(128));
}

#[test]
fn wheel_top_level_near_entry_comes_before_far_one() {
    let mut wheel = Wheel::new();
    let span: u64 = 1 << 30;
    // Move the wheel's time to the start of a top-level slot.
    wheel.insert(span, 1).unwrap();
    assert_eq!(Some((1, span)), wheel.poll(span));
    assert_eq!(span, wheel.elapsed());
    let far = span + 64 * span - 1;
    let near = span + span + 5;
    wheel.insert(far, 2).unwrap();
    wheel.insert(near, 3).unwrap();
    assert_eq!(None, wheel.poll(near - 1));
    assert_eq!(Some((3, near)), wheel.poll(near));
    assert_eq!(Some((2, far)), wheel.poll(far));
}
