use loom_ringbuf::laws::{replay, Call};
use loom_ringbuf::ring::{new, Ring};

fn drain_all(r: &mut Ring<u32>) -> Vec<u32> {
    let mut out = Vec::new();
    while let Some(v) = r.pop() {
        out.push(v);
    }
    out
}

#[test]
fn capacity_four_scenario() {
    let mut r = new::<u32>(4);
    assert_eq!(r.push(1), Ok(()));
    assert_eq!(r.push(2), Ok(()));
    assert_eq!(r.push(3), Ok(()));
    assert_eq!(r.push(4), Ok(()));
    assert_eq!(r.push(5), Err(5));
    assert_eq!(r.pop(), Some(1));
    assert_eq!(r.pop(), Some(2));
    assert_eq!(r.pop(), Some(3));
    assert_eq!(r.pop(), Some(4));
    assert_eq!(r.pop(), None);
    assert_eq!(r.push(5), Ok(()));
    assert_eq!(r.pop(), Some(5));
    assert_eq!(r.pop(), None);
}

#[test]
fn full_ring_hands_value_back() {
    let mut r = new::<u64>(2);
    assert_eq!(r.push(10), Ok(()));
    assert_eq!(r.push(20), Ok(()));
    assert_eq!(r.push(0xdead_beef), Err(0xdead_beef));
    assert_eq!(r.push(7), Err(7));
    assert_eq!(r.pop(), Some(10));
    assert_eq!(r.push(30), Ok(()));
    assert_eq!(r.push(40), Err(40));
    assert_eq!(r.pop(), Some(20));
    assert_eq!(r.pop(), Some(30));
    assert_eq!(r.pop(), None);
}

#[test]
fn empty_ring_pops_none() {
    let mut r = new::<u32>(8);
    assert_eq!(r.pop(), None);
    assert_eq!(r.pop(), None);
}

#[test]
fn single_slot_ring() {
    let mut r = new::<i32>(1);
    for v in 0..10 {
        assert_eq!(r.push(v), Ok(()));
        assert_eq!(r.push(-v), Err(-v));
        assert_eq!(r.pop(), Some(v));
        assert_eq!(r.pop(), None);
    }
}

#[test]
fn many_laps_keep_order_without_loss() {
    let mut r = new::<u32>(8);
    let mut next: u32 = 0;
    let mut popped = Vec::new();
    for round in 0..200u32 {
        let pushes = round % 9;
        for _ in 0..pushes {
            if r.push(next).is_ok() {
                next += 1;
            }
        }
        for _ in 0..(round % 7) {
            if let Some(v) = r.pop() {
                popped.push(v);
            }
        }
    }
    popped.extend(drain_all(&mut r));
    let expected: Vec<u32> = (0..next).collect();
    assert_eq!(popped, expected);
    assert!(next > 100);
}

#[test]
fn fills_exactly_to_capacity_each_lap() {
    let mut r = new::<u32>(4);
    for lap in 0..5u32 {
        for i in 0..4 {
            assert_eq!(r.push(lap * 10 + i), Ok(()));
        }
        assert_eq!(r.push(99), Err(99));
        assert_eq!(drain_all(&mut r), vec![lap * 10, lap * 10 + 1, lap * 10 + 2, lap * 10 + 3]);
    }
}

#[test]
fn extra_epoch_advance_keeps_published_values() {
    let mut r = new::<u32>(4);
    assert_eq!(r.push(1), Ok(()));
    assert_eq!(r.push(2), Ok(()));
    r.advance_epoch();
    r.advance_epoch();
    assert_eq!(r.pop(), Some(1));
    r.advance_epoch();
    assert_eq!(r.pop(), Some(2));
    assert_eq!(r.pop(), None);
}

#[test]
fn extra_epoch_advance_mid_lap_refuses_pushes_unchanged() {
    // Slot 0 is a lap ahead of slots 1..3 here; moving the epoch on makes the
    // next free slots unclaimable, which costs liveness but never a value.
    let mut r = new::<u32>(4);
    assert_eq!(r.push(1), Ok(()));
    assert_eq!(r.pop(), Some(1));
    r.advance_epoch();
    for v in 2..12 {
        assert_eq!(r.push(v), Err(v));
    }
    assert_eq!(r.pop(), None);
}

#[test]
fn extra_epoch_advance_at_lap_end_keeps_ring_live() {
    let mut r = new::<u32>(4);
    for v in 1..5 {
        assert_eq!(r.push(v), Ok(()));
    }
    assert_eq!(drain_all(&mut r), vec![1, 2, 3, 4]);
    r.advance_epoch();
    assert_eq!(r.push(5), Ok(()));
    assert_eq!(r.push(6), Ok(()));
    assert_eq!(r.pop(), Some(5));
    assert_eq!(r.pop(), Some(6));
    assert_eq!(r.pop(), None);
}

#[test]
fn replay_returns_every_accepted_value_once_in_order() {
    let mut r = new::<u32>(8);
    let mut calls = Vec::new();
    for producer in 0..4u32 {
        for n in 0..1024u32 {
            calls.push(Call::Push(producer * 1024 + n));
        }
    }
    // interleave the four producers and a consumer that pops after every push
    let mut mixed = Vec::new();
    for n in 0..1024usize {
        for producer in 0..4usize {
            match &calls[producer * 1024 + n] {
                Call::Push(v) => mixed.push(Call::Push(*v)),
                _ => unreachable!(),
            }
            mixed.push(Call::Pop);
        }
    }
    let (accepted, mut popped) = replay(&mut r, &mixed);
    assert_eq!(accepted.len(), 4096);
    while let Some(v) = r.pop() {
        popped.push(v);
    }
    assert_eq!(popped.len(), 4096);
    assert_eq!(popped, accepted);
    let mut sorted = popped.clone();
    sorted.sort();
    sorted.dedup();
    assert_eq!(sorted.len(), 4096);
}

#[test]
fn replay_with_backpressure_and_epoch_advances() {
    let mut r = new::<u32>(4);
    let calls = vec![
        Call::Push(1),
        Call::Push(2),
        Call::Push(3),
        Call::Push(4),
        Call::Push(5),
        Call::AdvanceEpoch,
        Call::Pop,
        Call::Pop,
        Call::Push(6),
        Call::Pop,
    ];
    let (accepted, popped) = replay(&mut r, &calls);
    assert_eq!(accepted, vec![1, 2, 3, 4, 6]);
    assert_eq!(popped, vec![1, 2, 3]);
    assert_eq!(drain_all(&mut r), vec![4, 6]);
}

#[test]
fn replay_extra_advances_do_not_change_pops() {
    let mut plain = Vec::new();
    let mut advanced = Vec::new();
    for v in 1..5u32 {
        plain.push(Call::Push(v));
        advanced.push(Call::Push(v));
    }
    for _ in 0..4 {
        plain.push(Call::Pop);
        advanced.push(Call::Pop);
    }
    advanced.push(Call::AdvanceEpoch);
    for calls in [&mut plain, &mut advanced] {
        calls.push(Call::Push(5));
        calls.push(Call::Pop);
        calls.push(Call::Pop);
    }
    let mut a = new::<u32>(4);
    let mut b = new::<u32>(4);
    let (acc_a, pop_a) = replay(&mut a, &plain);
    let (acc_b, pop_b) = replay(&mut b, &advanced);
    assert_eq!(acc_a, vec![1, 2, 3, 4, 5]);
    assert_eq!(pop_a, vec![1, 2, 3, 4, 5]);
    assert_eq!(acc_b, acc_a);
    assert_eq!(pop_b, pop_a);
}
