use stacc::stacc::{
    len_in, make_room_in, refill_in, try_pop_in, try_push_in, AtomicPop, AtomicPush, Stacc,
    StaccInner,
};

#[test]
fn tests_single() {
    let v = Stacc::new(4);

    for i in 0..4 {
        assert_eq!(v.push(i), None);
    }
    for i in (0..4).rev() {
        let x = v.pop();
        assert_eq!(x, Some(i));
    }
}

#[test]
fn stacc_reports_empty_after_draining() {
    let v = Stacc::new(3);
    assert_eq!(v.pop(), None::<u32>);
    for i in 0..3 {
        assert_eq!(v.push(i), None);
    }
    assert_eq!(v.len(), 3);
    for i in (0..3).rev() {
        assert_eq!(v.pop(), Some(i));
    }
    assert_eq!(v.pop(), None);
    assert_eq!(v.len(), 0);
}

#[test]
fn stacc_holds_twice_its_buffer_size() {
    let v = Stacc::new(3);
    for i in 0..6 {
        assert_eq!(v.push(i), None);
        assert_eq!(v.len(), i + 1);
    }
    assert_eq!(v.push(6), Some(6));
    assert_eq!(v.push(7), Some(7));
    assert_eq!(v.len(), 6);
    let mut out = Vec::new();
    while let Some(x) = v.pop() {
        out.push(x);
    }
    assert_eq!(out, vec![2, 1, 0, 5, 4, 3]);
    assert_eq!(v.len(), 0);
    assert_eq!(v.pop(), None);
}

#[test]
fn stacc_of_no_capacity_turns_every_push_away() {
    let v = Stacc::new(0);
    assert_eq!(v.push(9), Some(9));
    assert_eq!(v.len(), 0);
    assert_eq!(v.pop(), None);
}

#[test]
fn stacc_clones_share_one_stack() {
    let a = Stacc::new(2);
    let b = a.clone();
    assert_eq!(a.push(1), None);
    assert_eq!(b.push(2), None);
    assert_eq!(a.len(), 2);
    assert_eq!(b.len(), 2);
    assert_eq!(b.pop(), Some(2));
    assert_eq!(a.pop(), Some(1));
    assert_eq!(b.pop(), None);
}

#[test]
fn stacc_keeps_count_under_balanced_churn() {
    let v = Stacc::new(8);
    for _ in 0..5 {
        assert_eq!(v.push(1), None);
    }
    let w = v.clone();
    for _ in 0..1000 {
        assert_eq!(v.push(1), None);
        assert_eq!(w.push(1), None);
        assert_eq!(w.pop(), Some(1));
        assert_eq!(v.push(1), None);
        assert_eq!(v.pop(), Some(1));
        assert_eq!(w.pop(), Some(1));
    }
    assert_eq!(v.len(), 5);
}

#[test]
fn stacc_loses_no_value() {
    let v = Stacc::new(64);
    let producers = [v.clone(), v.clone(), v.clone(), v.clone()];
    for j in 0..32u64 {
        for (i, p) in producers.iter().enumerate() {
            assert_eq!(p.push(i as u64 * 32 + j), None);
        }
    }
    let mut sum = 128 * (128 - 1) / 2;
    let mut pops = 0;
    while let Some(x) = v.pop() {
        sum -= x;
        pops += 1;
    }
    assert_eq!(pops, 128);
    assert_eq!(sum, 0);
}

#[test]
fn inner_swaps_roles_when_one_side_is_exhausted() {
    let mut s = StaccInner::new(2);
    assert_eq!(s.push('a'), None);
    assert_eq!(s.push('b'), None);
    assert_eq!(s.push('c'), None);
    assert_eq!(s.len(), 3);
    assert_eq!(s.pop(), Some('b'));
    assert_eq!(s.pop(), Some('a'));
    assert_eq!(s.pop(), Some('c'));
    assert_eq!(s.pop(), None);
    s.swap_stacks();
    assert_eq!(s.len(), 0);
}

#[test]
fn atomic_push_is_clamped_at_capacity() {
    let mut p = AtomicPush::new(2);
    assert_eq!(p.push(1), None);
    assert_eq!(p.push(2), None);
    assert_eq!(p.push(3), Some(3));
    assert_eq!(p.push(4), Some(4));
}

#[test]
fn atomic_pop_is_clamped_at_zero() {
    let mut p: AtomicPop<u8> = AtomicPop::new(2);
    assert_eq!(p.pop(), None);
    assert_eq!(p.pop(), None);
}

#[test]
fn inner_steps_interleave() {
    let mut s = StaccInner::new(1);
    // one handle fills the push buffer, another finds it full
    assert_eq!(s.try_push(1), None);
    assert_eq!(s.try_push(2), Some(2));
    // before it exchanges the roles, a third one does, and pushes
    assert!(s.make_room());
    assert_eq!(s.try_push(3), None);
    // now both buffers are full: no room is made, and the push is turned away
    assert!(!s.make_room());
    assert_eq!(s.try_push(2), Some(2));
    assert_eq!(s.len(), 2);
    assert_eq!(s.try_pop(), Some(1));
    assert_eq!(s.try_pop(), None);
    assert!(s.refill());
    assert_eq!(s.try_pop(), Some(3));
    assert!(!s.refill());
    assert_eq!(s.try_pop(), None);
}

#[test]
fn stacc_steps_on_the_slot_under_the_lock() {
    let mut slot = None;
    assert_eq!(len_in::<u8>(&slot, 1), 0);
    assert_eq!(try_push_in(&mut slot, 1, 1), None);
    assert_eq!(try_push_in(&mut slot, 1, 2), Some(2));
    assert!(make_room_in(&mut slot, 1));
    assert_eq!(try_push_in(&mut slot, 1, 2), None);
    assert!(!make_room_in(&mut slot, 1));
    assert_eq!(len_in(&slot, 1), 2);
    assert_eq!(try_pop_in(&mut slot, 1), Some(1));
    assert_eq!(try_pop_in(&mut slot, 1), None);
    assert!(refill_in(&mut slot, 1));
    assert_eq!(try_pop_in(&mut slot, 1), Some(2));
    assert!(!refill_in(&mut slot, 1));
}

#[test]
fn stacc_vacant_slot_stands_for_empty_buffers() {
    let mut slot = None;
    assert!(!refill_in::<u8>(&mut slot, 2));
    assert!(slot.is_some());
    let mut slot = None;
    assert_eq!(try_pop_in::<u8>(&mut slot, 0), None);
    assert_eq!(try_push_in(&mut slot, 0, 1), Some(1));
}

#[test]
fn stacc_swaps_for_a_push_only_when_the_pop_buffer_is_drained() {
    let v = Stacc::new(2);
    for i in 0..4 {
        assert_eq!(v.push(i), None);
    }
    assert_eq!(v.pop(), Some(1));
    // the push buffer is full and the pop buffer still holds a value
    assert_eq!(v.push(4), Some(4));
    assert_eq!(v.len(), 3);
    assert_eq!(v.pop(), Some(0));
    // now the pop buffer is drained: the roles are exchanged for the push
    assert_eq!(v.push(4), None);
    assert_eq!(v.len(), 3);
    assert_eq!(v.pop(), Some(3));
    assert_eq!(v.pop(), Some(2));
    assert_eq!(v.pop(), Some(4));
    assert_eq!(v.pop(), None);
}
