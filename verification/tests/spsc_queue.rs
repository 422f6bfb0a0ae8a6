use stacc::spsc_queue::{both_ends, len_in, pop_in, push_in, queue, QueueInner, SLOTS};

#[test]
fn queue_is_first_in_first_out() {
    let (mut tx, mut rx) = queue();
    assert_eq!(rx.pop(), None::<u32>);
    for i in 0..10 {
        assert_eq!(tx.push(i), None);
    }
    assert_eq!(tx.len(), 10);
    assert_eq!(rx.len(), 10);
    for i in 0..10 {
        assert_eq!(rx.pop(), Some(i));
    }
    assert_eq!(rx.pop(), None);
    assert_eq!(tx.len(), 0);
}

#[test]
fn queue_is_full_one_short_of_its_slots() {
    let (mut tx, mut rx) = queue();
    for i in 0..SLOTS - 1 {
        assert_eq!(tx.push(i), None);
    }
    assert_eq!(tx.len(), SLOTS - 1);
    assert_eq!(tx.push(1000), Some(1000));
    assert_eq!(rx.pop(), Some(0));
    assert_eq!(tx.push(1000), None);
    assert_eq!(tx.push(1001), Some(1001));
    assert_eq!(rx.len(), SLOTS - 1);
}

#[test]
fn queue_wraps_around() {
    let mut q = QueueInner::new();
    for round in 0..3 * SLOTS {
        assert_eq!(q.push(round), None);
        assert_eq!(q.push(round + 1), None);
        assert_eq!(q.len(), 2);
        assert_eq!(q.pop(), Some(round));
        assert_eq!(q.pop(), Some(round + 1));
    }
    assert_eq!(q.len(), 0);
    assert_eq!(q.pop(), None);
}

#[test]
fn queue_knows_when_the_other_side_is_gone() {
    let (tx, rx) = queue::<u8>();
    assert!(tx.other_side_alive());
    assert!(rx.other_side_alive());
    drop(rx);
    assert!(!tx.other_side_alive());
    let (tx, rx) = queue::<u8>();
    drop(tx);
    assert!(!rx.other_side_alive());
}

#[test]
fn two_owners_make_both_ends() {
    assert!(both_ends(2));
    assert!(!both_ends(1));
    assert!(!both_ends(3));
}

#[test]
fn queue_steps_on_the_slot_under_the_lock() {
    let mut slot = None;
    assert_eq!(len_in::<u8>(&slot), 0);
    assert_eq!(pop_in::<u8>(&mut slot), None);
    assert!(slot.is_some());
    assert_eq!(push_in(&mut slot, 1), None);
    assert_eq!(push_in(&mut slot, 2), None);
    assert_eq!(len_in(&slot), 2);
    assert_eq!(pop_in(&mut slot), Some(1));
    assert_eq!(pop_in(&mut slot), Some(2));
    assert_eq!(pop_in(&mut slot), None);
}
