use stacc::stacc_lockfree::{
    announce_in, len_in, push_in, register_in, release_in, retract_in, unlink_in, Stacc,
    StaccInner,
};

#[test]
fn counting_single() {
    let mut s = Stacc::new();
    for i in 0..4 {
        s.push(i);
    }
    assert_eq!(s.len(), 4);
    for i in (0..4).rev() {
        assert_eq!(s.pop(), Some(i));
    }
    assert_eq!(s.pop(), None);
    assert_eq!(s.len(), 0);
}

#[test]
fn counting_clones_share_one_stack() {
    let mut a = Stacc::new();
    let mut b = a.clone();
    a.push(1);
    b.push(2);
    assert_eq!(a.len(), 2);
    assert_eq!(a.pop(), Some(2));
    assert_eq!(b.pop(), Some(1));
    assert_eq!(a.pop(), None);
    b.release();
    a.push(5);
    assert_eq!(a.pop(), Some(5));
}

#[test]
fn counting_no_loss_under_churn_of_two_handles() {
    let mut a = Stacc::new();
    let mut b = a.clone();
    for _ in 0..3 {
        a.push(1);
    }
    for _ in 0..1000 {
        a.push(1);
        b.push(1);
        assert_eq!(b.pop(), Some(1));
        assert_eq!(a.pop(), Some(1));
    }
    assert_eq!(a.len(), 3);
}

#[test]
fn counting_core_reuses_a_node_with_count_zero() {
    let mut s: StaccInner<u8> = StaccInner::new();
    assert_eq!(s.register(), 0);
    s.push(0, 1);
    assert_eq!(s.nodes(), 1);
    assert_eq!(s.pop(0), Some(1));
    assert_eq!(s.count_of(0), 0);
    assert_eq!(s.waiting(), 0);
    s.push(0, 2);
    assert_eq!(s.nodes(), 1);
    assert_eq!(s.pop(0), Some(2));
}

#[test]
fn counting_core_announced_node_is_not_reused() {
    let mut s: StaccInner<u8> = StaccInner::new();
    assert_eq!(s.register(), 0);
    assert_eq!(s.register(), 1);
    s.push(0, 7);
    // handle 1 announces the top node, handle 0 pops it
    assert_eq!(s.announce(), Some(0));
    assert_eq!(s.count_of(0), 1);
    assert_eq!(s.pop(0), Some(7));
    assert_eq!(s.count_of(0), 1);
    assert_eq!(s.waiting(), 1);
    // the compare-and-swap of handle 1 fails, and the node is not reused
    assert_eq!(s.unlink(1, 0), None);
    s.push(0, 8);
    assert_eq!(s.nodes(), 2);
    s.sweep();
    assert_eq!(s.waiting(), 1);
    // once the announcement is retracted, a sweep frees the node
    s.retract(0);
    assert_eq!(s.count_of(0), 0);
    s.sweep();
    assert_eq!(s.waiting(), 0);
    assert_eq!(s.spares(), 1);
    s.push(1, 9);
    assert_eq!(s.nodes(), 2);
    assert_eq!(s.pop(1), Some(9));
    assert_eq!(s.pop(1), Some(8));
    assert_eq!(s.pop(1), None);
}

#[test]
fn counting_core_release_gives_the_nodes_back() {
    let mut s: StaccInner<u8> = StaccInner::new();
    assert_eq!(s.register(), 0);
    assert_eq!(s.register(), 1);
    s.push(0, 1);
    s.push(0, 2);
    assert_eq!(s.pop(0), Some(2));
    assert_eq!(s.pop(0), Some(1));
    assert_eq!(s.spares(), 0);
    s.release(0);
    assert_eq!(s.spares(), 2);
    s.push(1, 3);
    assert_eq!(s.nodes(), 2);
    assert_eq!(s.spares(), 1);
}

#[test]
fn counting_core_unregistered_handle_keeps_nothing() {
    let mut s: StaccInner<u8> = StaccInner::new();
    s.push(5, 1);
    assert_eq!(s.pop(5), Some(1));
    assert_eq!(s.waiting(), 1);
    s.sweep();
    assert_eq!(s.waiting(), 0);
    assert_eq!(s.spares(), 1);
}

#[test]
fn counting_loses_no_value_of_several_producers() {
    let mut main = Stacc::new();
    let mut producers = vec![main.clone(), main.clone(), main.clone(), main.clone()];
    for j in 0..100u64 {
        for (i, p) in producers.iter_mut().enumerate() {
            p.push(i as u64 * 100 + j);
        }
    }
    assert_eq!(main.len(), 400);
    let mut sum = 400 * (400 - 1) / 2;
    let mut pops = 0;
    while let Some(x) = main.pop() {
        sum -= x;
        pops += 1;
    }
    assert_eq!(pops, 400);
    assert_eq!(sum, 0);
}

#[test]
fn counting_steps_on_the_slot_under_the_lock() {
    let mut slot = None;
    assert_eq!(len_in::<u8>(&slot), 0);
    assert_eq!(register_in(&mut slot), 0);
    assert_eq!(register_in(&mut slot), 1);
    push_in(&mut slot, 0, 5);
    push_in(&mut slot, 1, 6);
    assert_eq!(len_in(&slot), 2);
    assert_eq!(announce_in(&mut slot), Some(1));
    assert_eq!(announce_in(&mut slot), Some(1));
    assert_eq!(unlink_in(&mut slot, 1, 1), Some(6));
    // the other announcement is for a node that is no longer on top
    assert_eq!(unlink_in(&mut slot, 0, 1), None);
    retract_in(&mut slot, 1);
    // a second retraction finds no announcement, and does nothing
    retract_in(&mut slot, 1);
    retract_in(&mut slot, 77);
    assert_eq!(announce_in(&mut slot), Some(0));
    assert_eq!(unlink_in(&mut slot, 0, 0), Some(5));
    assert_eq!(announce_in(&mut slot), None);
    release_in(&mut slot, 0);
    // the node that was announced twice became spare, and is used again
    push_in(&mut slot, 1, 9);
    assert_eq!(announce_in(&mut slot), Some(1));
}

#[test]
fn counting_vacant_slot_stands_for_an_empty_stack() {
    let mut slot = None;
    release_in::<u8>(&mut slot, 0);
    retract_in::<u8>(&mut slot, 0);
    assert!(slot.is_none());
    assert_eq!(announce_in::<u8>(&mut slot), None);
    assert!(slot.is_some());
}
