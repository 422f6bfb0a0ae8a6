use stacc::links::NULL;
use stacc::stacc_lockfree_ebr::{
    end_shared_section_in, len_in, mark_use_in, observe_in, push_in, register_in, release_in,
    unlink_in, Local, Node, Shared, MAX_THREADS,
};

#[test]
fn ebr_single() {
    let mut s = Local::new();

    for i in 0..4 {
        s.push(i);
    }

    for i in (0..4).rev() {
        assert_eq!(s.pop(), Some(i));
    }

    assert_eq!(s.pop(), None);
}

#[test]
fn ebr_node_starts_without_payload() {
    let n: Node<String> = Node::uninit();
    assert!(n.data.is_none());
}

#[test]
fn ebr_handles_share_one_stack() {
    let mut a = Local::new();
    let mut b = a.try_clone().unwrap();
    a.push("x");
    b.push("y");
    assert_eq!(b.len(), 2);
    assert_eq!(a.pop(), Some("y"));
    assert_eq!(b.pop(), Some("x"));
    assert_eq!(a.pop(), None);
    assert_eq!(a.len(), 0);
    a.release();
    b.push("z");
    assert_eq!(b.pop(), Some("z"));
}

#[test]
fn ebr_takes_no_more_than_its_slots() {
    let first: Local<u8> = Local::new();
    let mut others = Vec::new();
    for _ in 1..MAX_THREADS {
        others.push(first.try_clone().unwrap());
    }
    assert!(first.try_clone().is_none());
}

#[test]
fn ebr_no_loss_under_churn_of_two_handles() {
    let mut a = Local::new();
    let mut b = a.try_clone().unwrap();
    for i in 0..1000 {
        a.push(i);
        b.push(i);
        assert_eq!(b.pop(), Some(i));
        assert_eq!(a.pop(), Some(i));
    }
    assert_eq!(a.pop(), None);
}

#[test]
fn ebr_core_epoch_advances_when_all_have_seen_it() {
    let mut s: Shared<u8> = Shared::new();
    assert_eq!(s.register(), 0);
    assert_eq!(s.register(), 1);
    assert_eq!(s.registered(), 2);
    assert_eq!(s.current_epoch(), 0);
    assert_eq!(s.start_shared_section(0), (0, 0));
    assert_eq!(s.current_epoch(), 1);
    // participant 0 is checked in at epoch 0: the epoch cannot move on
    assert_eq!(s.start_shared_section(1), (0, 1));
    assert_eq!(s.current_epoch(), 1);
    assert_eq!(s.start_shared_section(1), (1, 1));
    assert_eq!(s.current_epoch(), 1);
    s.end_shared_section(0);
    assert_eq!(s.start_shared_section(1), (1, 1));
    assert_eq!(s.current_epoch(), 2);
    s.end_shared_section(1);
    assert_eq!(s.start_shared_section(0), (0, 2));
    assert_eq!(s.current_epoch(), 3);
}

#[test]
fn ebr_core_retired_node_waits_three_epochs() {
    let mut s: Shared<u32> = Shared::new();
    for i in 0..5 {
        s.push(0, i);
    }
    assert_eq!(s.nodes(), 5);
    assert_eq!(s.pop(0), Some(4));
    assert_eq!((s.pending(0, 0), s.pending(0, 1), s.pending(0, 2)), (0, 0, 1));
    assert_eq!(s.pop(0), Some(3));
    assert_eq!((s.pending(0, 0), s.pending(0, 1), s.pending(0, 2)), (0, 1, 1));
    assert_eq!(s.pop(0), Some(2));
    assert_eq!((s.pending(0, 0), s.pending(0, 1), s.pending(0, 2)), (1, 1, 1));
    assert_eq!(s.reusable(0), 0);
    assert_eq!(s.pop(0), Some(1));
    assert_eq!((s.pending(0, 0), s.pending(0, 1), s.pending(0, 2)), (1, 1, 1));
    assert_eq!(s.reusable(0), 1);
    // the node certified first is the one used by the next push
    s.push(0, 9);
    assert_eq!(s.nodes(), 5);
    assert_eq!(s.reusable(0), 0);
    assert_eq!(s.len(), 2);
}

#[test]
fn ebr_core_parked_participant_delays_reclamation() {
    let mut s: Shared<u32> = Shared::new();
    for i in 0..8 {
        s.push(0, i);
    }
    // participant 1 checks in and stays
    s.mark_use(1);
    let before = s.current_epoch();
    for i in (0..8).rev() {
        assert_eq!(s.pop(0), Some(i));
    }
    assert!(s.current_epoch() <= before + 1);
    assert_eq!(s.reusable(0), 0);
    // once it has checked out, the others drain their limbo
    s.end_shared_section(1);
    for _ in 0..4 {
        assert_eq!(s.pop(0), None);
    }
    assert_eq!((s.pending(0, 0), s.pending(0, 1), s.pending(0, 2)), (0, 0, 0));
    assert_eq!(s.reusable(0), 8);
}

#[test]
fn ebr_core_release_gives_the_nodes_back() {
    let mut s: Shared<u32> = Shared::new();
    s.push(0, 1);
    s.push(0, 2);
    assert_eq!(s.pop(0), Some(2));
    assert_eq!(s.pop(0), Some(1));
    s.release(0);
    assert_eq!((s.pending(0, 0), s.pending(0, 1), s.pending(0, 2)), (0, 0, 0));
    assert_eq!(s.reusable(0), 0);
    s.push(1, 3);
    assert_eq!(s.nodes(), 3);
    assert_eq!(s.pop(1), Some(3));
}

#[test]
fn ebr_core_pop_in_steps() {
    let mut s: Shared<u32> = Shared::new();
    s.push(0, 5);
    s.push(0, 6);
    s.mark_use(1);
    assert_eq!(s.observe(1), Some(1));
    assert_eq!(s.unlink(1), Some(6));
    assert_eq!((s.pending(1, 0), s.pending(1, 1), s.pending(1, 2)), (0, 0, 1));
    // nothing is observed any more: the compare-and-swap does nothing
    assert_eq!(s.unlink(1), None);
    assert_eq!(s.len(), 1);
}

#[test]
fn ebr_core_stale_observation_fails_and_delays_reuse() {
    let mut s: Shared<u32> = Shared::new();
    s.push(0, 5);
    s.mark_use(1);
    assert_eq!(s.observe(1), Some(0));
    // participant 0 takes the node away under the eyes of participant 1
    assert_eq!(s.pop(0), Some(5));
    for _ in 0..5 {
        assert_eq!(s.pop(0), None);
    }
    assert_eq!(s.reusable(0), 0);
    s.push(0, 7);
    assert_eq!(s.nodes(), 2);
    assert_eq!(s.unlink(1), None);
    assert_eq!(s.len(), 1);
    // participant 1 checks out; now the node is certified and reused
    s.end_shared_section(1);
    for _ in 0..4 {
        s.mark_use(0);
    }
    assert_eq!(s.reusable(0), 1);
    s.push(0, 8);
    assert_eq!(s.nodes(), 2);
    assert_eq!(s.observe(0), Some(0));
    assert_ne!(s.observe(0), Some(NULL));
}

#[test]
fn ebr_loses_no_value_of_several_producers() {
    let mut main = Local::new();
    let mut producers = Vec::new();
    for _ in 0..4 {
        producers.push(main.try_clone().unwrap());
    }
    for j in 0..100u64 {
        for (i, p) in producers.iter_mut().enumerate() {
            p.push(i as u64 * 100 + j);
        }
    }
    assert_eq!(main.len(), 400);
    let mut sum = 400 * (400 - 1) / 2;
    let mut pops = 0;
    while let Some(x) = main.pop() {
        sum -= x;
        pops += 1;
    }
    assert_eq!(pops, 400);
    assert_eq!(sum, 0);
}

#[test]
fn ebr_core_every_node_is_accounted_for() {
    let mut s: Shared<usize> = Shared::new();
    for round in 0..200 {
        let a = round % 5;
        let b = (round + 2) % 5;
        s.push(a, round);
        s.push(b, round);
        assert_eq!(s.pop(b), Some(round));
        if round % 7 == 0 {
            assert_eq!(s.pop(a), Some(round));
        }
        if round % 50 == 49 {
            s.release(a);
        }
        let mut kept = 0;
        for p in 0..MAX_THREADS {
            kept += s.pending(p, 0) + s.pending(p, 1) + s.pending(p, 2) + s.reusable(p);
        }
        assert_eq!(s.nodes(), s.len() + kept + s.spares() + s.left_behind());
    }
}

#[test]
fn ebr_steps_on_the_slot_under_the_lock() {
    let mut slot = None;
    assert_eq!(len_in::<u8>(&slot), 0);
    assert_eq!(register_in(&mut slot), Some(0));
    push_in(&mut slot, 0, 5);
    push_in(&mut slot, 1, 6);
    assert_eq!(len_in(&slot), 2);
    // a participant that has not checked in observes nothing
    assert_eq!(observe_in(&mut slot, 0), None);
    mark_use_in(&mut slot, 0);
    mark_use_in(&mut slot, 1);
    assert_eq!(observe_in(&mut slot, 0), Some(1));
    assert_eq!(observe_in(&mut slot, 1), Some(1));
    assert_eq!(unlink_in(&mut slot, 1), Some(6));
    // what participant 0 has observed is stale now
    assert_eq!(unlink_in(&mut slot, 0), None);
    assert_eq!(observe_in(&mut slot, 0), Some(0));
    assert_eq!(unlink_in(&mut slot, 0), Some(5));
    // it has checked out with the pop
    assert_eq!(observe_in(&mut slot, 0), None);
    release_in(&mut slot, 1);
    assert_eq!(len_in(&slot), 0);
}

#[test]
fn ebr_vacant_slot_stands_for_an_empty_stack() {
    let mut slot = None;
    release_in::<u8>(&mut slot, 3);
    assert!(slot.is_none());
    mark_use_in::<u8>(&mut slot, 3);
    assert!(slot.is_some());
    assert_eq!(observe_in(&mut slot, 3), None);
    assert_eq!(unlink_in(&mut slot, 3), None);
}

#[test]
fn ebr_full_table_registers_nobody() {
    let mut slot = None;
    for id in 0..MAX_THREADS {
        assert_eq!(register_in::<u8>(&mut slot), Some(id));
    }
    assert_eq!(register_in(&mut slot), None);
    assert_eq!(len_in(&slot), 0);
}

#[test]
fn ebr_core_pop_checks_out_on_an_empty_stack() {
    let mut s: Shared<u8> = Shared::new();
    assert_eq!(s.pop(0), None);
    // participant 0 rests; it is checked out, so the epoch moves on
    let before = s.current_epoch();
    assert_eq!(s.observe(0), None);
    assert_eq!(s.pop(1), None);
    assert_eq!(s.pop(1), None);
    assert_eq!(s.current_epoch(), before + 2);
    s.push(1, 5);
    assert_eq!(s.pop(1), Some(5));
    assert_eq!(s.pop(1), None);
    assert_eq!(s.pop(1), None);
    assert_eq!(s.pop(1), None);
    assert_eq!(s.reusable(1), 1);
}

#[test]
fn ebr_handle_that_rests_does_not_hold_the_others_back() {
    let mut a = Local::new();
    let mut b = a.try_clone().unwrap();
    assert_eq!(a.pop(), None::<u8>);
    for i in 0..10 {
        b.push(i);
    }
    for i in (0..10).rev() {
        assert_eq!(b.pop(), Some(i));
    }
    for _ in 0..3 {
        assert_eq!(b.pop(), None);
    }
    // every node that b retired was certified and is used again
    for i in 0..10 {
        b.push(i);
    }
    assert_eq!(b.len(), 10);
}

#[test]
fn ebr_check_out_on_the_slot_under_the_lock() {
    let mut slot = None;
    end_shared_section_in::<u8>(&mut slot, 2);
    assert!(slot.is_none());
    push_in(&mut slot, 0, 1u8);
    mark_use_in(&mut slot, 2);
    assert_eq!(observe_in(&mut slot, 2), Some(0));
    end_shared_section_in(&mut slot, 2);
    assert_eq!(observe_in(&mut slot, 2), None);
    assert_eq!(unlink_in(&mut slot, 2), None);
    assert_eq!(len_in(&slot), 1);
}
