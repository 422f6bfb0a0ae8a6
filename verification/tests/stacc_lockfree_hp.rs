use stacc::links::NULL;
use stacc::stacc_lockfree_hp::{
    len_in, pending_in, protect_in, push_in, register_in, release_in, reusable_in, unlink_in,
    LockFreeStacc,
    Node, Shared, MAX_THREADS, R,
};

#[test]
fn stacc_lockfree_hp_single() {
    let mut s = LockFreeStacc::new();

    for i in 0..4 {
        s.push(i);
    }

    for i in (0..4).rev() {
        assert_eq!(s.pop(), Some(i));
    }

    assert_eq!(s.pop(), None);
}

#[test]
fn hp_node_starts_without_payload() {
    let n: Node<u8> = Node::uninit();
    assert!(n.data.is_none());
    assert_eq!(n.next, NULL);
}

#[test]
fn hp_len_follows_pushes_and_pops() {
    let mut s = LockFreeStacc::new();
    assert_eq!(s.len(), 0);
    for i in 0..10 {
        s.push(i);
    }
    assert_eq!(s.len(), 10);
    assert_eq!(s.pop(), Some(9));
    assert_eq!(s.len(), 9);
}

#[test]
fn hp_handles_share_one_stack() {
    let mut a = LockFreeStacc::new();
    let mut b = a.try_clone().unwrap();
    a.push(1);
    b.push(2);
    assert_eq!(a.pop(), Some(2));
    assert_eq!(b.pop(), Some(1));
    assert_eq!(b.pop(), None);
    b.release();
    a.push(3);
    assert_eq!(a.pop(), Some(3));
}

#[test]
fn hp_takes_no_more_than_its_slots() {
    let first: LockFreeStacc<u8> = LockFreeStacc::new();
    let mut others = Vec::new();
    for _ in 1..MAX_THREADS {
        others.push(first.try_clone().unwrap());
    }
    assert!(first.try_clone().is_none());
    for h in others {
        h.release();
    }
    assert!(first.try_clone().is_none());
}

#[test]
fn hp_retired_list_stays_short() {
    let mut s = LockFreeStacc::new();
    for round in 0..500 {
        s.push(round);
        assert_eq!(s.pop(), Some(round));
        assert!(s.pending() < R);
    }
    assert_eq!(s.len(), 0);
}

#[test]
fn hp_no_loss_under_churn_of_two_handles() {
    let mut a = LockFreeStacc::new();
    let mut b = a.try_clone().unwrap();
    for _ in 0..7 {
        a.push(1);
    }
    for _ in 0..1000 {
        a.push(1);
        b.push(1);
        assert_eq!(b.pop(), Some(1));
        assert_eq!(a.pop(), Some(1));
    }
    assert_eq!(a.len(), 7);
}

#[test]
fn hp_core_scan_keeps_a_published_node() {
    let mut s: Shared<u32> = Shared::new();
    assert_eq!(s.register(), 0);
    assert_eq!(s.register(), 1);
    assert_eq!(s.registered(), 2);
    s.push(0, 10);
    s.push(0, 11);
    assert_eq!(s.nodes(), 2);
    // participant 1 publishes the top node, participant 0 pops it
    assert_eq!(s.protect(1), Some(1));
    assert_eq!(s.published(1), 1);
    assert_eq!(s.pop(0), Some(11));
    assert_eq!(s.pending(0), 1);
    s.scan(0);
    assert_eq!(s.pending(0), 1);
    assert_eq!(s.reusable(0), 0);
    // the stale publication makes the compare-and-swap fail
    assert_eq!(s.unlink(1), None);
    assert_eq!(s.len(), 1);
    // a new publication, and the scan certifies the node
    assert_eq!(s.protect(1), Some(0));
    s.scan(0);
    assert_eq!(s.pending(0), 0);
    assert_eq!(s.reusable(0), 1);
    assert_eq!(s.unlink(1), Some(10));
    assert_eq!(s.published(1), NULL);
    assert_eq!(s.pending(1), 1);
    // the cached node is reused by the next push of participant 0
    s.push(0, 12);
    assert_eq!(s.nodes(), 2);
    assert_eq!(s.reusable(0), 0);
    assert_eq!(s.pop(1), Some(12));
}

#[test]
fn hp_core_scans_at_the_threshold() {
    let mut s: Shared<usize> = Shared::new();
    for i in 0..R {
        s.push(0, i);
    }
    for i in 0..R - 1 {
        assert_eq!(s.pop(0), Some(R - 1 - i));
        assert_eq!(s.pending(0), i + 1);
        assert_eq!(s.reusable(0), 0);
    }
    assert_eq!(s.pop(0), Some(0));
    assert_eq!(s.pending(0), 0);
    assert_eq!(s.reusable(0), R);
    assert_eq!(s.nodes(), R);
}

#[test]
fn hp_core_release_defers_what_is_published() {
    let mut s: Shared<u8> = Shared::new();
    s.push(0, 1);
    s.push(0, 2);
    assert_eq!(s.protect(1), Some(1));
    assert_eq!(s.pop(0), Some(2));
    assert_eq!(s.pop(0), Some(1));
    assert_eq!(s.pending(0), 2);
    s.release(0);
    assert_eq!(s.pending(0), 0);
    assert_eq!(s.reusable(0), 0);
    // node 0 became spare and is taken by the next push; node 1 is deferred
    s.push(2, 3);
    assert_eq!(s.nodes(), 2);
    s.push(2, 4);
    assert_eq!(s.nodes(), 3);
    assert_eq!(s.pop(2), Some(4));
    assert_eq!(s.pop(2), Some(3));
}

#[test]
fn hp_loses_no_value_of_several_producers() {
    let mut main = LockFreeStacc::new();
    let mut producers = Vec::new();
    for _ in 0..4 {
        producers.push(main.try_clone().unwrap());
    }
    for j in 0..100u64 {
        for (i, p) in producers.iter_mut().enumerate() {
            p.push(i as u64 * 100 + j);
        }
    }
    assert_eq!(main.len(), 400);
    let mut sum = 400 * (400 - 1) / 2;
    let mut pops = 0;
    while let Some(x) = main.pop() {
        sum -= x;
        pops += 1;
    }
    assert_eq!(pops, 400);
    assert_eq!(sum, 0);
}

#[test]
fn hp_core_every_node_is_accounted_for() {
    let mut s: Shared<usize> = Shared::new();
    for round in 0..200 {
        let a = round % 5;
        let b = (round + 2) % 5;
        s.push(a, round);
        s.push(b, round);
        if round % 3 == 0 {
            s.protect((round + 1) % 5);
        }
        assert_eq!(s.pop(b), Some(round));
        if round % 7 == 0 {
            assert_eq!(s.pop(a), Some(round));
        }
        if round % 50 == 49 {
            s.release(a);
        }
        let mut kept = 0;
        for p in 0..MAX_THREADS {
            kept += s.pending(p) + s.reusable(p);
            assert!(s.pending(p) < R);
        }
        assert_eq!(s.nodes(), s.len() + kept + s.spares() + s.left_behind());
    }
}

#[test]
fn hp_steps_on_the_slot_under_the_lock() {
    let mut slot = None;
    assert_eq!(len_in::<u8>(&slot), 0);
    assert_eq!(register_in(&mut slot), Some(0));
    assert_eq!(register_in(&mut slot), Some(1));
    push_in(&mut slot, 0, 5);
    push_in(&mut slot, 1, 6);
    assert_eq!(len_in(&slot), 2);
    // without a publication the compare-and-swap does nothing
    assert_eq!(unlink_in(&mut slot, 0), None);
    assert_eq!(protect_in(&mut slot, 0), Some(1));
    assert_eq!(protect_in(&mut slot, 1), Some(1));
    assert_eq!(unlink_in(&mut slot, 1), Some(6));
    assert_eq!(pending_in(&slot, 1), 1);
    // the publication of participant 0 is stale now
    assert_eq!(unlink_in(&mut slot, 0), None);
    assert_eq!(protect_in(&mut slot, 0), Some(0));
    assert_eq!(unlink_in(&mut slot, 0), Some(5));
    assert_eq!(protect_in(&mut slot, 0), None);
    release_in(&mut slot, 1);
    assert_eq!(pending_in(&slot, 1), 0);
    assert_eq!(len_in(&slot), 0);
}

#[test]
fn hp_vacant_slot_stands_for_an_empty_stack() {
    let mut slot = None;
    assert_eq!(pending_in::<u8>(&slot, 3), 0);
    release_in(&mut slot, 3);
    assert!(slot.is_none());
    assert_eq!(protect_in::<u8>(&mut slot, 3), None);
    assert!(slot.is_some());
}

#[test]
fn hp_full_table_registers_nobody() {
    let mut slot = None;
    for id in 0..MAX_THREADS {
        assert_eq!(register_in::<u8>(&mut slot), Some(id));
    }
    assert_eq!(register_in(&mut slot), None);
    assert_eq!(register_in(&mut slot), None);
    push_in(&mut slot, MAX_THREADS - 1, 1);
    assert_eq!(len_in(&slot), 1);
}

#[test]
fn hp_handle_shows_its_cache() {
    let mut s = LockFreeStacc::new();
    assert_eq!(s.reusable(), 0);
    for i in 0..R {
        s.push(i);
    }
    for _ in 0..R {
        assert!(s.pop().is_some());
    }
    assert_eq!(s.pending(), 0);
    assert_eq!(s.reusable(), R);
    s.push(1);
    assert_eq!(s.reusable(), R - 1);
    let mut slot = None;
    push_in(&mut slot, 0, 1u8);
    assert_eq!(reusable_in(&slot, 0), 0);
}
