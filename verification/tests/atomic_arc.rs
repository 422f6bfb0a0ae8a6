use stacc::atomic_arc::{exchange_if, holds, load_from, swap_in, AtomicArc};
use std::sync::Arc;

#[test]
fn load_gives_one_more_owner_of_the_same_value() {
    let a = Arc::new(5);
    let slot = AtomicArc::from_arc(a.clone());
    assert_eq!(Arc::strong_count(&a), 2);
    let b = slot.load().unwrap();
    assert_eq!(*b, 5);
    assert!(Arc::ptr_eq(&a, &b));
    assert_eq!(Arc::strong_count(&a), 3);
}

#[test]
fn swap_hands_out_what_the_slot_held() {
    let slot = AtomicArc::from_arc(Arc::new(1));
    let old = slot.swap(Some(Arc::new(2)));
    assert_eq!(old.as_deref(), Some(&1));
    assert_eq!(slot.load().as_deref(), Some(&2));
    let old = slot.swap(None);
    assert_eq!(old.as_deref(), Some(&2));
    assert!(slot.load().is_none());
}

#[test]
fn exchange_needs_the_same_allocation() {
    let a = Arc::new(7);
    let twin = Arc::new(7);
    let slot = AtomicArc::from_arc(a.clone());
    let r = slot.compare_maybe_exchange(Some(&twin), Some(Arc::new(8)));
    assert_eq!(r.unwrap_err().as_deref(), Some(&8));
    assert_eq!(slot.load().as_deref(), Some(&7));
    let r = slot.compare_maybe_exchange(Some(&a), Some(Arc::new(8)));
    assert!(Arc::ptr_eq(&r.unwrap().unwrap(), &a));
    assert_eq!(slot.load().as_deref(), Some(&8));
}

#[test]
fn exchange_of_an_empty_slot() {
    let slot = AtomicArc::from_arc(Arc::new(1));
    assert!(slot.compare_maybe_exchange(None, None).is_err());
    slot.swap(None);
    let r = slot.compare_maybe_exchange(None, Some(Arc::new(3)));
    assert!(r.unwrap().is_none());
    assert_eq!(slot.load().as_deref(), Some(&3));
}

#[test]
fn slot_functions() {
    let a = Arc::new(1);
    let mut slot = Some(a.clone());
    assert!(holds(&slot, Some(&a)));
    assert!(!holds(&slot, None));
    assert!(!holds(&slot, Some(&Arc::new(1))));
    assert!(Arc::ptr_eq(&load_from(&slot).unwrap(), &a));
    assert_eq!(exchange_if(&mut slot, false, None), Err(None));
    assert!(slot.is_some());
    assert_eq!(exchange_if(&mut slot, true, None), Ok(Some(a.clone())));
    assert!(slot.is_none());
    assert!(holds(&slot, None));
    assert_eq!(swap_in(&mut slot, Some(a.clone())), None);
    assert!(load_from(&slot).is_some());
}
