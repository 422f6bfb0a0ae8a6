//! A slot that holds at most one shared value and is read, exchanged and
//! conditionally exchanged as a whole.
use vstd::prelude::*;
use std::sync::Arc;
use parking_lot::lock_api::Mutex;
use crate::sync::{guarded, lock, held, share, same_allocation};

verus! {

/// A slot for an optional shared value. Every operation takes the slot's
/// lock. What an operation does with the value that it finds under the
/// lock, whatever that is, is said by `load_from`, `swap_in`, `holds` and
/// `exchange_if`; of its own result the slot can only say what holds
/// whatever other threads have put there.
#[verifier::reject_recursive_types(T)]
pub struct AtomicArc<T> {
    ptr: Mutex<parking_lot::RawMutex, Option<Arc<T>>>,
}

/// What a slot must hold for a compare-and-exchange that expects
/// `current` to succeed.
pub open spec fn expected<T>(current: Option<&Arc<T>>) -> Option<Arc<T>> {
    match current {
        Some(c) => Some(*c),
        None => None,
    }
}

/// One more owner of the value in `slot`, if it holds one.
pub fn load_from<T>(slot: &Option<Arc<T>>) -> (r: Option<Arc<T>>)
    ensures
        r == *slot,
{
    match slot {
        Some(arc) => Some(share(arc)),
        None => None,
    }
}

/// Puts `other` into `slot` and hands out what the slot held.
pub fn swap_in<T>(slot: &mut Option<Arc<T>>, other: Option<Arc<T>>) -> (r: Option<Arc<T>>)
    ensures
        r == *old(slot),
        *final(slot) == other,
{
    let mut other = other;
    std::mem::swap(slot, &mut other);
    other
}

/// Whether `slot` holds the very value that `current` stands for: both
/// hold nothing, or both point at the same allocation.
pub fn holds<T>(slot: &Option<Arc<T>>, current: Option<&Arc<T>>) -> (r: bool)
    ensures
        r ==> *slot == expected(current),
        (*slot is None && current is None) ==> r,
        (*slot is Some) != (current is Some) ==> !r,
{
    match (slot, current) {
        (None, None) => true,
        (Some(a), Some(b)) => same_allocation(a, b),
        _ => false,
    }
}

/// Puts `new` into `slot` if `matches` says that the slot holds what the
/// caller expects: `Ok` with what the slot held; else `Err` with `new`,
/// and the slot as it was.
pub fn exchange_if<T>(slot: &mut Option<Arc<T>>, matches: bool, new: Option<Arc<T>>) -> (r: Result<
    Option<Arc<T>>,
    Option<Arc<T>>,
>)
    ensures
        matches ==> r == Ok::<Option<Arc<T>>, Option<Arc<T>>>(*old(slot)) && *final(slot) == new,
        !matches ==> r == Err::<Option<Arc<T>>, Option<Arc<T>>>(new) && *final(slot) == *old(slot),
{
    if matches {
        Ok(swap_in(slot, new))
    } else {
        Err(new)
    }
}

impl<T> AtomicArc<T> {
    /// A slot that holds `arc`.
    pub fn from_arc(arc: Arc<T>) -> (s: Self) {
        Self { ptr: guarded(Some(arc)) }
    }

    /// One more owner of the value that the slot held when it was asked.
    pub fn load(&self) -> (r: Option<Arc<T>>) {
        let mut guard = lock(&self.ptr);
        let slot = held(&mut guard);
        load_from(slot)
    }

    /// Puts `other` into the slot and hands out what the slot held.
    pub fn swap(&self, other: Option<Arc<T>>) -> (r: Option<Arc<T>>) {
        let mut guard = lock(&self.ptr);
        let slot = held(&mut guard);
        swap_in(slot, other)
    }

    /// Puts `new` into the slot if the slot holds the very value that
    /// `current` stands for: `Ok` with what the slot held. Otherwise the
    /// slot stays as it was, and `new` comes back in `Err`.
    pub fn compare_maybe_exchange(&self, current: Option<&Arc<T>>, new: Option<Arc<T>>) -> (r:
        Result<Option<Arc<T>>, Option<Arc<T>>>)
        ensures
            r matches Err(n) ==> n == new,
            r matches Ok(v) ==> v == expected(current),
    {
        let mut guard = lock(&self.ptr);
        let slot = held(&mut guard);
        let matches = holds(slot, current);
        exchange_if(slot, matches, new)
    }
}

} // verus!
