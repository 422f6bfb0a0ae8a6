//! The lock that handles take on a shared structure, and what this
//! library uses of shared ownership.
use vstd::prelude::*;
use std::sync::Arc;
use parking_lot::lock_api::Mutex;

verus! {

#[verifier::external_type_specification]
#[verifier::external_body]
pub struct ExRawLock(parking_lot::RawMutex);

#[verifier::external_type_specification]
#[verifier::external_body]
#[verifier::reject_recursive_types(Raw)]
#[verifier::reject_recursive_types(Data)]
pub struct ExMutex<Raw, Data: ?Sized>(Mutex<Raw, Data>);

/// A held lock (`MutexGuard`): the value behind it is reachable only
/// through this guard, and the lock is given back when the guard goes out
/// of scope.
#[verifier::external_body]
#[verifier::reject_recursive_types(S)]
pub(crate) struct Held<'a, S> {
    guard: parking_lot::MutexGuard<'a, S>,
}

/// Wraps a value in a fresh, unlocked mutex (`Mutex::new`).
#[verifier::external_body]
pub(crate) fn guarded<S>(value: S) -> (m: Mutex<parking_lot::RawMutex, S>) {
    Mutex::new(value)
}

/// Blocks until the mutex is held by the caller (`Mutex::lock`). The
/// mutex is not reentrant: a caller that holds it already would wait for
/// ever, so every operation of this library takes the lock once and gives
/// it back before it returns.
#[verifier::external_body]
pub(crate) fn lock<'a, S>(m: &'a Mutex<parking_lot::RawMutex, S>) -> (g: Held<'a, S>) {
    Held { guard: m.lock() }
}

/// Exclusive access to the value behind a held guard (`DerefMut::deref_mut`).
#[verifier::external_body]
pub(crate) fn held<'a, 'b, S>(g: &'a mut Held<'b, S>) -> (s: &'a mut S) {
    &mut *g.guard
}

/// Number of owners that a shared value has at the moment of the call
/// (`Arc::strong_count`); other threads may change it at any time, so
/// nothing is promised of the result.
#[verifier::external_body]
pub(crate) fn owners<S>(a: &Arc<S>) -> (n: usize) {
    Arc::strong_count(a)
}

/// One more owner of the same shared value (`Arc::clone`): the result
/// points at the value that `a` points at.
#[verifier::external_body]
pub(crate) fn share<S>(a: &Arc<S>) -> (r: Arc<S>)
    ensures
        r == *a,
{
    Arc::clone(a)
}

/// Whether two owners point at the same allocation (`Arc::ptr_eq`); if
/// they do, they point at the same value.
#[verifier::external_body]
pub(crate) fn same_allocation<S>(a: &Arc<S>, b: &Arc<S>) -> (r: bool)
    ensures
        r ==> *a == *b,
{
    Arc::ptr_eq(a, b)
}

} // verus!
