//! Concurrent LIFO stacks: a bounded double-buffer stack and three linked
//! stacks that differ in how a removed node is certified safe for reuse.
//!
//! Beside them stand a bounded queue for one producer and one consumer,
//! and a slot for an optional shared value.
//!
//! Every shared structure is an explicit state machine; the linked stacks
//! keep their nodes in an arena and name them by index. Each step of a
//! state machine is verified against a mathematical model and keeps the
//! structure consistent, so that the rules of reclamation hold however the
//! steps of several participants interleave. Handles reach the structure
//! through a mutex and take it for one step at a time.
mod sync;
pub mod atomic_arc;
pub mod links;
pub mod spsc_queue;
pub mod stacc;
pub mod stacc_lockfree;
pub mod stacc_lockfree_ebr;
pub mod stacc_lockfree_hp;

use vstd::prelude::*;

verus! {

/// Number of times that an operation of a handle tries again, when other
/// handles got in between its steps, before it gives up.
pub const ATTEMPTS: usize = usize::MAX;

} // verus!
