//! Bounded ring buffer with one producer and one consumer.
use vstd::prelude::*;
use std::sync::Arc;
use parking_lot::lock_api::Mutex;
use crate::sync::{guarded, lock, held, owners, share};

verus! {

/// Number of slots of the ring; one of them always stays empty.
pub const SLOTS: usize = 256;

/// The slot `k` places after slot `i` on the ring.
pub open spec fn ahead(i: int, k: int) -> int {
    if i + k < SLOTS {
        i + k
    } else {
        i + k - SLOTS
    }
}

/// The number of places from slot `head` forward to slot `tail`.
pub open spec fn distance(head: int, tail: int) -> int {
    if tail >= head {
        tail - head
    } else {
        tail + SLOTS - head
    }
}

/// The ring itself: the consumer takes from `head`, the producer puts at
/// `tail`.
pub struct QueueInner<T> {
    head: usize,
    tail: usize,
    data: Vec<Option<T>>,
}

impl<T> QueueInner<T> {
    /// The slots from `head` up to `tail` are filled, the others are empty.
    pub closed spec fn wf(&self) -> bool {
        &&& self.data@.len() == SLOTS
        &&& self.head < SLOTS
        &&& self.tail < SLOTS
        &&& forall|i: int|
            0 <= i < SLOTS ==> ((#[trigger] self.data@[i]) is Some <==> distance(
                self.head as int,
                i,
            ) < distance(self.head as int, self.tail as int))
    }

    /// The values in the queue, oldest first.
    pub closed spec fn view(&self) -> Seq<T> {
        Seq::new(
            distance(self.head as int, self.tail as int) as nat,
            |k: int| self.data@[ahead(self.head as int, k)]->Some_0,
        )
    }

    /// A ring never holds as many values as it has slots.
    pub proof fn len_bound(&self) -> (n: nat)
        requires
            self.wf(),
        ensures
            n == self@.len(),
            n <= SLOTS - 1,
    {
        self@.len()
    }

    /// An empty ring.
    pub fn new() -> (q: Self)
        ensures
            q.wf(),
            q@ == Seq::<T>::empty(),
    {
        let mut data: Vec<Option<T>> = Vec::new();
        while data.len() < SLOTS
            invariant
                data@.len() <= SLOTS,
                forall|i: int| 0 <= i < data@.len() ==> (#[trigger] data@[i]) is None,
            decreases SLOTS - data@.len(),
        {
            data.push(None);
        }
        let q = Self { head: 0, tail: 0, data };
        assert(q@ =~= Seq::<T>::empty());
        q
    }

    /// Number of values in the queue.
    pub fn len(&self) -> (n: usize)
        requires
            self.wf(),
        ensures
            n == self@.len(),
            n < SLOTS,
    {
        let head = self.head;
        let tail = self.tail;
        if tail >= head {
            tail - head
        } else {
            tail + SLOTS - head
        }
    }

    /// Takes the oldest value out of the queue.
    pub fn pop(&mut self) -> (r: Option<T>)
        requires
            old(self).wf(),
        ensures
            final(self).wf(),
            old(self)@.len() == 0 ==> r is None && final(self)@ == old(self)@,
            old(self)@.len() > 0 ==> r == Some(old(self)@.first()) && final(self)@ == old(
                self)@.drop_first(),
    {
        let head = self.head;
        let tail = self.tail;
        if head == tail {
            return None;
        }
        let newhead = if head + 1 < SLOTS {
            head + 1
        } else {
            0
        };
        let item = self.data[head].take();
        self.head = newhead;
        proof {
            assert(old(self).data@[ahead(head as int, 0)] is Some);
            assert forall|i: int| 0 <= i < SLOTS implies ((#[trigger] self.data@[i]) is Some
                <==> distance(self.head as int, i) < distance(
                self.head as int,
                self.tail as int,
            )) by {
                assert(old(self).data@[i] is Some <==> distance(head as int, i) < distance(
                    head as int,
                    tail as int,
                ));
            }
            assert(self@ =~= old(self)@.drop_first()) by {
                assert forall|k: int|
                    0 <= k < self@.len() implies self@[k] == old(self)@[k + 1] by {
                    assert(ahead(newhead as int, k) == ahead(head as int, k + 1));
                }
            }
        }
        item
    }

    /// Puts `x` into the queue as the newest value, or hands it back when
    /// the queue is full.
    pub fn push(&mut self, x: T) -> (r: Option<T>)
        requires
            old(self).wf(),
        ensures
            final(self).wf(),
            old(self)@.len() == SLOTS - 1 ==> r == Some(x) && final(self)@ == old(self)@,
            old(self)@.len() < SLOTS - 1 ==> r is None && final(self)@ == old(self)@.push(x),
    {
        let tail = self.tail;
        let head = self.head;
        let newtail = if tail + 1 < SLOTS {
            tail + 1
        } else {
            0
        };
        if newtail == head {
            return Some(x);
        }
        self.data[tail] = Some(x);
        self.tail = newtail;
        proof {
            assert forall|i: int| 0 <= i < SLOTS implies ((#[trigger] self.data@[i]) is Some
                <==> distance(self.head as int, i) < distance(
                self.head as int,
                self.tail as int,
            )) by {
                assert(old(self).data@[i] is Some <==> distance(head as int, i) < distance(
                    head as int,
                    tail as int,
                ));
            }
            assert(self@ =~= old(self)@.push(x)) by {
                assert forall|k: int| 0 <= k < old(self)@.len() implies self@[k] == old(
                    self)@[k] by {
                    assert(ahead(head as int, k) != tail);
                }
                assert(ahead(head as int, old(self)@.len() as int) == tail);
            }
        }
        None
    }
}

/// What the lock of a queue guards: a ring together with the promise that
/// it is well formed.
pub struct Cell<T> {
    inner: QueueInner<T>,
}

impl<T> Cell<T> {
    #[verifier::type_invariant]
    spec fn inv(self) -> bool {
        self.inner.wf()
    }

    /// The ring that the cell holds.
    pub closed spec fn state(&self) -> QueueInner<T> {
        self.inner
    }
}

/// The values in the queue that a slot holds, oldest first. The slot is
/// what an end of the queue finds under the lock; a vacant slot stands for
/// an empty queue.
pub open spec fn held_view<T>(slot: Option<Cell<T>>) -> Seq<T> {
    match slot {
        Some(c) => c.state()@,
        None => Seq::empty(),
    }
}

/// Takes the ring out of a slot; a vacant slot gives an empty ring.
fn open<T>(slot: &mut Option<Cell<T>>) -> (inner: QueueInner<T>)
    ensures
        *final(slot) is None,
        inner.wf(),
        inner@ == held_view(*old(slot)),
        *old(slot) matches Some(c) ==> inner == c.state(),
{
    match slot.take() {
        Some(cell) => {
            proof {
                use_type_invariant(&cell);
            }
            cell.inner
        },
        None => QueueInner::new(),
    }
}

/// Puts a well-formed ring into a slot.
fn close<T>(slot: &mut Option<Cell<T>>, inner: QueueInner<T>)
    requires
        inner.wf(),
    ensures
        *final(slot) matches Some(d) && d.state() == inner,
{
    *slot = Some(Cell { inner });
}

/// What `QueueProducer::push` does with the slot that it finds under the
/// lock: `x` joins the queue held there as its newest value, or comes back
/// when that queue is full.
pub fn push_in<T>(slot: &mut Option<Cell<T>>, x: T) -> (r: Option<T>)
    ensures
        *final(slot) is Some,
        held_view(*old(slot)).len() < SLOTS - 1 ==> r is None && held_view(*final(slot))
            == held_view(*old(slot)).push(x),
        held_view(*old(slot)).len() >= SLOTS - 1 ==> r == Some(x) && held_view(*final(slot))
            == held_view(*old(slot)),
{
    let mut inner = open(slot);
    proof {
        inner.len_bound();
    }
    let r = inner.push(x);
    close(slot, inner);
    r
}

/// What `QueueConsumer::pop` does with the slot that it finds under the
/// lock: the oldest value of the queue held there comes out, if there is
/// one.
pub fn pop_in<T>(slot: &mut Option<Cell<T>>) -> (r: Option<T>)
    ensures
        *final(slot) is Some,
        held_view(*old(slot)).len() == 0 ==> r is None && held_view(*final(slot)) == held_view(
            *old(slot),
        ),
        held_view(*old(slot)).len() > 0 ==> r == Some(held_view(*old(slot)).first())
            && held_view(*final(slot)) == held_view(*old(slot)).drop_first(),
{
    let mut inner = open(slot);
    let r = inner.pop();
    close(slot, inner);
    r
}

/// What `len` of either end does with the slot that it finds under the
/// lock: the number of values in the queue held there.
pub fn len_in<T>(slot: &Option<Cell<T>>) -> (n: usize)
    ensures
        n == held_view(*slot).len(),
        n < SLOTS,
{
    match slot {
        Some(cell) => {
            proof {
                use_type_invariant(cell);
            }
            cell.inner.len()
        },
        None => 0,
    }
}

/// The consuming end of a queue. It takes the queue's lock for each
/// operation. What an operation does with the slot that it finds under the
/// lock, whatever that slot holds, is said by `pop_in` and `len_in`; of its
/// own result an end can only say what holds whatever the other end has
/// done.
#[verifier::reject_recursive_types(T)]
pub struct QueueConsumer<T> {
    inner: Arc<Mutex<parking_lot::RawMutex, Option<Cell<T>>>>,
}

/// The producing end of a queue. It takes the queue's lock for each
/// operation. What an operation does with the slot that it finds under the
/// lock, whatever that slot holds, is said by `push_in` and `len_in`; of
/// its own result an end can only say what holds whatever the other end
/// has done.
#[verifier::reject_recursive_types(T)]
pub struct QueueProducer<T> {
    inner: Arc<Mutex<parking_lot::RawMutex, Option<Cell<T>>>>,
}

/// Whether a queue with `count` owners has both of its ends.
pub fn both_ends(count: usize) -> (alive: bool)
    ensures
        alive == (count == 2),
{
    count == 2
}

/// A fresh, empty queue: its producing end and its consuming end.
pub fn queue<T>() -> (ends: (QueueProducer<T>, QueueConsumer<T>))
    ensures
        ends.0.feeds(&ends.1),
{
    let mut slot: Option<Cell<T>> = None;
    let ring = open(&mut slot);
    close(&mut slot, ring);
    let inner = Arc::new(guarded(slot));
    let other = share(&inner);
    (QueueProducer { inner }, QueueConsumer { inner: other })
}

impl<T> QueueConsumer<T> {
    /// Number of values that the queue held when it was asked.
    pub fn len(&self) -> (n: usize)
        ensures
            n < SLOTS,
    {
        let mut guard = lock(&self.inner);
        let slot = held(&mut guard);
        len_in(slot)
    }

    /// Whether the producing end was still there when it was asked.
    pub fn other_side_alive(&self) -> (alive: bool) {
        both_ends(owners(&self.inner))
    }

    /// Takes the oldest value out of the queue, if it holds any. This end
    /// stays as it is.
    pub fn pop(&mut self) -> (r: Option<T>)
        ensures
            *final(self) == *old(self),
    {
        let mut guard = lock(&self.inner);
        let slot = held(&mut guard);
        pop_in(slot)
    }
}

impl<T> QueueProducer<T> {
    /// This end and `consumer` are the two ends of one and the same queue.
    pub closed spec fn feeds(&self, consumer: &QueueConsumer<T>) -> bool {
        self.inner == consumer.inner
    }

    /// Number of values that the queue held when it was asked.
    pub fn len(&self) -> (n: usize)
        ensures
            n < SLOTS,
    {
        let mut guard = lock(&self.inner);
        let slot = held(&mut guard);
        len_in(slot)
    }

    /// Whether the consuming end was still there when it was asked.
    pub fn other_side_alive(&self) -> (alive: bool) {
        both_ends(owners(&self.inner))
    }

    /// Puts `x` into the queue; `Some(x)` comes back only when the queue
    /// turned the value away. This end stays as it is.
    pub fn push(&mut self, x: T) -> (r: Option<T>)
        ensures
            r matches Some(y) ==> y == x,
            *final(self) == *old(self),
    {
        let mut guard = lock(&self.inner);
        let slot = held(&mut guard);
        push_in(slot, x)
    }
}

} // verus!
