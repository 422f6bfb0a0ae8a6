//! Bounded double-buffer stack: two fixed-capacity slot arrays, one taking
//! pushes and one serving pops, which trade roles when one side is exhausted.
//!
//! `StaccInner` is the state machine, and `DoubleBuffer` what it holds. Its
//! steps are `try_push`, `make_room`, `try_pop` and `refill`; `push` and
//! `pop` are what these steps amount to when nothing gets in between. The
//! laws of `DoubleBuffer` say what a run of pushes and pops does: nothing
//! is lost or made up (`lemma_push`, `lemma_pop`, `lemma_drained`), pushes
//! in a row fill both buffers and no more (`lemma_capacity`), a push is
//! turned away while the push buffer is full and the pop buffer holds a
//! value (`lemma_push`), and what fits into one buffer comes out last in,
//! first out (`lemma_lifo`). `Stacc` is a handle.
use vstd::prelude::*;
use vstd::multiset::Multiset;
use std::sync::Arc;
use parking_lot::lock_api::Mutex;
use crate::sync::{guarded, lock, held, share};
use crate::ATTEMPTS;

verus! {

/// Clamps a signed length counter at zero.
pub open spec fn clamped(len: int) -> nat {
    if len < 0 {
        0
    } else {
        len as nat
    }
}

/// The buffer that serves pops: the first `len` slots hold values.
pub struct AtomicPop<T> {
    slice: Vec<Option<T>>,
    len: isize,
}

/// The buffer that takes pushes: the first `len` slots hold values.
pub struct AtomicPush<T> {
    slice: Vec<Option<T>>,
    len: isize,
}

/// Slots `0..len` are filled, the rest are empty.
pub open spec fn slots_wf<T>(slice: Seq<Option<T>>, len: int) -> bool {
    &&& 0 <= len <= slice.len() <= isize::MAX
    &&& forall|i: int| 0 <= i < len ==> (#[trigger] slice[i]) is Some
    &&& forall|i: int| len <= i < slice.len() ==> (#[trigger] slice[i]) is None
}

/// The values held in slots `0..len`, bottom first.
pub open spec fn slots_view<T>(slice: Seq<Option<T>>, len: int) -> Seq<T> {
    Seq::new(clamped(len), |i: int| slice[i]->Some_0)
}

fn empty_slots<T>(n: usize) -> (slice: Vec<Option<T>>)
    ensures
        slice@.len() == n,
        forall|i: int| 0 <= i < n ==> (#[trigger] slice@[i]) is None,
{
    let mut slice: Vec<Option<T>> = Vec::new();
    while slice.len() < n
        invariant
            slice@.len() <= n,
            forall|i: int| 0 <= i < slice@.len() ==> (#[trigger] slice@[i]) is None,
        decreases n - slice@.len(),
    {
        slice.push(None);
    }
    slice
}

impl<T> AtomicPop<T> {
    /// The length counter is within the buffer, and exactly the slots below
    /// it are filled.
    pub closed spec fn wf(&self) -> bool {
        slots_wf(self.slice@, self.len as int)
    }

    /// The held values, bottom first.
    pub closed spec fn view(&self) -> Seq<T> {
        slots_view(self.slice@, self.len as int)
    }

    /// Number of slots.
    pub closed spec fn capacity(&self) -> nat {
        self.slice@.len()
    }

    /// An empty buffer of `n` slots.
    pub fn new(n: usize) -> (s: Self)
        requires
            n <= isize::MAX,
        ensures
            s.wf(),
            s@ == Seq::<T>::empty(),
            s.capacity() == n,
    {
        let slice = empty_slots(n);
        let s = Self { slice, len: 0 };
        assert(s@ =~= Seq::<T>::empty());
        s
    }

    /// Removes the topmost value, if any: the length counter is taken down
    /// by one to reserve the slot, and clamped back at zero when there was
    /// none to reserve.
    pub fn pop(&mut self) -> (r: Option<T>)
        requires
            old(self).wf(),
        ensures
            final(self).wf(),
            final(self).capacity() == old(self).capacity(),
            old(self)@.len() == 0 ==> r is None && final(self)@ == old(self)@,
            old(self)@.len() > 0
                ==> r == Some(old(self)@.last()) && final(self)@ == old(self)@.drop_last(),
    {
        let len = self.len;
        self.len = len - 1;
        if len == 0 {
            if self.len < 0 {
                self.len = 0;
            }
        }
        if len <= 0 {
            assert(self@ =~= old(self)@);
            return None;
        }
        let n: usize = (len - 1) as usize;
        let item = self.slice[n].take();
        assert(self@ =~= old(self)@.drop_last());
        item
    }
}

impl<T> AtomicPush<T> {
    /// The length counter is within the buffer, and exactly the slots below
    /// it are filled.
    pub closed spec fn wf(&self) -> bool {
        slots_wf(self.slice@, self.len as int)
    }

    /// The held values, bottom first.
    pub closed spec fn view(&self) -> Seq<T> {
        slots_view(self.slice@, self.len as int)
    }

    /// Number of slots.
    pub closed spec fn capacity(&self) -> nat {
        self.slice@.len()
    }

    /// An empty buffer of `n` slots.
    pub fn new(n: usize) -> (s: Self)
        requires
            n <= isize::MAX,
        ensures
            s.wf(),
            s@ == Seq::<T>::empty(),
            s.capacity() == n,
    {
        let slice = empty_slots(n);
        let s = Self { slice, len: 0 };
        assert(s@ =~= Seq::<T>::empty());
        s
    }

    /// Stores `x` on top, or hands it back when every slot is taken: the
    /// length counter is taken up by one to reserve the slot, and stays
    /// clamped at the capacity when there was none to reserve.
    pub fn push(&mut self, x: T) -> (r: Option<T>)
        requires
            old(self).wf(),
        ensures
            final(self).wf(),
            final(self).capacity() == old(self).capacity(),
            old(self)@.len() < old(self).capacity()
                ==> r is None && final(self)@ == old(self)@.push(x),
            old(self)@.len() >= old(self).capacity() ==> r == Some(x) && final(self)@ == old(self)@,
    {
        let maxlen: isize = self.slice.len() as isize;
        let oldlen = self.len;
        if oldlen >= maxlen {
            return Some(x);
        }
        self.len = oldlen + 1;
        let n: usize = oldlen as usize;
        self.slice[n] = Some(x);
        assert(self@ =~= old(self)@.push(x));
        None
    }
}

/// What a double-buffer stack holds: the values of each role's buffer,
/// bottom first, and the capacity that each buffer was made with.
pub struct DoubleBuffer<T> {
    pub pushers: Seq<T>,
    pub poppers: Seq<T>,
    pub capacity: nat,
}

impl<T> DoubleBuffer<T> {
    /// Neither buffer holds more than its capacity.
    pub open spec fn fits(self) -> bool {
        self.pushers.len() <= self.capacity && self.poppers.len() <= self.capacity
    }

    /// Two empty buffers of `capacity` slots each.
    pub open spec fn empty(capacity: nat) -> Self {
        DoubleBuffer { pushers: Seq::empty(), poppers: Seq::empty(), capacity }
    }

    /// The two buffers with their roles exchanged.
    pub open spec fn swapped(self) -> Self {
        DoubleBuffer { pushers: self.poppers, poppers: self.pushers, capacity: self.capacity }
    }

    /// Number of values held.
    pub open spec fn len(self) -> nat {
        self.pushers.len() + self.poppers.len()
    }

    /// A push that finds the push buffer full exchanges the roles exactly
    /// when the pop buffer is fully drained (and has a slot at all).
    pub open spec fn can_make_room(self) -> bool {
        self.poppers.len() == 0 && self.capacity > 0
    }

    /// A push is turned away exactly when the push buffer is full and the
    /// pop buffer is not fully drained.
    pub open spec fn is_full(self) -> bool {
        self.pushers.len() >= self.capacity && !self.can_make_room()
    }

    /// The state after pushing `x`: onto the push buffer while it has room;
    /// else, if the pop buffer is fully drained, the roles are exchanged
    /// first; else the value is turned away.
    pub open spec fn push(self, x: T) -> Self {
        if self.pushers.len() < self.capacity {
            DoubleBuffer { pushers: self.pushers.push(x), ..self }
        } else if self.can_make_room() {
            DoubleBuffer { pushers: self.poppers.push(x), poppers: self.pushers, ..self }
        } else {
            self
        }
    }

    /// The state after a pop: from the pop buffer while it holds a value;
    /// else, if the push buffer holds one, the roles are exchanged first.
    pub open spec fn pop(self) -> Self {
        if self.poppers.len() > 0 {
            DoubleBuffer { poppers: self.poppers.drop_last(), ..self }
        } else if self.pushers.len() != 0 {
            DoubleBuffer { pushers: self.poppers, poppers: self.pushers.drop_last(), ..self }
        } else {
            self
        }
    }

    /// What a pop returns in this state.
    pub open spec fn top(self) -> Option<T> {
        if self.poppers.len() > 0 {
            Some(self.poppers.last())
        } else if self.pushers.len() != 0 {
            Some(self.pushers.last())
        } else {
            None
        }
    }
}

impl<T> DoubleBuffer<T> {
    /// The values held, without their order.
    pub open spec fn contents(self) -> Multiset<T> {
        self.pushers.to_multiset().add(self.poppers.to_multiset())
    }

    /// The state after pushing the values of `xs` in order.
    pub open spec fn push_all(self, xs: Seq<T>) -> Self
        decreases xs.len(),
    {
        if xs.len() == 0 {
            self
        } else {
            self.push_all(xs.drop_last()).push(xs.last())
        }
    }

    /// The state after `n` pops.
    pub open spec fn pop_n(self, n: nat) -> Self
        decreases n,
    {
        if n == 0 {
            self
        } else {
            self.pop_n((n - 1) as nat).pop()
        }
    }

    /// The values that come out when the stack is popped until it is empty,
    /// in the order in which they come out.
    pub open spec fn drained(self) -> Seq<T>
        decreases self.len(),
    {
        match self.top() {
            Some(v) => seq![v].add(self.pop().drained()),
            None => Seq::empty(),
        }
    }

    /// A push that is accepted adds exactly the pushed value and one to the
    /// length; a push that is turned away changes nothing.
    pub proof fn lemma_push(self, x: T)
        requires
            self.fits(),
        ensures
            self.push(x).fits(),
            self.push(x).capacity == self.capacity,
            !self.is_full() ==> self.push(x).contents() == self.contents().insert(x)
                && self.push(x).len() == self.len() + 1,
            self.is_full() ==> self.push(x) == self,
            self.len() == 2 * self.capacity ==> self.is_full(),
            self.is_full() ==> self.len() > self.capacity || self.capacity == 0,
    {
        broadcast use vstd::seq_lib::group_to_multiset_ensures;

        if !self.is_full() {
            assert(self.push(x).contents() =~= self.contents().insert(x));
        }
    }

    /// A pop returns nothing exactly when the stack is empty; otherwise it
    /// removes exactly the value it returns, which the stack did hold.
    pub proof fn lemma_pop(self)
        requires
            self.fits(),
        ensures
            self.pop().fits(),
            self.pop().capacity == self.capacity,
            self.top() is None <==> self.len() == 0,
            self.top() is None ==> self.pop() == self,
            self.top() matches Some(v) ==> self.contents().count(v) > 0 && self.pop().contents()
                == self.contents().remove(v) && self.pop().len() == self.len() - 1,
    {
        broadcast use vstd::seq_lib::group_to_multiset_ensures;

        if self.poppers.len() > 0 {
            let v = self.poppers.last();
            assert(self.poppers == self.poppers.drop_last().push(v));
            assert(self.poppers.to_multiset() == self.poppers.drop_last().to_multiset().insert(v));
            assert(self.pop().contents() =~= self.contents().remove(v));
        } else if self.pushers.len() != 0 {
            let v = self.pushers.last();
            assert(self.pushers == self.pushers.drop_last().push(v));
            assert(self.pushers.to_multiset() == self.pushers.drop_last().to_multiset().insert(v));
            assert(self.pop().contents() =~= self.contents().remove(v));
        }
    }

    /// Popping until empty succeeds once for each value held, and hands out
    /// exactly the values held: none is lost, none comes out twice.
    pub proof fn lemma_drained(self)
        requires
            self.fits(),
        ensures
            self.drained().len() == self.len(),
            self.drained().to_multiset() == self.contents(),
            self.pop_n(self.len()).len() == 0,
            forall|k: nat|
                k < self.len() ==> self.pop_n(k).top() == Some(#[trigger] self.drained()[k as int]),
        decreases self.len(),
    {
        broadcast use vstd::seq_lib::group_to_multiset_ensures;

        self.lemma_pop();
        match self.top() {
            Some(v) => {
                let rest = self.pop();
                rest.lemma_drained();
                let d = rest.drained();
                assert(seq![v].add(d).to_multiset() =~= d.to_multiset().insert(v)) by {
                    vstd::seq_lib::lemma_multiset_commutative(seq![v], d);
                    assert(seq![v] =~= Seq::<T>::empty().push(v));
                    assert(seq![v].to_multiset() =~= Multiset::<T>::empty().insert(v));
                }
                assert(self.contents() =~= rest.contents().insert(v));
                assert forall|k: nat| k <= self.len() implies #[trigger] self.pop_n(k)
                    == if k == 0 {
                    self
                } else {
                    rest.pop_n((k - 1) as nat)
                } by {
                    self.lemma_pop_n_shift(k);
                }
                assert forall|k: nat| k < self.len() implies self.pop_n(k).top() == Some(
                    #[trigger] self.drained()[k as int],
                ) by {
                    if k > 0 {
                        assert(self.pop_n(k) == rest.pop_n((k - 1) as nat));
                        assert(self.drained()[k as int] == d[k - 1]);
                    } else {
                        assert(self.pop_n(k) == self);
                    }
                }
                assert(self.pop_n(self.len()) == rest.pop_n(rest.len()));
            },
            None => {
                assert(self.contents() =~= Multiset::<T>::empty());
            },
        }
    }

    /// Popping `k` times is popping once and then `k - 1` times.
    pub proof fn lemma_pop_n_shift(self, k: nat)
        ensures
            self.pop_n(k) == if k == 0 {
                self
            } else {
                self.pop().pop_n((k - 1) as nat)
            },
        decreases k,
    {
        if k > 1 {
            self.lemma_pop_n_shift((k - 1) as nat);
            assert(self.pop_n(k) == self.pop_n((k - 1) as nat).pop());
            assert(self.pop().pop_n((k - 1) as nat) == self.pop().pop_n((k - 2) as nat).pop());
        } else if k == 1 {
            assert(self.pop_n(1) == self.pop_n(0).pop());
            assert(self.pop().pop_n(0) == self.pop());
        }
    }

    /// Pushing onto an empty stack no more values than one buffer holds
    /// leaves them all in the push buffer.
    pub proof fn lemma_push_all_one_buffer(capacity: nat, xs: Seq<T>)
        requires
            xs.len() <= capacity,
        ensures
            Self::empty(capacity).push_all(xs) == (DoubleBuffer {
                pushers: xs,
                poppers: Seq::empty(),
                capacity,
            }),
        decreases xs.len(),
    {
        if xs.len() > 0 {
            Self::lemma_push_all_one_buffer(capacity, xs.drop_last());
            assert(xs.drop_last().push(xs.last()) =~= xs);
        } else {
            assert(xs =~= Seq::<T>::empty());
        }
    }

    /// When only the pop buffer holds values, they come out last first.
    pub proof fn lemma_drained_poppers(self)
        requires
            self.pushers.len() == 0,
        ensures
            self.drained() == self.poppers.reverse(),
        decreases self.poppers.len(),
    {
        if self.poppers.len() > 0 {
            self.pop().lemma_drained_poppers();
            assert(self.drained() =~= self.poppers.reverse());
        } else {
            assert(self.drained() =~= self.poppers.reverse());
        }
    }

    /// Last in, first out: values pushed one after another onto an empty
    /// stack, no more of them than one buffer holds, are all accepted and
    /// come out in exactly the reverse order; after that the stack is empty.
    pub proof fn lemma_lifo(capacity: nat, xs: Seq<T>)
        requires
            xs.len() <= capacity,
        ensures
            forall|k: int|
                0 <= k < xs.len() ==> !(#[trigger] Self::empty(capacity).push_all(
                    xs.take(k),
                )).is_full(),
            Self::empty(capacity).push_all(xs).drained() == xs.reverse(),
            Self::empty(capacity).push_all(xs).pop_n(xs.len()).top() is None,
    {
        let s = Self::empty(capacity).push_all(xs);
        Self::lemma_push_all_one_buffer(capacity, xs);
        assert forall|k: int| 0 <= k < xs.len() implies !(#[trigger] Self::empty(
            capacity,
        ).push_all(xs.take(k))).is_full() by {
            Self::lemma_push_all_one_buffer(capacity, xs.take(k));
        }
        if xs.len() > 0 {
            s.pop().lemma_drained_poppers();
            assert(s.drained() =~= xs.reverse());
        } else {
            assert(s.drained() =~= xs.reverse());
        }
        s.lemma_drained();
        s.pop_n(s.len()).lemma_pop();
    }

    /// Pushing onto an empty stack fills the first buffer, then the second.
    pub proof fn lemma_push_all_two_buffers(capacity: nat, xs: Seq<T>)
        requires
            capacity < xs.len() <= 2 * capacity,
        ensures
            Self::empty(capacity).push_all(xs) == (DoubleBuffer {
                pushers: xs.skip(capacity as int),
                poppers: xs.take(capacity as int),
                capacity,
            }),
        decreases xs.len(),
    {
        let ys = xs.drop_last();
        if ys.len() == capacity {
            Self::lemma_push_all_one_buffer(capacity, ys);
            assert(ys =~= xs.take(capacity as int));
            assert(Seq::<T>::empty().push(xs.last()) =~= xs.skip(capacity as int));
        } else {
            Self::lemma_push_all_two_buffers(capacity, ys);
            assert(ys.take(capacity as int) =~= xs.take(capacity as int));
            assert(ys.skip(capacity as int).push(xs.last()) =~= xs.skip(capacity as int));
        }
    }

    /// The capacity is honoured: a stack whose buffers have `capacity` slots
    /// each accepts `2 * capacity` pushes in a row and not one more, and a
    /// push that it turns away leaves it as it was.
    pub proof fn lemma_capacity(capacity: nat, xs: Seq<T>, x: T)
        requires
            xs.len() == 2 * capacity,
        ensures
            forall|k: int|
                0 <= k < xs.len() ==> !(#[trigger] Self::empty(capacity).push_all(
                    xs.take(k),
                )).is_full(),
            Self::empty(capacity).push_all(xs).is_full(),
            Self::empty(capacity).push_all(xs).push(x) == Self::empty(capacity).push_all(xs),
            Self::empty(capacity).push_all(xs).len() == 2 * capacity,
    {
        assert forall|k: int| 0 <= k < xs.len() implies !(#[trigger] Self::empty(
            capacity,
        ).push_all(xs.take(k))).is_full() by {
            if k <= capacity {
                Self::lemma_push_all_one_buffer(capacity, xs.take(k));
            } else {
                Self::lemma_push_all_two_buffers(capacity, xs.take(k));
            }
        }
        if capacity == 0 {
            Self::lemma_push_all_one_buffer(capacity, xs);
        } else {
            Self::lemma_push_all_two_buffers(capacity, xs);
        }
    }
}

/// The shared state of a double-buffer stack.
pub struct StaccInner<T> {
    poppers: AtomicPop<T>,
    pushers: AtomicPush<T>,
}

impl<T> StaccInner<T> {
    /// Both buffers are well formed and have the same number of slots.
    pub closed spec fn wf(&self) -> bool {
        &&& self.poppers.wf()
        &&& self.pushers.wf()
        &&& self.poppers.capacity() == self.pushers.capacity()
    }

    /// What the stack holds.
    pub closed spec fn view(&self) -> DoubleBuffer<T> {
        DoubleBuffer {
            pushers: self.pushers@,
            poppers: self.poppers@,
            capacity: self.pushers.capacity(),
        }
    }

    /// A well-formed stack never holds more than its buffers have slots for.
    pub proof fn lemma_fits(&self)
        requires
            self.wf(),
        ensures
            self@.fits(),
            self@.capacity <= isize::MAX,
    {
    }

    /// Two empty buffers of `n` slots each.
    pub fn new(n: usize) -> (s: Self)
        requires
            n <= isize::MAX,
        ensures
            s.wf(),
            s@ == DoubleBuffer::<T>::empty(n as nat),
    {
        Self { poppers: AtomicPop::new(n), pushers: AtomicPush::new(n) }
    }

    /// Exchanges the roles of the two buffers.
    pub fn swap_stacks(&mut self)
        requires
            old(self).wf(),
        ensures
            final(self).wf(),
            final(self)@ == old(self)@.swapped(),
    {
        std::mem::swap(&mut self.poppers.slice, &mut self.pushers.slice);
        std::mem::swap(&mut self.poppers.len, &mut self.pushers.len);
    }

    /// One step of a push: stores `x` in the push buffer, or hands it back
    /// when that buffer is full.
    pub fn try_push(&mut self, x: T) -> (r: Option<T>)
        requires
            old(self).wf(),
        ensures
            final(self).wf(),
            old(self)@.pushers.len() < old(self)@.capacity ==> r is None && final(self)@ == (
            DoubleBuffer { pushers: old(self)@.pushers.push(x), ..old(self)@ }),
            old(self)@.pushers.len() >= old(self)@.capacity ==> r == Some(x) && final(self)@
                == old(self)@,
    {
        self.pushers.push(x)
    }

    /// One step of a push that found the push buffer full: exchanges the
    /// buffers' roles if the pop buffer is fully drained, and says whether
    /// it did.
    pub fn make_room(&mut self) -> (swapped: bool)
        requires
            old(self).wf(),
        ensures
            final(self).wf(),
            swapped == old(self)@.can_make_room(),
            final(self)@ == if swapped {
                old(self)@.swapped()
            } else {
                old(self)@
            },
    {
        let poppers_len = self.poppers.len;
        let poppers_len: usize = if poppers_len < 0 {
            0usize
        } else {
            poppers_len as usize
        };
        let poppers_maxlen = self.poppers.slice.len();
        if poppers_len == 0 && poppers_maxlen != 0 {
            self.swap_stacks();
            return true;
        }
        false
    }

    /// One step of a pop: takes the top of the pop buffer, if it holds any.
    pub fn try_pop(&mut self) -> (r: Option<T>)
        requires
            old(self).wf(),
        ensures
            final(self).wf(),
            old(self)@.poppers.len() == 0 ==> r is None && final(self)@ == old(self)@,
            old(self)@.poppers.len() > 0 ==> r == Some(old(self)@.poppers.last()) && final(self)@
                == (DoubleBuffer { poppers: old(self)@.poppers.drop_last(), ..old(self)@ }),
    {
        self.poppers.pop()
    }

    /// One step of a pop that found the pop buffer empty: exchanges the
    /// buffers' roles if the push buffer holds a value, and says whether it
    /// did.
    pub fn refill(&mut self) -> (swapped: bool)
        requires
            old(self).wf(),
        ensures
            final(self).wf(),
            swapped == (old(self)@.pushers.len() != 0),
            final(self)@ == if swapped {
                old(self)@.swapped()
            } else {
                old(self)@
            },
    {
        let pushers_len = self.pushers.len;
        let pushers_len: usize = if pushers_len < 0 {
            0usize
        } else {
            pushers_len as usize
        };
        if pushers_len != 0 {
            self.swap_stacks();
            return true;
        }
        false
    }

    /// Pushes `x`, exchanging the buffers' roles first when the push buffer
    /// is full and the pop buffer is fully drained. Hands `x` back when the
    /// push buffer is full and the pop buffer still holds a value.
    pub fn push(&mut self, x: T) -> (r: Option<T>)
        requires
            old(self).wf(),
        ensures
            final(self).wf(),
            final(self)@ == old(self)@.push(x),
            r == if old(self)@.is_full() {
                Some(x)
            } else {
                None
            },
    {
        let x = match self.try_push(x) {
            None => return None,
            Some(x) => x,
        };
        if self.make_room() {
            return self.try_push(x);
        }
        Some(x)
    }

    /// Pops the top of the pop buffer, exchanging the buffers' roles first
    /// when it is empty and the push buffer is not.
    pub fn pop(&mut self) -> (r: Option<T>)
        requires
            old(self).wf(),
        ensures
            final(self).wf(),
            final(self)@ == old(self)@.pop(),
            r == old(self)@.top(),
    {
        if let Some(x) = self.try_pop() {
            return Some(x);
        }
        if self.refill() {
            return self.try_pop();
        }
        None
    }

    /// Number of values held in both buffers.
    pub fn len(&self) -> (n: usize)
        requires
            self.wf(),
        ensures
            n == self@.len(),
    {
        let len1 = self.pushers.len;
        let len2 = self.poppers.len;
        let len1: usize = if len1 < 0 {
            0usize
        } else {
            len1 as usize
        };
        let len2: usize = if len2 < 0 {
            0usize
        } else {
            len2 as usize
        };
        len1 + len2
    }
}

/// What the lock of a stack guards: a state together with the promise
/// that it is well formed.
pub struct Cell<T> {
    inner: StaccInner<T>,
}

impl<T> Cell<T> {
    #[verifier::type_invariant]
    spec fn inv(self) -> bool {
        self.inner.wf()
    }

    /// The state that the cell holds.
    pub closed spec fn state(&self) -> StaccInner<T> {
        self.inner
    }
}

/// What the stack in a slot holds. The slot is what a handle finds under
/// the lock; a vacant slot stands for two empty buffers of `capacity`
/// slots each.
pub open spec fn held_buffers<T>(slot: Option<Cell<T>>, capacity: usize) -> DoubleBuffer<T> {
    match slot {
        Some(c) => c.state()@,
        None => DoubleBuffer::empty(capacity as nat),
    }
}

/// Takes the state out of a slot; a vacant slot gives two empty buffers of
/// `capacity` slots each.
fn open<T>(slot: &mut Option<Cell<T>>, capacity: usize) -> (inner: StaccInner<T>)
    requires
        capacity <= isize::MAX,
    ensures
        *final(slot) is None,
        inner.wf(),
        inner@ == held_buffers(*old(slot), capacity),
        *old(slot) matches Some(c) ==> inner == c.state(),
{
    match slot.take() {
        Some(cell) => {
            proof {
                use_type_invariant(&cell);
            }
            cell.inner
        },
        None => StaccInner::new(capacity),
    }
}

/// Puts a well-formed state into a slot.
fn close<T>(slot: &mut Option<Cell<T>>, inner: StaccInner<T>)
    requires
        inner.wf(),
    ensures
        *final(slot) matches Some(d) && d.state() == inner,
{
    *slot = Some(Cell { inner });
}

/// The first step of a push, on the slot found under the lock: `x` goes
/// into the push buffer of the stack held there, or comes back when that
/// buffer is full.
pub fn try_push_in<T>(slot: &mut Option<Cell<T>>, capacity: usize, x: T) -> (r: Option<T>)
    requires
        capacity <= isize::MAX,
    ensures
        *final(slot) is Some,
        held_buffers(*old(slot), capacity).pushers.len() < held_buffers(*old(slot), capacity).capacity ==> r
            is None && held_buffers(*final(slot), capacity) == (DoubleBuffer {
            pushers: held_buffers(*old(slot), capacity).pushers.push(x),
            ..held_buffers(*old(slot), capacity)
        }),
        held_buffers(*old(slot), capacity).pushers.len() >= held_buffers(*old(slot), capacity).capacity ==> r
            == Some(x) && held_buffers(*final(slot), capacity) == held_buffers(*old(slot), capacity),
{
    let mut inner = open(slot, capacity);
    let r = inner.try_push(x);
    close(slot, inner);
    r
}

/// The second step of a push, on the slot found under the lock: the
/// buffers of the stack held there exchange their roles if the pop buffer
/// is fully drained.
pub fn make_room_in<T>(slot: &mut Option<Cell<T>>, capacity: usize) -> (swapped: bool)
    requires
        capacity <= isize::MAX,
    ensures
        *final(slot) is Some,
        swapped == held_buffers(*old(slot), capacity).can_make_room(),
        held_buffers(*final(slot), capacity) == if swapped {
            held_buffers(*old(slot), capacity).swapped()
        } else {
            held_buffers(*old(slot), capacity)
        },
{
    let mut inner = open(slot, capacity);
    let swapped = inner.make_room();
    close(slot, inner);
    swapped
}

/// The first step of a pop, on the slot found under the lock: the top of
/// the pop buffer of the stack held there comes out, if that buffer holds
/// a value.
pub fn try_pop_in<T>(slot: &mut Option<Cell<T>>, capacity: usize) -> (r: Option<T>)
    requires
        capacity <= isize::MAX,
    ensures
        *final(slot) is Some,
        held_buffers(*old(slot), capacity).poppers.len() == 0 ==> r is None && held_buffers(
            *final(slot),
            capacity,
        ) == held_buffers(*old(slot), capacity),
        held_buffers(*old(slot), capacity).poppers.len() > 0 ==> r == Some(
            held_buffers(*old(slot), capacity).poppers.last(),
        ) && held_buffers(*final(slot), capacity) == (DoubleBuffer {
            poppers: held_buffers(*old(slot), capacity).poppers.drop_last(),
            ..held_buffers(*old(slot), capacity)
        }),
{
    let mut inner = open(slot, capacity);
    let r = inner.try_pop();
    close(slot, inner);
    r
}

/// The second step of a pop, on the slot found under the lock: the
/// buffers of the stack held there exchange their roles if the push
/// buffer holds a value.
pub fn refill_in<T>(slot: &mut Option<Cell<T>>, capacity: usize) -> (swapped: bool)
    requires
        capacity <= isize::MAX,
    ensures
        *final(slot) is Some,
        swapped == (held_buffers(*old(slot), capacity).pushers.len() != 0),
        held_buffers(*final(slot), capacity) == if swapped {
            held_buffers(*old(slot), capacity).swapped()
        } else {
            held_buffers(*old(slot), capacity)
        },
{
    let mut inner = open(slot, capacity);
    let swapped = inner.refill();
    close(slot, inner);
    swapped
}

/// What `Stacc::len` does with the slot that it finds under the lock: the
/// number of values in both buffers of the stack held there.
pub fn len_in<T>(slot: &Option<Cell<T>>, capacity: usize) -> (n: usize)
    ensures
        n == held_buffers(*slot, capacity).len(),
{
    match slot {
        Some(cell) => {
            proof {
                use_type_invariant(cell);
            }
            cell.inner.len()
        },
        None => 0,
    }
}

/// A handle on a double-buffer stack. Clones share one stack. Every step
/// of an operation takes effect under the stack's lock, and the steps of
/// several handles interleave: between the step that finds a buffer
/// exhausted and the step that exchanges the roles, other handles may
/// push, pop and exchange.
///
/// The lock holds the state except while a step works on it; a step that
/// finds it vacant starts from two empty buffers of the handle's capacity.
/// What a step does with the slot that it finds under the lock, whatever
/// that slot holds, is said by `try_push_in`, `make_room_in`, `try_pop_in`,
/// `refill_in` and `len_in`; of its own result a handle can only say what
/// holds whatever other handles have done.
#[verifier::reject_recursive_types(T)]
pub struct Stacc<T> {
    inner: Arc<Mutex<parking_lot::RawMutex, Option<Cell<T>>>>,
    capacity: usize,
}

impl<T> Stacc<T> {
    #[verifier::type_invariant]
    spec fn inv(self) -> bool {
        self.capacity <= isize::MAX
    }

    /// Number of slots of each buffer of the stack that this handle was
    /// made for.
    pub closed spec fn capacity(&self) -> nat {
        self.capacity as nat
    }

    /// This handle and `other` are handles on one and the same stack.
    pub closed spec fn same_stack(&self, other: &Self) -> bool {
        self.inner == other.inner
    }

    /// A fresh stack whose two buffers have `n` slots each.
    pub fn new(n: usize) -> (s: Self)
        requires
            n <= isize::MAX,
        ensures
            s.capacity() == n,
    {
        let mut slot: Option<Cell<T>> = None;
        let inner = open(&mut slot, n);
        close(&mut slot, inner);
        Self { inner: Arc::new(guarded(slot)), capacity: n }
    }

    /// One step: stores `x` in the push buffer of the shared stack.
    fn try_push(&self, x: T) -> (r: Option<T>)
        ensures
            r matches Some(y) ==> y == x,
    {
        proof {
            use_type_invariant(self);
        }
        let mut guard = lock(&self.inner);
        let slot = held(&mut guard);
        try_push_in(slot, self.capacity, x)
    }

    /// One step: exchanges the roles if the pop buffer is fully drained.
    fn make_room(&self) -> (swapped: bool) {
        proof {
            use_type_invariant(self);
        }
        let mut guard = lock(&self.inner);
        let slot = held(&mut guard);
        make_room_in(slot, self.capacity)
    }

    /// One step: takes the top of the pop buffer of the shared stack.
    fn try_pop(&self) -> (r: Option<T>) {
        proof {
            use_type_invariant(self);
        }
        let mut guard = lock(&self.inner);
        let slot = held(&mut guard);
        try_pop_in(slot, self.capacity)
    }

    /// One step: exchanges the roles if the push buffer holds a value.
    fn refill(&self) -> (swapped: bool) {
        proof {
            use_type_invariant(self);
        }
        let mut guard = lock(&self.inner);
        let slot = held(&mut guard);
        refill_in(slot, self.capacity)
    }

    /// Pushes `x` onto the shared stack: into the push buffer, exchanging
    /// the roles and trying again while that buffer is full and the other
    /// is fully drained. `Some(x)` comes back only when the stack turned
    /// the value away: the push buffer was found full and the pop buffer
    /// not drained, or `ATTEMPTS` attempts failed.
    pub fn push(&self, x: T) -> (r: Option<T>)
        ensures
            r matches Some(y) ==> y == x,
    {
        let mut value = x;
        let mut left: usize = ATTEMPTS;
        while left > 0
            invariant
                value == x,
            decreases left,
        {
            value = match self.try_push(value) {
                None => {
                    return None;
                },
                Some(back) => back,
            };
            if !self.make_room() {
                return Some(value);
            }
            left = left - 1;
        }
        Some(value)
    }

    /// Pops the value that the shared stack serves next: from the pop
    /// buffer, exchanging the roles and trying again while that buffer is
    /// empty and the other holds a value. `None` when both buffers were
    /// found empty, or after `ATTEMPTS` attempts.
    pub fn pop(&self) -> (r: Option<T>) {
        let mut left: usize = ATTEMPTS;
        while left > 0
            decreases left,
        {
            let r = self.try_pop();
            if r.is_some() {
                return r;
            }
            if !self.refill() {
                return None;
            }
            left = left - 1;
        }
        None
    }

    /// Number of values that the shared stack held when it was asked.
    pub fn len(&self) -> (n: usize) {
        let mut guard = lock(&self.inner);
        let slot = held(&mut guard);
        len_in(slot, self.capacity)
    }
}

impl<T> Clone for Stacc<T> {
    /// One more handle on the same stack.
    fn clone(&self) -> (s: Self)
        ensures
            s.capacity() == self.capacity(),
            s.same_stack(self),
    {
        proof {
            use_type_invariant(self);
        }
        Self { inner: share(&self.inner), capacity: self.capacity }
    }
}

} // verus!
