//! Linked stack whose removed nodes are reclaimed with hazard pointers: a
//! participant publishes the node it is about to read, and a retired node
//! is recycled only while no participant has it published.
//!
//! `Shared` is the state machine. Its steps are `push`, `protect`, `unlink`,
//! `scan` and `release`; `pop` is `protect` followed by `unlink`. Every step
//! keeps `Shared::wf`, from which follow the rules of the scheme:
//! `lemma_protected` (a published node is not reused, and still points
//! where it pointed), `lemma_places` (no node is in two places) and
//! `lemma_retired_bounded` (a retired list stays shorter than `R`).
//! `LockFreeStacc` is the handle of one participant.
use vstd::prelude::*;
use vstd::seq_lib::lemma_no_dup_in_concat;
use std::sync::Arc;
use parking_lot::lock_api::Mutex;
use crate::sync::{guarded, lock, held, share};
use crate::ATTEMPTS;
use crate::links::{
    top_of, without_top, NULL, Arena, NodeState, all_at, lemma_all_at_elsewhere,
    lemma_all_at_grown, lemma_all_at_drop_last, lemma_all_at_push, lemma_all_at_absent,
    lemma_all_at_kept, lemma_distinct_within,
};
pub use crate::links::Node;

verus! {

/// Number of participants that one stack has slots for.
pub const MAX_THREADS: usize = 32;

/// Length of a participant's retired list at which it is scanned.
pub const R: usize = 42;

/// The values of `v` do not decrease.
pub open spec fn sorted(v: Seq<usize>) -> bool {
    forall|a: int, b: int| 0 <= a <= b < v.len() ==> v[a] <= v[b]
}

/// Inserts `x` into a sorted vector at the place that keeps it sorted.
fn insert_sorted(v: &mut Vec<usize>, x: usize)
    requires
        sorted(old(v)@),
    ensures
        sorted(final(v)@),
        final(v)@.len() == old(v)@.len() + 1,
        forall|y: usize| final(v)@.contains(y) <==> (y == x || old(v)@.contains(y)),
{
    let mut pos: usize = 0;
    while pos < v.len() && v[pos] < x
        invariant
            pos <= v@.len(),
            v@ == old(v)@,
            forall|k: int| 0 <= k < pos ==> v@[k] < x,
        decreases v@.len() - pos,
    {
        pos = pos + 1;
    }
    v.insert(pos, x);
    proof {
        let before = old(v)@;
        let after = v@;
        assert forall|a: int, b: int| 0 <= a <= b < after.len() implies after[a] <= after[b] by {
            if a < pos && b > pos {
                assert(after[a] == before[a] && after[b] == before[b - 1]);
            } else if a > pos {
                assert(after[a] == before[a - 1] && after[b] == before[b - 1]);
            } else if b < pos {
                assert(after[a] == before[a] && after[b] == before[b]);
            } else if a == pos && b > pos {
                assert(after[b] == before[b - 1]);
                assert(before[pos as int] <= before[b - 1]);
            }
        }
        assert forall|y: usize| after.contains(y) <==> (y == x || before.contains(y)) by {
            if after.contains(y) {
                let k = choose|k: int| 0 <= k < after.len() && after[k] == y;
                if k < pos {
                    assert(before[k] == y);
                } else if k > pos {
                    assert(before[k - 1] == y);
                }
            }
            if y == x {
                assert(after[pos as int] == y);
            }
            if before.contains(y) {
                let k = choose|k: int| 0 <= k < before.len() && before[k] == y;
                if k < pos {
                    assert(after[k] == y);
                } else {
                    assert(after[k + 1] == y);
                }
            }
        }
    }
}

/// Whether the sorted vector `v` holds `x`, by bisection.
fn binary_search(v: &Vec<usize>, x: usize) -> (found: bool)
    requires
        sorted(v@),
    ensures
        found == v@.contains(x),
{
    let mut lo: usize = 0;
    let mut hi: usize = v.len();
    while lo < hi
        invariant
            lo <= hi <= v@.len(),
            sorted(v@),
            forall|k: int| 0 <= k < lo ==> v@[k] < x,
            forall|k: int| hi <= k < v@.len() ==> v@[k] > x,
        decreases hi - lo,
    {
        let mid = lo + (hi - lo) / 2;
        let y = v[mid];
        if y == x {
            return true;
        }
        if y < x {
            assert forall|k: int| 0 <= k < mid + 1 implies v@[k] < x by {
                assert(v@[k] <= v@[mid as int]);
            }
            lo = mid + 1;
        } else {
            assert forall|k: int| mid <= k < v@.len() implies v@[k] > x by {
                assert(v@[mid as int] <= v@[k]);
            }
            hi = mid;
        }
    }
    assert(!v@.contains(x)) by {
        if v@.contains(x) {
            let k = choose|k: int| 0 <= k < v@.len() && v@[k] == x;
            assert(k < lo || k >= hi);
        }
    }
    false
}

/// In whose keeping a node is while it is off the stack.
pub enum Keeper {
    /// Linked, or in the hands of an operation.
    Nobody,
    /// Removed from the stack by the participant named, and not yet
    /// certified safe for reuse.
    Retired(usize),
    /// Certified safe and kept for reuse by the participant named.
    Cached(usize),
    /// Left behind, still published, by a participant that departed.
    Deferred,
    /// Given up by a departed participant; any participant may reuse it.
    Free,
}

/// The bookkeeping that belongs to one participant.
pub struct Slot {
    hazard: usize,
    successor: usize,
    retired_pointers: Vec<usize>,
    cached_allocations: Vec<usize>,
}

/// The shared state of a hazard-pointer stack: the linked stack and one
/// slot of bookkeeping for each participant.
pub struct Shared<T> {
    arena: Arena<T>,
    slots: Vec<Slot>,
    boxes_that_are_still_hazard: Vec<usize>,
    free: Vec<usize>,
    counter: usize,
    keeper: Ghost<Seq<Keeper>>,
}

impl<T> Shared<T> {
    /// The payloads on the stack, bottom first.
    pub closed spec fn view(&self) -> Seq<T> {
        self.arena@
    }

    /// Number of nodes in the arena.
    pub closed spec fn node_count(&self) -> nat {
        self.arena.node_count()
    }

    /// The node on top of the stack, or `NULL`.
    pub closed spec fn top_node(&self) -> usize {
        self.arena.top_node()
    }

    /// In whose keeping each node is.
    pub closed spec fn keepers(&self) -> Seq<Keeper> {
        self.keeper@
    }

    /// In whose keeping node `i` is.
    pub open spec fn keeper(&self, i: int) -> Keeper {
        self.keepers()[i]
    }

    /// Node `i` is part of the stack.
    pub closed spec fn on_stack(&self, i: int) -> bool {
        self.arena.states()[i] == NodeState::Linked
    }

    /// The node that node `i` points at.
    pub closed spec fn successor_of(&self, i: int) -> usize {
        self.arena.successors()[i]
    }

    /// The node that participant `p` has published, or `NULL`.
    pub closed spec fn hazard(&self, p: int) -> usize {
        self.slots@[p].hazard
    }

    /// The successor that participant `p` read from the node that it has
    /// published.
    pub closed spec fn read_successor(&self, p: int) -> usize {
        self.slots@[p].successor
    }

    /// The nodes that participant `p` has retired and not yet recycled.
    pub closed spec fn retired(&self, p: int) -> Seq<usize> {
        self.slots@[p].retired_pointers@
    }

    /// The nodes that participant `p` keeps for reuse.
    pub closed spec fn cached(&self, p: int) -> Seq<usize> {
        self.slots@[p].cached_allocations@
    }

    /// The nodes left behind by departed participants while still published.
    pub closed spec fn deferred(&self) -> Seq<usize> {
        self.boxes_that_are_still_hazard@
    }

    /// The nodes that any participant may reuse.
    pub closed spec fn spare(&self) -> Seq<usize> {
        self.free@
    }

    /// Number of participants registered so far.
    pub closed spec fn participants(&self) -> nat {
        self.counter as nat
    }

    /// Some participant has node `i` published.
    pub open spec fn is_protected(&self, i: usize) -> bool {
        exists|p: int| 0 <= p < MAX_THREADS && self.hazard(p) == i
    }

    /// The test by which a scan keeps a retired node.
    pub open spec fn protected_pred(&self) -> spec_fn(usize) -> bool {
        |i: usize| self.is_protected(i)
    }

    /// The test by which a scan recycles a retired node.
    pub open spec fn unprotected_pred(&self) -> spec_fn(usize) -> bool {
        |i: usize| !self.is_protected(i)
    }

    /// The nodes of `list` that a scan keeps retired: those that some
    /// participant has published.
    pub open spec fn kept(&self, list: Seq<usize>) -> Seq<usize> {
        list.filter(self.protected_pred())
    }

    /// The nodes of `list` that a scan certifies safe: those that no
    /// participant has published.
    pub open spec fn recycled(&self, list: Seq<usize>) -> Seq<usize> {
        list.filter(self.unprotected_pred())
    }

    /// What becomes of a retired list: it is scanned once it has `R`
    /// entries, and left alone before.
    pub open spec fn settle_retired(&self, list: Seq<usize>) -> Seq<usize> {
        if list.len() >= R {
            self.kept(list)
        } else {
            list
        }
    }

    /// The nodes that join the cache when a retired list is settled.
    pub open spec fn settle_cached(&self, list: Seq<usize>) -> Seq<usize> {
        if list.len() >= R {
            self.recycled(list)
        } else {
            Seq::empty()
        }
    }

    /// The lists of participant `p` name distinct nodes in its keeping, and
    /// the node that `p` has published is neither cached nor spare and
    /// still points at the successor that `p` read from it.
    closed spec fn inv_slot(&self, p: int) -> bool {
        let slot = self.slots@[p];
        &&& all_at(slot.retired_pointers@, self.keeper@, Keeper::Retired(p as usize))
        &&& all_at(slot.cached_allocations@, self.keeper@, Keeper::Cached(p as usize))
        &&& slot.hazard != NULL ==> {
            &&& slot.hazard < self.keeper@.len()
            &&& !(self.keeper@[slot.hazard as int] is Cached)
            &&& !(self.keeper@[slot.hazard as int] is Free)
            &&& slot.successor == self.arena.successors()[slot.hazard as int]
        }
    }

    /// Everything that `wf` asks for, except that an operation may be
    /// under way and hold a node in its hands.
    closed spec fn inv(&self) -> bool {
        &&& self.arena.wf()
        &&& self.keeper@.len() == self.arena.node_count()
        &&& self.slots@.len() == MAX_THREADS
        &&& self.counter <= MAX_THREADS
        &&& forall|i: int|
            0 <= i < self.keeper@.len() ==> ((#[trigger] self.keeper@[i]) is Nobody
                <==> self.arena.states()[i] != NodeState::Idle)
        &&& forall|p: int| 0 <= p < MAX_THREADS ==> #[trigger] self.inv_slot(p)
        &&& all_at(self.boxes_that_are_still_hazard@, self.keeper@, Keeper::Deferred)
        &&& all_at(self.free@, self.keeper@, Keeper::Free)
    }

    /// The state is consistent: the linked nodes form the stack, every
    /// other node is in exactly one keeping and every list names distinct
    /// nodes in the keeping that the list stands for, a published node is
    /// neither cached nor spare, every retired list is shorter than `R`,
    /// and no operation is under way.
    pub closed spec fn wf(&self) -> bool {
        &&& self.inv()
        &&& forall|i: int|
            0 <= i < self.keeper@.len() ==> (#[trigger] self.arena.states()[i])
                != NodeState::Held
        &&& forall|p: int| 0 <= p < MAX_THREADS ==> (#[trigger] self.retired(p)).len() < R
    }

    /// The arena has the nodes that it has in `other`, and each of them
    /// points where it points in `other`.
    pub open spec fn same_links(&self, other: &Self) -> bool {
        &&& self.node_count() == other.node_count()
        &&& forall|i: int|
            0 <= i < self.node_count() ==> #[trigger] self.successor_of(i) == other.successor_of(i)
    }

    /// The stack and the shared lists are those of `other`.
    pub open spec fn same_stack(&self, other: &Self) -> bool {
        &&& self@ == other@
        &&& self.top_node() == other.top_node()
        &&& self.same_links(other)
        &&& self.node_count() == other.node_count()
        &&& self.deferred() == other.deferred()
        &&& self.spare() == other.spare()
        &&& forall|i: int| 0 <= i < self.node_count() ==> self.keeper(i) == other.keeper(i)
    }

    /// Participant `p` has the bookkeeping it has in `other`.
    pub open spec fn same_slot(&self, other: &Self, p: int) -> bool {
        &&& self.hazard(p) == other.hazard(p)
        &&& self.retired(p) == other.retired(p)
        &&& self.cached(p) == other.cached(p)
    }

    /// Every participant has the bookkeeping it has in `other`.
    pub open spec fn same_slots(&self, other: &Self) -> bool {
        forall|p: int|
            #![trigger self.same_slot(other, p)]
            #![trigger self.hazard(p)]
            #![trigger self.retired(p)]
            #![trigger self.cached(p)]
            0 <= p < MAX_THREADS ==> self.same_slot(other, p)
    }

    /// Every participant but `tid` has the bookkeeping it has in `other`.
    pub open spec fn same_slots_but(&self, other: &Self, tid: int) -> bool {
        forall|p: int|
            #![trigger self.same_slot(other, p)]
            #![trigger self.hazard(p)]
            #![trigger self.retired(p)]
            #![trigger self.cached(p)]
            0 <= p < MAX_THREADS && p != tid ==> self.same_slot(other, p)
    }

    /// The stack is empty exactly when no node is on top; the node on top
    /// is in nobody's keeping.
    pub proof fn lemma_top(&self)
        requires
            self.wf(),
        ensures
            self.top_node() == NULL <==> self@.len() == 0,
            self.top_node() != NULL ==> self.top_node() < self.node_count() && self.keeper(
                self.top_node() as int,
            ) is Nobody,
    {
        self.arena.lemma_top();
        self.arena.lemma_shape();
    }

    /// Every node is in exactly one place: on the stack, where it holds a
    /// payload and is in nobody's keeping, or in the one list that its
    /// keeper stands for. No list names a node twice, so no node is
    /// recycled, reused or given up twice.
    pub proof fn lemma_places(&self, p: int)
        requires
            self.wf(),
            0 <= p < MAX_THREADS,
        ensures
            self.keepers().len() == self.node_count(),
            forall|i: int|
                0 <= i < self.node_count() ==> (self.on_stack(i) <==> #[trigger] self.keeper(i)
                    is Nobody),
            all_at(self.retired(p), self.keepers(), Keeper::Retired(p as usize)),
            all_at(self.cached(p), self.keepers(), Keeper::Cached(p as usize)),
            all_at(self.deferred(), self.keepers(), Keeper::Deferred),
            all_at(self.spare(), self.keepers(), Keeper::Free),
    {
        self.arena.lemma_shape();
        assert(self.inv_slot(p));
        assert forall|i: int| 0 <= i < self.node_count() implies (self.on_stack(i)
            <==> #[trigger] self.keeper(i) is Nobody) by {
            assert(self.keeper@[i] is Nobody <==> self.arena.states()[i] != NodeState::Idle);
            assert(self.arena.states()[i] != NodeState::Held);
        }
    }

    /// The retired list of a participant never reaches `R` entries: a
    /// scan leaves at most one node for each publication.
    pub proof fn lemma_retired_bounded(&self, p: int)
        requires
            self.wf(),
            0 <= p < MAX_THREADS,
        ensures
            self.retired(p).len() < R,
    {
    }

    /// While no participant has a node published, a scan keeps nothing:
    /// every retired node is certified safe.
    pub proof fn lemma_scan_unpublished(&self, list: Seq<usize>)
        requires
            forall|p: int| 0 <= p < MAX_THREADS ==> self.hazard(p) == NULL,
            forall|k: int| 0 <= k < list.len() ==> list[k] != NULL,
        ensures
            self.kept(list) == Seq::<usize>::empty(),
            self.recycled(list) == list,
        decreases list.len(),
    {
        reveal(Seq::filter);
        if list.len() > 0 {
            self.lemma_scan_unpublished(list.drop_last());
            assert(!self.is_protected(list.last()));
            assert(list.drop_last().push(list.last()) =~= list);
        } else {
            assert(self.recycled(list) =~= list);
        }
    }

    /// A published node is neither cached nor spare: it is not reused
    /// while the publication stands. So it still points at the successor
    /// that the participant read from it, and a compare-and-swap that
    /// finds the node on top puts the right node in its place.
    pub proof fn lemma_protected(&self, p: int)
        requires
            self.wf(),
            0 <= p < MAX_THREADS,
            self.hazard(p) != NULL,
        ensures
            self.hazard(p) < self.node_count(),
            !(self.keeper(self.hazard(p) as int) is Cached),
            !(self.keeper(self.hazard(p) as int) is Free),
            self.read_successor(p) == self.successor_of(self.hazard(p) as int),
    {
        assert(self.inv_slot(p));
    }

    /// An empty stack with no participant registered.
    pub fn new() -> (s: Self)
        ensures
            s.wf(),
            s@ == Seq::<T>::empty(),
            s.node_count() == 0,
            s.top_node() == NULL,
            s.participants() == 0,
            s.deferred() == Seq::<usize>::empty(),
            s.spare() == Seq::<usize>::empty(),
            forall|p: int|
                0 <= p < MAX_THREADS ==> s.hazard(p) == NULL && s.retired(p) == Seq::<
                    usize,
                >::empty() && s.cached(p) == Seq::<usize>::empty(),
    {
        let mut slots: Vec<Slot> = Vec::new();
        while slots.len() < MAX_THREADS
            invariant
                slots@.len() <= MAX_THREADS,
                forall|p: int|
                    0 <= p < slots@.len() ==> {
                        &&& (#[trigger] slots@[p]).hazard == NULL
                        &&& slots@[p].retired_pointers@ == Seq::<usize>::empty()
                        &&& slots@[p].cached_allocations@ == Seq::<usize>::empty()
                    },
            decreases MAX_THREADS - slots@.len(),
        {
            slots.push(
                Slot {
                    hazard: NULL,
                    successor: NULL,
                    retired_pointers: Vec::new(),
                    cached_allocations: Vec::new(),
                },
            );
        }
        let s = Self {
            arena: Arena::new(),
            slots,
            boxes_that_are_still_hazard: Vec::new(),
            free: Vec::new(),
            counter: 0,
            keeper: Ghost(Seq::empty()),
        };
        proof {
            assert forall|p: int| 0 <= p < MAX_THREADS implies #[trigger] s.inv_slot(p) by {
                assert(s.slots@[p].hazard == NULL);
            }
            assert forall|p: int| 0 <= p < MAX_THREADS implies (#[trigger] s.retired(p)).len()
                < R by {
                assert(s.slots@[p].hazard == NULL);
            }
        }
        s
    }

    /// The lists and the publication of participant `p` are those it has
    /// in `other`.
    closed spec fn same_slot_fields(&self, other: &Self, p: int) -> bool {
        &&& self.slots@[p].hazard == other.slots@[p].hazard
        &&& self.slots@[p].successor == other.slots@[p].successor
        &&& self.slots@[p].retired_pointers@ == other.slots@[p].retired_pointers@
        &&& self.slots@[p].cached_allocations@ == other.slots@[p].cached_allocations@
    }

    /// A participant whose slot is unchanged, none of whose nodes changed
    /// keeper, and whose published node was not written to is as
    /// consistent as before.
    proof fn lemma_slot_untouched(&self, after: &Self, p: int)
        requires
            0 <= p < MAX_THREADS,
            self.inv_slot(p),
            after.keeper@.len() >= self.keeper@.len(),
            after.arena.successors().len() >= self.keeper@.len(),
            self.arena.successors().len() >= self.keeper@.len(),
            forall|i: int|
                0 <= i < self.keeper@.len() && (self.keeper@[i] == Keeper::Retired(p as usize)
                    || self.keeper@[i] == Keeper::Cached(p as usize))
                        ==> #[trigger] after.keeper@[i]
                    == self.keeper@[i],
            after.same_slot_fields(self, p),
            self.slots@[p].hazard != NULL ==> {
                let h = self.slots@[p].hazard as int;
                &&& !(after.keeper@[h] is Cached)
                &&& !(after.keeper@[h] is Free)
                &&& after.arena.successors()[h] == self.arena.successors()[h]
            },
        ensures
            after.inv_slot(p),
    {
        let slot = self.slots@[p];
        lemma_all_at_kept(
            slot.retired_pointers@,
            self.keeper@,
            Keeper::Retired(p as usize),
            after.keeper@,
        );
        lemma_all_at_kept(
            slot.cached_allocations@,
            self.keeper@,
            Keeper::Cached(p as usize),
            after.keeper@,
        );
    }

    /// A change that leaves every list and publication alone, every node
    /// idle or not as it was, and every node pointing where it pointed
    /// keeps the state consistent.
    proof fn lemma_lists_kept(&self, after: &Self)
        requires
            self.inv(),
            after.arena.wf(),
            after.arena.node_count() == self.arena.node_count(),
            after.arena.successors() == self.arena.successors(),
            forall|i: int|
                0 <= i < self.keeper@.len() ==> (#[trigger] after.arena.states()[i]
                    == NodeState::Idle) == (self.arena.states()[i] == NodeState::Idle),
            after.keeper@ == self.keeper@,
            after.slots@.len() == self.slots@.len(),
            forall|p: int| 0 <= p < MAX_THREADS ==> #[trigger] after.same_slot_fields(self, p),
            after.boxes_that_are_still_hazard@ == self.boxes_that_are_still_hazard@,
            after.free@ == self.free@,
            after.counter <= MAX_THREADS,
        ensures
            after.inv(),
    {
        self.arena.lemma_shape();
        assert forall|p: int| 0 <= p < MAX_THREADS implies #[trigger] after.inv_slot(p) by {
            assert(self.inv_slot(p));
            assert(after.same_slot_fields(self, p));
            self.lemma_slot_untouched(after, p);
        }
        assert forall|i: int| 0 <= i < after.keeper@.len() implies ((
        #[trigger] after.keeper@[i]) is Nobody <==> after.arena.states()[i] != NodeState::Idle) by {
            assert(self.keeper@[i] is Nobody <==> self.arena.states()[i] != NodeState::Idle);
        }
    }

    /// A state with the same arena states and retired lists is as settled.
    proof fn lemma_settled(&self, after: &Self)
        requires
            self.wf(),
            after.inv(),
            after.arena.states() == self.arena.states(),
            forall|p: int| 0 <= p < MAX_THREADS ==> after.retired(p) == self.retired(p),
        ensures
            after.wf(),
    {
        self.arena.lemma_shape();
        after.arena.lemma_shape();
        assert forall|i: int| 0 <= i < after.keeper@.len() implies (
        #[trigger] after.arena.states()[i]) != NodeState::Held by {
            assert(self.arena.states()[i] != NodeState::Held);
        }
        assert forall|p: int| 0 <= p < MAX_THREADS implies (#[trigger] after.retired(p)).len()
            < R by {
            assert(self.retired(p).len() < R);
        }
    }

    /// Registers one more participant and hands out its number. The table
    /// must have a slot left: to register a participant beyond the last
    /// slot is an error of the caller, who tests `registered` first.
    pub fn register(&mut self) -> (id: usize)
        requires
            old(self).wf(),
            old(self).participants() < MAX_THREADS,
        ensures
            final(self).wf(),
            final(self).same_stack(old(self)),
            final(self).same_slots(old(self)),
            id == old(self).participants(),
            id < MAX_THREADS,
            final(self).participants() == old(self).participants() + 1,
    {
        let id = self.counter;
        self.counter = id + 1;
        proof {
            assert forall|p: int| 0 <= p < MAX_THREADS implies #[trigger] self.same_slot_fields(
                old(self),
                p,
            ) by {}
            old(self).lemma_lists_kept(self);
            old(self).lemma_settled(self);
            assert forall|p: int| 0 <= p < MAX_THREADS implies #[trigger] self.same_slot(
                old(self),
                p,
            ) by {}
        }
        id
    }

    /// Number of participants registered so far; it never exceeds the
    /// number of slots.
    pub fn registered(&self) -> (n: usize)
        requires
            self.wf(),
        ensures
            n == self.participants(),
            n <= MAX_THREADS,
    {
        self.counter
    }

    /// Number of payloads on the stack.
    pub fn len(&self) -> (n: usize)
        requires
            self.wf(),
        ensures
            n == self@.len(),
    {
        self.arena.len()
    }

    /// Number of nodes in the arena.
    pub fn nodes(&self) -> (n: usize)
        requires
            self.wf(),
        ensures
            n == self.node_count(),
    {
        self.arena.count()
    }

    /// The node that participant `tid` has published, or `NULL`.
    pub fn published(&self, tid: usize) -> (h: usize)
        requires
            self.wf(),
            tid < MAX_THREADS,
        ensures
            h == self.hazard(tid as int),
    {
        self.slots[tid].hazard
    }

    /// Number of nodes that participant `tid` has retired and not yet
    /// recycled.
    pub fn pending(&self, tid: usize) -> (n: usize)
        requires
            self.wf(),
            tid < MAX_THREADS,
        ensures
            n == self.retired(tid as int).len(),
            n < R,
    {
        self.slots[tid].retired_pointers.len()
    }

    /// Number of nodes that participant `tid` keeps for reuse.
    pub fn reusable(&self, tid: usize) -> (n: usize)
        requires
            self.wf(),
            tid < MAX_THREADS,
        ensures
            n == self.cached(tid as int).len(),
    {
        self.slots[tid].cached_allocations.len()
    }

    /// Number of nodes that any participant may reuse.
    pub fn spares(&self) -> (n: usize)
        requires
            self.wf(),
        ensures
            n == self.spare().len(),
    {
        self.free.len()
    }

    /// Number of nodes that departed participants left behind while they
    /// were still published.
    pub fn left_behind(&self) -> (n: usize)
        requires
            self.wf(),
        ensures
            n == self.deferred().len(),
    {
        self.boxes_that_are_still_hazard.len()
    }

    /// The nodes that participants have published, in ascending order.
    fn hazards(&self) -> (v: Vec<usize>)
        requires
            self.slots@.len() == MAX_THREADS,
        ensures
            sorted(v@),
            v@.len() <= MAX_THREADS,
            forall|i: usize| v@.contains(i) <==> i != NULL && self.is_protected(i),
    {
        let mut v: Vec<usize> = Vec::new();
        let mut p: usize = 0;
        while p < MAX_THREADS
            invariant
                p <= MAX_THREADS,
                self.slots@.len() == MAX_THREADS,
                sorted(v@),
                v@.len() <= p,
                forall|i: usize|
                    v@.contains(i) <==> i != NULL && exists|q: int|
                        0 <= q < p && self.hazard(q) == i,
            decreases MAX_THREADS - p,
        {
            let h = self.slots[p].hazard;
            if h != NULL {
                let ghost before = v@;
                insert_sorted(&mut v, h);
                assert forall|i: usize|
                    v@.contains(i) <==> i != NULL && exists|q: int|
                        0 <= q < p + 1 && self.hazard(q) == i by {
                    if i != NULL && exists|q: int| 0 <= q < p + 1 && self.hazard(q) == i {
                        let q = choose|q: int| 0 <= q < p + 1 && self.hazard(q) == i;
                        if q < p {
                            assert(before.contains(i));
                        }
                    }
                    if v@.contains(i) && i != h {
                        assert(before.contains(i));
                        let q = choose|q: int| 0 <= q < p && self.hazard(q) == i;
                        assert(0 <= q < p + 1 && self.hazard(q) == i);
                    }
                    if i == h {
                        assert(self.hazard(p as int) == i);
                    }
                }
            } else {
                assert forall|i: usize|
                    v@.contains(i) <==> i != NULL && exists|q: int|
                        0 <= q < p + 1 && self.hazard(q) == i by {
                    if i != NULL && exists|q: int| 0 <= q < p + 1 && self.hazard(q) == i {
                        let q = choose|q: int| 0 <= q < p + 1 && self.hazard(q) == i;
                        assert(q < p);
                    }
                    if v@.contains(i) {
                        let q = choose|q: int| 0 <= q < p && self.hazard(q) == i;
                        assert(0 <= q < p + 1 && self.hazard(q) == i);
                    }
                }
            }
            p = p + 1;
        }
        v
    }


    /// The node that a push by participant `p` would link: the node that
    /// `p` cached last, else the spare node given up last, else a new one.
    pub open spec fn fresh_node(&self, p: int) -> usize {
        if self.cached(p).len() > 0 {
            self.cached(p).last()
        } else if self.spare().len() > 0 {
            self.spare().last()
        } else {
            self.node_count() as usize
        }
    }

    /// What participant `p` keeps cached after a push of its own.
    pub open spec fn cached_after_push(&self, p: int) -> Seq<usize> {
        if self.cached(p).len() > 0 {
            self.cached(p).drop_last()
        } else {
            self.cached(p)
        }
    }

    /// The spare nodes after a push by participant `p`.
    pub open spec fn spare_after_push(&self, p: int) -> Seq<usize> {
        if self.cached(p).len() == 0 && self.spare().len() > 0 {
            self.spare().drop_last()
        } else {
            self.spare()
        }
    }

    /// Stores `node` in the arena and hands out its index: in the node that
    /// participant `tid` cached last, else in the spare node given up last,
    /// else in a new one. The node is in the caller's hands.
    fn get_node(&mut self, tid: usize, node: Node<T>) -> (idx: usize)
        requires
            old(self).inv(),
            tid < MAX_THREADS,
        ensures
            final(self).inv(),
            idx == old(self).fresh_node(tid as int),
            idx < final(self).arena.node_count(),
            final(self).arena.node_count() == if idx < old(self).arena.node_count() {
                old(self).arena.node_count()
            } else {
                old(self).arena.node_count() + 1
            },
            final(self).arena.states() == if idx < old(self).arena.node_count() {
                old(self).arena.states().update(idx as int, NodeState::Held)
            } else {
                old(self).arena.states().push(NodeState::Held)
            },
            final(self).keeper@ == if idx < old(self).arena.node_count() {
                old(self).keeper@.update(idx as int, Keeper::Nobody)
            } else {
                old(self).keeper@.push(Keeper::Nobody)
            },
            final(self).arena.payloads()[idx as int] == node.data,
            final(self).arena.successors() == if idx < old(self).arena.node_count() {
                old(self).arena.successors().update(idx as int, node.next)
            } else {
                old(self).arena.successors().push(node.next)
            },
            final(self).arena@ == old(self).arena@,
            final(self).arena.top_node() == old(self).arena.top_node(),
            final(self).counter == old(self).counter,
            final(self).deferred() == old(self).deferred(),
            final(self).same_slots_but(old(self), tid as int),
            final(self).hazard(tid as int) == old(self).hazard(tid as int),
            final(self).retired(tid as int) == old(self).retired(tid as int),
            final(self).cached(tid as int) == old(self).cached_after_push(tid as int),
            final(self).spare() == old(self).spare_after_push(tid as int),
    {
        proof {
            assert(old(self).inv_slot(tid as int));
            old(self).arena.lemma_shape();
        }
        let from_cache = self.slots[tid].cached_allocations.len() > 0;
        let reused = if from_cache {
            self.slots[tid].cached_allocations.pop()
        } else {
            self.free.pop()
        };
        match reused {
            Some(i) => {
                proof {
                    if from_cache {
                        let list = old(self).slots@[tid as int].cached_allocations@;
                        assert(list[list.len() - 1] == i);
                    } else {
                        assert(old(self).free@[old(self).free@.len() - 1] == i);
                    }
                    assert(old(self).keeper@[i as int] == Keeper::Cached(tid) || old(
                        self).keeper@[i as int] == Keeper::Free);
                    assert(old(self).arena.states()[i as int] == NodeState::Idle);
                }
                self.arena.store(i, node);
                proof {
                    self.keeper@ = self.keeper@.update(i as int, Keeper::Nobody);
                    self.arena.lemma_shape();
                    let to = Keeper::Nobody;
                    assert forall|p: int| 0 <= p < MAX_THREADS implies #[trigger] self.inv_slot(
                        p,
                    ) by {
                        assert(old(self).inv_slot(p));
                        let slot = old(self).slots@[p];
                        assert(self.slots@[p].hazard == slot.hazard);
                        assert(self.slots@[p].successor == slot.successor);
                        assert(self.slots@[p].retired_pointers@ == slot.retired_pointers@);
                        if p == tid && from_cache {
                            lemma_all_at_elsewhere(
                                slot.retired_pointers@,
                                old(self).keeper@,
                                Keeper::Retired(p as usize),
                                i as int,
                                to,
                            );
                            lemma_all_at_drop_last(
                                slot.cached_allocations@,
                                old(self).keeper@,
                                Keeper::Cached(p as usize),
                                to,
                            );
                            assert(self.slots@[p].cached_allocations@
                                =~= slot.cached_allocations@.drop_last());
                        } else {
                            assert(self.slots@[p].cached_allocations@
                                =~= slot.cached_allocations@);
                            old(self).lemma_slot_untouched(self, p);
                        }
                    }
                    if from_cache {
                        lemma_all_at_elsewhere(
                            old(self).free@,
                            old(self).keeper@,
                            Keeper::Free,
                            i as int,
                            to,
                        );
                    } else {
                        lemma_all_at_drop_last(
                            old(self).free@,
                            old(self).keeper@,
                            Keeper::Free,
                            to,
                        );
                        assert(self.free@ =~= old(self).free@.drop_last());
                    }
                    lemma_all_at_elsewhere(
                        old(self).boxes_that_are_still_hazard@,
                        old(self).keeper@,
                        Keeper::Deferred,
                        i as int,
                        to,
                    );
                    assert(self.cached(tid as int) =~= old(self).cached_after_push(tid as int));
                    assert(self.spare() =~= old(self).spare_after_push(tid as int));
                    assert forall|p: int|
                        0 <= p < MAX_THREADS && p != tid implies #[trigger] self.same_slot(
                        old(self),
                        p,
                    ) by {
                        assert(self.slots@[p] == old(self).slots@[p]);
                    }
                }
                i
            },
            None => {
                let i = self.arena.insert(node);
                proof {
                    self.keeper@ = self.keeper@.push(Keeper::Nobody);
                    self.arena.lemma_shape();
                    assert forall|p: int| 0 <= p < MAX_THREADS implies #[trigger] self.inv_slot(
                        p,
                    ) by {
                        assert(old(self).inv_slot(p));
                        let slot = old(self).slots@[p];
                        assert(self.slots@[p].hazard == slot.hazard);
                        assert(self.slots@[p].successor == slot.successor);
                        assert(self.slots@[p].retired_pointers@ == slot.retired_pointers@);
                        assert(self.slots@[p].cached_allocations@ =~= slot.cached_allocations@);
                        old(self).lemma_slot_untouched(self, p);
                    }
                    lemma_all_at_grown(
                        old(self).free@,
                        old(self).keeper@,
                        Keeper::Free,
                        Keeper::Nobody,
                    );
                    lemma_all_at_grown(
                        old(self).boxes_that_are_still_hazard@,
                        old(self).keeper@,
                        Keeper::Deferred,
                        Keeper::Nobody,
                    );
                    assert(self.free@ =~= old(self).free@);
                    assert(self.cached(tid as int) =~= old(self).cached_after_push(tid as int));
                    assert forall|p: int|
                        0 <= p < MAX_THREADS && p != tid implies #[trigger] self.same_slot(
                        old(self),
                        p,
                    ) by {
                        assert(self.slots@[p] == old(self).slots@[p]);
                    }
                }
                i
            },
        }
    }

    /// Every slot is as in `other`.
    proof fn lemma_slots_same(&self, other: &Self)
        requires
            self.slots@ == other.slots@,
        ensures
            forall|p: int| 0 <= p < MAX_THREADS ==> #[trigger] self.same_slot_fields(other, p),
            forall|p: int| 0 <= p < MAX_THREADS ==> #[trigger] self.same_slot(other, p),
    {
    }

    /// Pushes `data` for participant `tid`: the payload goes into the node
    /// that `fresh_node` names, which becomes the top of the stack.
    pub fn push(&mut self, tid: usize, data: T)
        requires
            old(self).wf(),
            tid < MAX_THREADS,
        ensures
            final(self).wf(),
            final(self)@ == old(self)@.push(data),
            final(self).top_node() == old(self).fresh_node(tid as int),
            final(self).successor_of(final(self).top_node() as int) == old(self).top_node(),
            forall|i: int|
                0 <= i < old(self).node_count() && i != final(self).top_node() ==> final(
                    self).successor_of(i) == old(self).successor_of(i),
            final(self).keeper(final(self).top_node() as int) == Keeper::Nobody,
            final(self).node_count() == if old(self).fresh_node(tid as int) < old(
                self).node_count() {
                old(self).node_count()
            } else {
                old(self).node_count() + 1
            },
            forall|i: int|
                0 <= i < old(self).node_count() && i != final(self).top_node() ==> final(
                    self).keeper(i) == old(self).keeper(i),
            final(self).participants() == old(self).participants(),
            final(self).deferred() == old(self).deferred(),
            final(self).spare() == old(self).spare_after_push(tid as int),
            final(self).same_slots_but(old(self), tid as int),
            final(self).hazard(tid as int) == old(self).hazard(tid as int),
            final(self).retired(tid as int) == old(self).retired(tid as int),
            final(self).cached(tid as int) == old(self).cached_after_push(tid as int),
    {
        let top = self.arena.top();
        let node = Node { data: Some(data), next: top };
        let idx = self.get_node(tid, node);
        let ghost before = *self;
        proof {
            old(self).arena.lemma_shape();
            before.arena.lemma_shape();
        }
        let linked = self.arena.link(idx, top);
        proof {
            self.arena.lemma_shape();
            self.lemma_slots_same(&before);
            before.lemma_lists_kept(self);
            assert forall|i: int| 0 <= i < self.keeper@.len() implies (
            #[trigger] self.arena.states()[i]) != NodeState::Held by {
                if i != idx {
                    assert(old(self).arena.states()[i] != NodeState::Held);
                }
            }
            assert forall|p: int| 0 <= p < MAX_THREADS implies (#[trigger] self.retired(p)).len()
                < R by {
                assert(old(self).retired(p).len() < R);
                if p != tid {
                    assert(before.same_slot(old(self), p));
                }
            }
            assert forall|p: int|
                0 <= p < MAX_THREADS && p != tid implies #[trigger] self.same_slot(
                old(self),
                p,
            ) by {
                assert(before.same_slot(old(self), p));
                assert(self.same_slot(&before, p));
            }
        }
    }

    /// Publishes the top of the stack as the node that participant `tid` is
    /// about to read, and reads that node's successor under this protection.
    /// From now on the node is neither recycled nor reused until `tid`
    /// publishes another node or none.
    pub fn protect(&mut self, tid: usize) -> (r: Option<usize>)
        requires
            old(self).wf(),
            tid < MAX_THREADS,
        ensures
            final(self).wf(),
            final(self).same_stack(old(self)),
            final(self).participants() == old(self).participants(),
            final(self).same_slots_but(old(self), tid as int),
            final(self).retired(tid as int) == old(self).retired(tid as int),
            final(self).cached(tid as int) == old(self).cached(tid as int),
            final(self).hazard(tid as int) == old(self).top_node(),
            old(self).top_node() != NULL ==> final(self).read_successor(tid as int) == old(
                self).successor_of(old(self).top_node() as int),
            r == if old(self).top_node() == NULL {
                None
            } else {
                Some(old(self).top_node())
            },
    {
        proof {
            old(self).lemma_top();
            old(self).arena.lemma_shape();
        }
        let top = self.arena.top();
        self.slots[tid].hazard = top;
        if top != NULL {
            let next = self.arena.next(top);
            self.slots[tid].successor = next;
        }
        proof {
            assert forall|p: int| 0 <= p < MAX_THREADS implies #[trigger] self.inv_slot(p) by {
                assert(old(self).inv_slot(p));
                if p != tid {
                    assert(self.slots@[p] == old(self).slots@[p]);
                }
            }
            old(self).lemma_settled(self);
            assert forall|p: int|
                0 <= p < MAX_THREADS && p != tid implies #[trigger] self.same_slot(
                old(self),
                p,
            ) by {
                assert(self.slots@[p] == old(self).slots@[p]);
            }
        }
        if top == NULL {
            None
        } else {
            Some(top)
        }
    }

    /// Two states with the same publications keep and recycle alike.
    proof fn lemma_same_tests(&self, other: &Self)
        requires
            forall|p: int| 0 <= p < MAX_THREADS ==> self.hazard(p) == other.hazard(p),
        ensures
            self.protected_pred() == other.protected_pred(),
            self.unprotected_pred() == other.unprotected_pred(),
    {
        assert forall|i: usize| self.is_protected(i) == other.is_protected(i) by {
            if self.is_protected(i) {
                let p = choose|p: int| 0 <= p < MAX_THREADS && self.hazard(p) == i;
                assert(other.hazard(p) == i);
            }
            if other.is_protected(i) {
                let p = choose|p: int| 0 <= p < MAX_THREADS && other.hazard(p) == i;
                assert(self.hazard(p) == i);
            }
        }
        assert(self.protected_pred() =~= other.protected_pred());
        assert(self.unprotected_pred() =~= other.unprotected_pred());
    }

    /// Moves node `idx` from keeper `from` to keeper `to`, which is not
    /// `Cached` or `Free` unless nobody has the node published: every slot
    /// whose lists do not name the node stays consistent.
    proof fn lemma_slot_elsewhere(&self, after: &Self, p: int, idx: usize, to: Keeper)
        requires
            0 <= p < MAX_THREADS,
            self.inv_slot(p),
            idx < self.keeper@.len(),
            self.keeper@[idx as int] != Keeper::Retired(p as usize),
            self.keeper@[idx as int] != Keeper::Cached(p as usize),
            after.keeper@ == self.keeper@.update(idx as int, to),
            after.arena.successors() == self.arena.successors(),
            self.arena.successors().len() >= self.keeper@.len(),
            after.same_slot_fields(self, p),
            (to is Cached || to is Free) ==> self.slots@[p].hazard != idx,
        ensures
            after.inv_slot(p),
    {
        self.lemma_slot_untouched(after, p);
    }

    /// Keeps node `idx`, which participant `tid` retired and nobody has
    /// published, for reuse by `tid`. The node is in none of the lists.
    fn prepare_for_reuse(&mut self, tid: usize, idx: usize)
        requires
            old(self).inv(),
            tid < MAX_THREADS,
            idx < old(self).keeper@.len(),
            old(self).keeper@[idx as int] == Keeper::Retired(tid),
            forall|k: int|
                0 <= k < old(self).retired(tid as int).len() ==> old(self).retired(tid as int)[k]
                    != idx,
            !old(self).is_protected(idx),
        ensures
            final(self).inv(),
            final(self).arena == old(self).arena,
            final(self).counter == old(self).counter,
            final(self).boxes_that_are_still_hazard@ == old(self).boxes_that_are_still_hazard@,
            final(self).free@ == old(self).free@,
            final(self).keeper@ == old(self).keeper@.update(idx as int, Keeper::Cached(tid)),
            final(self).same_slots_but(old(self), tid as int),
            final(self).hazard(tid as int) == old(self).hazard(tid as int),
            final(self).retired(tid as int) == old(self).retired(tid as int),
            final(self).cached(tid as int) == old(self).cached(tid as int).push(idx),
    {
        self.slots[tid].cached_allocations.push(idx);
        proof {
            let to = Keeper::Cached(tid);
            self.keeper@ = self.keeper@.update(idx as int, to);
            old(self).arena.lemma_shape();
            assert forall|p: int| 0 <= p < MAX_THREADS implies #[trigger] self.inv_slot(p) by {
                assert(old(self).inv_slot(p));
                assert(old(self).hazard(p) != idx);
                let slot = old(self).slots@[p];
                if p == tid {
                    assert(old(self).retired(tid as int) == slot.retired_pointers@);
                    lemma_all_at_absent(
                        slot.retired_pointers@,
                        old(self).keeper@,
                        Keeper::Retired(p as usize),
                        idx as int,
                        to,
                    );
                    lemma_all_at_push(slot.cached_allocations@, old(self).keeper@, to, idx);
                } else {
                    assert(self.slots@[p] == slot);
                    old(self).lemma_slot_elsewhere(self, p, idx, to);
                }
            }
            lemma_all_at_elsewhere(
                old(self).boxes_that_are_still_hazard@,
                old(self).keeper@,
                Keeper::Deferred,
                idx as int,
                to,
            );
            lemma_all_at_elsewhere(
                old(self).free@,
                old(self).keeper@,
                Keeper::Free,
                idx as int,
                to,
            );
            assert forall|p: int|
                0 <= p < MAX_THREADS && p != tid implies #[trigger] self.same_slot(
                old(self),
                p,
            ) by {
                assert(self.slots@[p] == old(self).slots@[p]);
            }
        }
    }

    /// Sorts the retired nodes of participant `tid`: a node that some
    /// participant has published stays retired, every other one goes to
    /// the cache of `tid`, in the order in which they were retired.
    fn scan_retired(&mut self, tid: usize)
        requires
            old(self).inv(),
            tid < MAX_THREADS,
        ensures
            final(self).inv(),
            final(self).arena == old(self).arena,
            final(self).counter == old(self).counter,
            final(self).boxes_that_are_still_hazard@ == old(self).boxes_that_are_still_hazard@,
            final(self).free@ == old(self).free@,
            final(self).same_slots_but(old(self), tid as int),
            final(self).hazard(tid as int) == old(self).hazard(tid as int),
            final(self).retired(tid as int) == old(self).kept(old(self).retired(tid as int)),
            final(self).cached(tid as int) == old(self).cached(tid as int) + old(self).recycled(
                old(self).retired(tid as int),
            ),
            final(self).retired(tid as int).len() <= MAX_THREADS,
            final(self).keeper@.len() == old(self).keeper@.len(),
            forall|i: int|
                0 <= i < old(self).keeper@.len() ==> final(self).keeper@[i] == old(self).keeper@[i]
                    || (old(self).keeper@[i] == Keeper::Retired(tid) && final(self).keeper@[i]
                    == Keeper::Cached(tid)),
    {
        let hazards = self.hazards();
        let mut rlist: Vec<usize> = Vec::new();
        std::mem::swap(&mut self.slots[tid].retired_pointers, &mut rlist);
        let ghost keep = old(self).protected_pred();
        let ghost drop = old(self).unprotected_pred();
        let ghost base = old(self).cached(tid as int);
        proof {
            assert(old(self).inv_slot(tid as int));
            old(self).arena.lemma_shape();
            assert forall|p: int| 0 <= p < MAX_THREADS implies #[trigger] self.inv_slot(p) by {
                assert(old(self).inv_slot(p));
                if p != tid {
                    assert(self.slots@[p] == old(self).slots@[p]);
                }
            }
            assert forall|p: int|
                0 <= p < MAX_THREADS && p != tid implies #[trigger] self.same_slot(
                old(self),
                p,
            ) by {
                assert(self.slots@[p] == old(self).slots@[p]);
            }
            assert(rlist@.take(0) =~= Seq::<usize>::empty());
            assert(self.cached(tid as int) =~= base + rlist@.take(0).filter(drop));
        }
        let mut kept: Vec<usize> = Vec::new();
        let mut k: usize = 0;
        while k < rlist.len()
            invariant
                tid < MAX_THREADS,
                k <= rlist@.len(),
                self.inv(),
                self.arena == old(self).arena,
                self.counter == old(self).counter,
                self.boxes_that_are_still_hazard@ == old(self).boxes_that_are_still_hazard@,
                self.free@ == old(self).free@,
                self.same_slots_but(old(self), tid as int),
                self.hazard(tid as int) == old(self).hazard(tid as int),
                self.keeper@.len() == old(self).keeper@.len(),
                rlist@ == old(self).retired(tid as int),
                rlist@.no_duplicates(),
                self.retired(tid as int) == Seq::<usize>::empty(),
                keep == old(self).protected_pred(),
                drop == old(self).unprotected_pred(),
                base == old(self).cached(tid as int),
                sorted(hazards@),
                hazards@.len() <= MAX_THREADS,
                forall|i: usize| hazards@.contains(i) <==> i != NULL && old(self).is_protected(i),
                forall|j: int|
                    k <= j < rlist@.len() ==> (#[trigger] rlist@[j]) < self.keeper@.len()
                        && self.keeper@[rlist@[j] as int] == Keeper::Retired(tid),
                all_at(kept@, self.keeper@, Keeper::Retired(tid)),
                forall|a: int|
                    0 <= a < kept@.len() ==> hazards@.contains(#[trigger] kept@[a]) && exists|
                        j: int,
                    | 0 <= j < k && rlist@[j] == kept@[a],
                kept@ == rlist@.take(k as int).filter(keep),
                self.cached(tid as int) == base + rlist@.take(k as int).filter(drop),
                forall|i: int|
                    0 <= i < old(self).keeper@.len() ==> self.keeper@[i] == old(self).keeper@[i]
                        || (old(self).keeper@[i] == Keeper::Retired(tid) && self.keeper@[i]
                        == Keeper::Cached(tid)),
            decreases rlist@.len() - k,
        {
            let idx = rlist[k];
            let found = binary_search(&hazards, idx);
            proof {
                rlist@.lemma_take_succ_push(k as int);
                rlist@.take(k as int).lemma_filter_push(idx, keep);
                rlist@.take(k as int).lemma_filter_push(idx, drop);
                old(self).arena.lemma_shape();
                assert(idx < self.keeper@.len() <= usize::MAX);
                assert(found == old(self).is_protected(idx));
                assert forall|q: int| 0 <= q < MAX_THREADS implies self.hazard(q) == old(
                    self).hazard(q) by {
                    if q != tid {
                        assert(self.same_slot(old(self), q));
                    }
                }
                assert(self.is_protected(idx) == old(self).is_protected(idx));
                assert forall|a: int| 0 <= a < kept@.len() implies kept@[a] != idx by {
                    let j = choose|j: int| 0 <= j < k && rlist@[j] == kept@[a];
                    assert(rlist@[j] != rlist@[k as int]);
                }
            }
            if found {
                let ghost shorter = kept@;
                kept.push(idx);
                proof {
                    assert forall|a: int, b: int|
                        0 <= a < kept@.len() && 0 <= b < kept@.len() && a != b implies kept@[a]
                        != kept@[b] by {
                        if a < shorter.len() {
                            assert(kept@[a] == shorter[a]);
                        }
                        if b < shorter.len() {
                            assert(kept@[b] == shorter[b]);
                        }
                    }
                    assert forall|a: int| 0 <= a < kept@.len() implies hazards@.contains(
                        #[trigger] kept@[a],
                    ) && exists|j: int| 0 <= j < k + 1 && rlist@[j] == kept@[a] by {
                        if a < shorter.len() {
                            assert(kept@[a] == shorter[a]);
                            let j = choose|j: int| 0 <= j < k && rlist@[j] == shorter[a];
                            assert(0 <= j < k + 1 && rlist@[j] == kept@[a]);
                        } else {
                            assert(rlist@[k as int] == kept@[a]);
                        }
                    }
                }
            } else {
                let ghost before = *self;
                self.prepare_for_reuse(tid, idx);
                proof {
                    lemma_all_at_absent(
                        kept@,
                        before.keeper@,
                        Keeper::Retired(tid),
                        idx as int,
                        Keeper::Cached(tid),
                    );
                    assert forall|j: int| k + 1 <= j < rlist@.len() implies (
                    #[trigger] rlist@[j]) < self.keeper@.len() && self.keeper@[rlist@[j] as int]
                        == Keeper::Retired(tid) by {
                        assert(rlist@[j] != rlist@[k as int]);
                    }
                    assert forall|a: int| 0 <= a < kept@.len() implies hazards@.contains(
                        #[trigger] kept@[a],
                    ) && exists|j: int| 0 <= j < k + 1 && rlist@[j] == kept@[a] by {
                        let j = choose|j: int| 0 <= j < k && rlist@[j] == kept@[a];
                        assert(0 <= j < k + 1 && rlist@[j] == kept@[a]);
                    }
                    assert(self.cached(tid as int) =~= base + rlist@.take(k + 1).filter(drop));
                    assert forall|p: int|
                        0 <= p < MAX_THREADS && p != tid implies #[trigger] self.same_slot(
                        old(self),
                        p,
                    ) by {
                        assert(before.same_slot(old(self), p));
                        assert(self.same_slot(&before, p));
                    }
                }
            }
            k = k + 1;
        }
        proof {
            assert(rlist@.take(k as int) =~= rlist@);
            lemma_distinct_within(kept@, hazards@);
        }
        let ghost before = *self;
        self.slots[tid].retired_pointers = kept;
        proof {
            assert forall|p: int| 0 <= p < MAX_THREADS implies #[trigger] self.inv_slot(p) by {
                assert(before.inv_slot(p));
                if p != tid {
                    assert(self.slots@[p] == before.slots@[p]);
                }
            }
            assert forall|p: int|
                0 <= p < MAX_THREADS && p != tid implies #[trigger] self.same_slot(
                old(self),
                p,
            ) by {
                assert(before.same_slot(old(self), p));
                assert(self.slots@[p] == before.slots@[p]);
            }
        }
    }

    /// Scans the retired list of participant `tid`: a node that some
    /// participant has published stays retired, every other one is
    /// certified safe and joins the cache of `tid`.
    pub fn scan(&mut self, tid: usize)
        requires
            old(self).wf(),
            tid < MAX_THREADS,
        ensures
            final(self).wf(),
            final(self)@ == old(self)@,
            final(self).top_node() == old(self).top_node(),
            final(self).node_count() == old(self).node_count(),
            final(self).same_links(old(self)),
            final(self).participants() == old(self).participants(),
            final(self).deferred() == old(self).deferred(),
            final(self).spare() == old(self).spare(),
            final(self).same_slots_but(old(self), tid as int),
            final(self).hazard(tid as int) == old(self).hazard(tid as int),
            final(self).retired(tid as int) == old(self).kept(old(self).retired(tid as int)),
            final(self).cached(tid as int) == old(self).cached(tid as int) + old(self).recycled(
                old(self).retired(tid as int),
            ),
            final(self).retired(tid as int).len() <= MAX_THREADS,
            forall|i: int|
                0 <= i < old(self).node_count() ==> final(self).keeper(i) == old(self).keeper(i)
                    || (old(self).keeper(i) == Keeper::Retired(tid) && final(self).keeper(i)
                    == Keeper::Cached(tid)),
    {
        self.scan_retired(tid);
        proof {
            old(self).arena.lemma_shape();
            assert forall|i: int| 0 <= i < self.keeper@.len() implies (
            #[trigger] self.arena.states()[i]) != NodeState::Held by {
                assert(old(self).arena.states()[i] != NodeState::Held);
            }
            assert forall|p: int| 0 <= p < MAX_THREADS implies (#[trigger] self.retired(p)).len()
                < R by {
                assert(old(self).retired(p).len() < R);
                if p != tid {
                    assert(self.same_slot(old(self), p));
                }
            }
        }
    }

    /// Retires node `idx`, which participant `tid` has just removed from
    /// the stack and emptied, and scans the retired list of `tid` once it
    /// has `R` entries.
    fn retire_node(&mut self, tid: usize, idx: usize)
        requires
            old(self).inv(),
            tid < MAX_THREADS,
            idx < old(self).arena.node_count(),
            old(self).arena.states()[idx as int] == NodeState::Held,
            old(self).arena.payloads()[idx as int] is None,
            old(self).retired(tid as int).len() < R,
        ensures
            final(self).inv(),
            final(self).arena@ == old(self).arena@,
            final(self).arena.top_node() == old(self).arena.top_node(),
            final(self).arena.node_count() == old(self).arena.node_count(),
            final(self).arena.states() == old(self).arena.states().update(
                idx as int,
                NodeState::Idle,
            ),
            final(self).arena.successors() == old(self).arena.successors(),
            final(self).counter == old(self).counter,
            final(self).boxes_that_are_still_hazard@ == old(self).boxes_that_are_still_hazard@,
            final(self).free@ == old(self).free@,
            final(self).same_slots_but(old(self), tid as int),
            final(self).hazard(tid as int) == old(self).hazard(tid as int),
            final(self).retired(tid as int) == old(self).settle_retired(
                old(self).retired(tid as int).push(idx),
            ),
            final(self).cached(tid as int) == old(self).cached(tid as int) + old(
                self).settle_cached(old(self).retired(tid as int).push(idx)),
            final(self).retired(tid as int).len() < R,
            final(self).keeper@.len() == old(self).keeper@.len(),
            final(self).keeper@[idx as int] == Keeper::Retired(tid) || final(self).keeper@[idx as int]
                == Keeper::Cached(tid),
            forall|i: int|
                0 <= i < old(self).keeper@.len() && i != idx ==> final(self).keeper@[i] == old(
                    self).keeper@[i] || (old(self).keeper@[i] == Keeper::Retired(tid) && final(
                    self).keeper@[i] == Keeper::Cached(tid)),
    {
        proof {
            old(self).arena.lemma_shape();
        }
        self.slots[tid].retired_pointers.push(idx);
        self.arena.retire(idx);
        proof {
            let to = Keeper::Retired(tid);
            self.keeper@ = self.keeper@.update(idx as int, to);
            self.arena.lemma_shape();
            assert(old(self).keeper@[idx as int] is Nobody);
            assert forall|p: int| 0 <= p < MAX_THREADS implies #[trigger] self.inv_slot(p) by {
                assert(old(self).inv_slot(p));
                let slot = old(self).slots@[p];
                if p == tid {
                    lemma_all_at_push(slot.retired_pointers@, old(self).keeper@, to, idx);
                    lemma_all_at_elsewhere(
                        slot.cached_allocations@,
                        old(self).keeper@,
                        Keeper::Cached(p as usize),
                        idx as int,
                        to,
                    );
                } else {
                    assert(self.slots@[p] == slot);
                    old(self).lemma_slot_elsewhere(self, p, idx, to);
                }
            }
            lemma_all_at_elsewhere(
                old(self).boxes_that_are_still_hazard@,
                old(self).keeper@,
                Keeper::Deferred,
                idx as int,
                to,
            );
            lemma_all_at_elsewhere(
                old(self).free@,
                old(self).keeper@,
                Keeper::Free,
                idx as int,
                to,
            );
            assert forall|p: int|
                0 <= p < MAX_THREADS && p != tid implies #[trigger] self.same_slot(
                old(self),
                p,
            ) by {
                assert(self.slots@[p] == old(self).slots@[p]);
            }
        }
        if self.slots[tid].retired_pointers.len() >= R {
            let ghost before = *self;
            self.scan_retired(tid);
            proof {
                assert forall|p: int| 0 <= p < MAX_THREADS implies before.hazard(p) == old(
                    self).hazard(p) by {
                    if p != tid {
                        assert(before.same_slot(old(self), p));
                    }
                }
                before.lemma_same_tests(old(self));
                assert forall|p: int|
                    0 <= p < MAX_THREADS && p != tid implies #[trigger] self.same_slot(
                    old(self),
                    p,
                ) by {
                    assert(before.same_slot(old(self), p));
                    assert(self.same_slot(&before, p));
                }
            }
        } else {
            assert(self.cached(tid as int) =~= old(self).cached(tid as int) + Seq::<
                usize,
            >::empty());
        }
    }

    /// Compare-and-swap of the top, from the node that participant `tid`
    /// has published to the successor that `tid` read under protection.
    /// It succeeds exactly when the published node is still on top: the
    /// publication is then withdrawn, the payload handed out, and the node
    /// retired. Otherwise nothing changes.
    pub fn unlink(&mut self, tid: usize) -> (r: Option<T>)
        requires
            old(self).wf(),
            tid < MAX_THREADS,
        ensures
            final(self).wf(),
            final(self).participants() == old(self).participants(),
            final(self).same_slots_but(old(self), tid as int),
            final(self).deferred() == old(self).deferred(),
            final(self).spare() == old(self).spare(),
            final(self).node_count() == old(self).node_count(),
            final(self).same_links(old(self)),
            old(self).hazard(tid as int) == NULL || old(self).hazard(tid as int) != old(
                self).top_node() ==> r is None && final(self).same_stack(old(self)) && final(
                self).same_slot(old(self), tid as int),
            old(self).hazard(tid as int) != NULL && old(self).hazard(tid as int) == old(
                self).top_node() ==> {
                &&& old(self)@.len() > 0
                &&& r == Some(old(self)@.last())
                &&& final(self)@ == old(self)@.drop_last()
                &&& final(self).top_node() == old(self).successor_of(old(self).top_node() as int)
                &&& final(self).hazard(tid as int) == NULL
                &&& final(self).retired(tid as int) == final(self).settle_retired(
                    old(self).retired(tid as int).push(old(self).top_node()),
                )
                &&& final(self).cached(tid as int) == old(self).cached(tid as int) + final(
                    self).settle_cached(old(self).retired(tid as int).push(old(self).top_node()))
                &&& final(self).keeper(old(self).top_node() as int) == Keeper::Retired(tid)
                    || final(self).keeper(old(self).top_node() as int) == Keeper::Cached(tid)
                &&& forall|i: int|
                    0 <= i < old(self).node_count() && i != old(self).top_node() ==> final(
                        self).keeper(i) == old(self).keeper(i) || (old(self).keeper(i)
                        == Keeper::Retired(tid) && final(self).keeper(i) == Keeper::Cached(tid))
            },
    {
        let candidate = self.slots[tid].hazard;
        if candidate == NULL || self.arena.top() != candidate {
            proof {
                assert forall|p: int| 0 <= p < MAX_THREADS implies #[trigger] self.same_slot(
                    old(self),
                    p,
                ) by {}
            }
            return None;
        }
        proof {
            assert(old(self).inv_slot(tid as int));
            old(self).arena.lemma_shape();
            old(self).arena.lemma_top();
        }
        let next = self.slots[tid].successor;
        let unlinked = self.arena.unlink(candidate, next);
        self.slots[tid].hazard = NULL;
        let data = self.arena.take(candidate);
        proof {
            self.arena.lemma_shape();
            assert forall|p: int| 0 <= p < MAX_THREADS implies #[trigger] self.inv_slot(p) by {
                assert(old(self).inv_slot(p));
                if p != tid {
                    assert(self.slots@[p] == old(self).slots@[p]);
                }
            }
            assert forall|i: int| 0 <= i < self.keeper@.len() implies ((
            #[trigger] self.keeper@[i]) is Nobody <==> self.arena.states()[i]
                != NodeState::Idle) by {
                assert(old(self).keeper@[i] is Nobody <==> old(self).arena.states()[i]
                    != NodeState::Idle);
            }
            assert(old(self).retired(tid as int).len() < R);
        }
        let ghost emptied = *self;
        self.retire_node(tid, candidate);
        proof {
            self.arena.lemma_shape();
            assert forall|p: int| 0 <= p < MAX_THREADS implies emptied.hazard(p) == self.hazard(
                p,
            ) by {
                if p != tid {
                    assert(self.same_slot(&emptied, p));
                }
            }
            emptied.lemma_same_tests(self);
            assert forall|i: int| 0 <= i < self.keeper@.len() implies (
            #[trigger] self.arena.states()[i]) != NodeState::Held by {
                if i != candidate {
                    assert(old(self).arena.states()[i] != NodeState::Held);
                }
            }
            assert forall|p: int|
                0 <= p < MAX_THREADS && p != tid implies #[trigger] self.same_slot(
                old(self),
                p,
            ) by {
                assert(emptied.slots@[p] == old(self).slots@[p]);
                assert(self.same_slot(&emptied, p));
            }
            assert forall|p: int| 0 <= p < MAX_THREADS implies (#[trigger] self.retired(p)).len()
                < R by {
                assert(old(self).retired(p).len() < R);
                if p != tid {
                    assert(self.same_slot(old(self), p));
                }
            }
        }
        data
    }

    /// Pops for participant `tid`: protects the top node, then unlinks it.
    /// The payload on top comes out, and its node is retired by `tid`.
    pub fn pop(&mut self, tid: usize) -> (r: Option<T>)
        requires
            old(self).wf(),
            tid < MAX_THREADS,
        ensures
            final(self).wf(),
            final(self).participants() == old(self).participants(),
            final(self).same_slots_but(old(self), tid as int),
            final(self).deferred() == old(self).deferred(),
            final(self).spare() == old(self).spare(),
            final(self).node_count() == old(self).node_count(),
            final(self).same_links(old(self)),
            final(self).hazard(tid as int) == NULL,
            r == top_of(old(self)@),
            final(self)@ == without_top(old(self)@),
            old(self)@.len() == 0 ==> {
                &&& r is None
                &&& final(self).same_stack(old(self))
                &&& final(self).retired(tid as int) == old(self).retired(tid as int)
                &&& final(self).cached(tid as int) == old(self).cached(tid as int)
            },
            old(self)@.len() > 0 ==> {
                &&& r == Some(old(self)@.last())
                &&& final(self)@ == old(self)@.drop_last()
                &&& final(self).top_node() == old(self).successor_of(old(self).top_node() as int)
                &&& final(self).retired(tid as int) == final(self).settle_retired(
                    old(self).retired(tid as int).push(old(self).top_node()),
                )
                &&& final(self).cached(tid as int) == old(self).cached(tid as int) + final(
                    self).settle_cached(old(self).retired(tid as int).push(old(self).top_node()))
                &&& final(self).keeper(old(self).top_node() as int) == Keeper::Retired(tid)
                    || final(self).keeper(old(self).top_node() as int) == Keeper::Cached(tid)
                &&& forall|i: int|
                    0 <= i < old(self).node_count() && i != old(self).top_node() ==> final(
                        self).keeper(i) == old(self).keeper(i) || (old(self).keeper(i)
                        == Keeper::Retired(tid) && final(self).keeper(i) == Keeper::Cached(tid))
            },
    {
        proof {
            old(self).lemma_top();
        }
        match self.protect(tid) {
            None => None,
            Some(_) => {
                let ghost protected = *self;
                let r = self.unlink(tid);
                proof {
                    assert forall|p: int|
                        0 <= p < MAX_THREADS && p != tid implies #[trigger] self.same_slot(
                        old(self),
                        p,
                    ) by {
                        assert(protected.same_slot(old(self), p));
                        assert(self.same_slot(&protected, p));
                    }
                }
                r
            },
        }
    }

    /// The keepers once participant `tid` has handed its retired nodes to
    /// the deferred list and its cached nodes to the spare list.
    closed spec fn keepers_after_release(&self, tid: int) -> Seq<Keeper> {
        Seq::new(
            self.keeper@.len(),
            |i: int|
                match self.keeper@[i] {
                    Keeper::Retired(p) => if p == tid {
                        Keeper::Deferred
                    } else {
                        self.keeper@[i]
                    },
                    Keeper::Cached(p) => if p == tid {
                        Keeper::Free
                    } else {
                        self.keeper@[i]
                    },
                    _ => self.keeper@[i],
                },
        )
    }

    /// Participant `tid` departs: it withdraws its publication and scans
    /// its retired list one last time; the nodes that are still published
    /// join the deferred list, and the nodes that it kept for reuse become
    /// spare. Its number is not given to another participant.
    pub fn release(&mut self, tid: usize)
        requires
            old(self).wf(),
            tid < MAX_THREADS,
        ensures
            final(self).wf(),
            final(self)@ == old(self)@,
            final(self).top_node() == old(self).top_node(),
            final(self).node_count() == old(self).node_count(),
            final(self).same_links(old(self)),
            final(self).participants() == old(self).participants(),
            final(self).same_slots_but(old(self), tid as int),
            final(self).hazard(tid as int) == NULL,
            final(self).retired(tid as int) == Seq::<usize>::empty(),
            final(self).cached(tid as int) == Seq::<usize>::empty(),
            final(self).deferred() == old(self).deferred() + final(self).kept(
                old(self).retired(tid as int),
            ),
            final(self).spare() == old(self).spare() + (old(self).cached(tid as int) + final(
                self).recycled(old(self).retired(tid as int))),
    {
        self.slots[tid].hazard = NULL;
        proof {
            old(self).arena.lemma_shape();
            assert forall|p: int| 0 <= p < MAX_THREADS implies #[trigger] self.inv_slot(p) by {
                assert(old(self).inv_slot(p));
                if p != tid {
                    assert(self.slots@[p] == old(self).slots@[p]);
                }
            }
        }
        let ghost withdrawn = *self;
        self.scan_retired(tid);
        let ghost scanned = *self;
        self.boxes_that_are_still_hazard.append(&mut self.slots[tid].retired_pointers);
        self.free.append(&mut self.slots[tid].cached_allocations);
        proof {
            self.keeper@ = scanned.keepers_after_release(tid as int);
            let mine = scanned.slots@[tid as int];
            let old_keeper = scanned.keeper@;
            let new_keeper = self.keeper@;
            assert(scanned.inv_slot(tid as int));
            assert forall|p: int| 0 <= p < MAX_THREADS implies #[trigger] self.inv_slot(p) by {
                assert(scanned.inv_slot(p));
                if p != tid {
                    assert(self.slots@[p] == scanned.slots@[p]);
                    scanned.lemma_slot_untouched(self, p);
                }
            }
            let deferred = scanned.boxes_that_are_still_hazard@;
            let more_deferred = self.boxes_that_are_still_hazard@;
            assert(all_at(more_deferred, new_keeper, Keeper::Deferred)) by {
                assert forall|i: int, j: int|
                    0 <= i < deferred.len() && 0 <= j
                        < mine.retired_pointers@.len() implies deferred[i]
                    != mine.retired_pointers@[j] by {
                    assert(old_keeper[deferred[i] as int] == Keeper::Deferred);
                    assert(old_keeper[mine.retired_pointers@[j] as int] == Keeper::Retired(tid));
                }
                lemma_no_dup_in_concat(deferred, mine.retired_pointers@);
                assert forall|k: int| 0 <= k < more_deferred.len() implies (
                #[trigger] more_deferred[k]) < new_keeper.len()
                    && new_keeper[more_deferred[k] as int] == Keeper::Deferred by {
                    if k < deferred.len() {
                        assert(more_deferred[k] == deferred[k]);
                        assert(old_keeper[deferred[k] as int] == Keeper::Deferred);
                    } else {
                        assert(more_deferred[k] == mine.retired_pointers@[k - deferred.len()]);
                        assert(old_keeper[mine.retired_pointers@[k - deferred.len()] as int]
                            == Keeper::Retired(tid));
                    }
                }
            }
            let free = scanned.free@;
            let more_free = self.free@;
            assert(all_at(more_free, new_keeper, Keeper::Free)) by {
                assert forall|i: int, j: int|
                    0 <= i < free.len() && 0 <= j < mine.cached_allocations@.len() implies free[i]
                    != mine.cached_allocations@[j] by {
                    assert(old_keeper[free[i] as int] == Keeper::Free);
                    assert(old_keeper[mine.cached_allocations@[j] as int] == Keeper::Cached(tid));
                }
                lemma_no_dup_in_concat(free, mine.cached_allocations@);
                assert forall|k: int| 0 <= k < more_free.len() implies (#[trigger] more_free[k])
                    < new_keeper.len() && new_keeper[more_free[k] as int] == Keeper::Free by {
                    if k < free.len() {
                        assert(more_free[k] == free[k]);
                        assert(old_keeper[free[k] as int] == Keeper::Free);
                    } else {
                        assert(more_free[k] == mine.cached_allocations@[k - free.len()]);
                        assert(old_keeper[mine.cached_allocations@[k - free.len()] as int]
                            == Keeper::Cached(tid));
                    }
                }
            }
            assert forall|i: int| 0 <= i < self.keeper@.len() implies ((
            #[trigger] self.keeper@[i]) is Nobody <==> self.arena.states()[i]
                != NodeState::Idle) by {
                assert(scanned.keeper@[i] is Nobody <==> scanned.arena.states()[i]
                    != NodeState::Idle);
            }
            assert forall|p: int| 0 <= p < MAX_THREADS implies withdrawn.hazard(p) == self.hazard(
                p,
            ) by {
                if p != tid {
                    assert(scanned.same_slot(&withdrawn, p));
                    assert(self.slots@[p] == scanned.slots@[p]);
                }
            }
            withdrawn.lemma_same_tests(self);
            assert forall|i: int| 0 <= i < self.keeper@.len() implies (
            #[trigger] self.arena.states()[i]) != NodeState::Held by {
                assert(old(self).arena.states()[i] != NodeState::Held);
            }
            assert forall|p: int|
                0 <= p < MAX_THREADS && p != tid implies #[trigger] self.same_slot(
                old(self),
                p,
            ) by {
                assert(withdrawn.slots@[p] == old(self).slots@[p]);
                assert(scanned.same_slot(&withdrawn, p));
                assert(self.slots@[p] == scanned.slots@[p]);
            }
            assert forall|p: int| 0 <= p < MAX_THREADS implies (#[trigger] self.retired(p)).len()
                < R by {
                assert(old(self).retired(p).len() < R);
                if p != tid {
                    assert(self.same_slot(old(self), p));
                }
            }
        }
    }
}

/// What the lock of a stack guards: a state together with the promise
/// that it is well formed.
pub struct Cell<T> {
    inner: Shared<T>,
}

impl<T> Cell<T> {
    #[verifier::type_invariant]
    spec fn inv(self) -> bool {
        self.inner.wf()
    }

    /// The state that the cell holds.
    pub closed spec fn state(&self) -> Shared<T> {
        self.inner
    }
}

/// The payloads on the stack that a slot holds, bottom first. The slot is
/// what a handle finds under the lock; a vacant slot stands for an empty
/// stack.
pub open spec fn held_view<T>(slot: Option<Cell<T>>) -> Seq<T> {
    match slot {
        Some(c) => c.state()@,
        None => Seq::empty(),
    }
}

/// The node on top of the stack that a slot holds, or `NULL`.
pub open spec fn held_top<T>(slot: Option<Cell<T>>) -> usize {
    match slot {
        Some(c) => c.state().top_node(),
        None => NULL,
    }
}

/// The node that participant `p` has published in the state that a slot
/// holds, or `NULL`.
pub open spec fn held_hazard<T>(slot: Option<Cell<T>>, p: int) -> usize {
    match slot {
        Some(c) => c.state().hazard(p),
        None => NULL,
    }
}

/// The nodes that participant `p` has retired and not yet recycled in the
/// state that a slot holds.
pub open spec fn held_retired<T>(slot: Option<Cell<T>>, p: int) -> Seq<usize> {
    match slot {
        Some(c) => c.state().retired(p),
        None => Seq::empty(),
    }
}

/// Number of participants registered in the state that a slot holds.
pub open spec fn held_participants<T>(slot: Option<Cell<T>>) -> nat {
    match slot {
        Some(c) => c.state().participants(),
        None => 0,
    }
}

/// Every participant but `tid` has published and retired in `after` what
/// it has in `before`.
pub open spec fn others_kept<T>(after: Option<Cell<T>>, before: Option<Cell<T>>, tid: int) -> bool {
    forall|p: int|
        #![trigger held_hazard(after, p)]
        #![trigger held_retired(after, p)]
        0 <= p < MAX_THREADS && p != tid ==> held_hazard(after, p) == held_hazard(before, p)
            && held_retired(after, p) == held_retired(before, p)
}

/// Takes the state out of a slot; a vacant slot gives an empty stack with
/// no participant registered.
fn open<T>(slot: &mut Option<Cell<T>>) -> (inner: Shared<T>)
    ensures
        *final(slot) is None,
        inner.wf(),
        inner@ == held_view(*old(slot)),
        inner.top_node() == held_top(*old(slot)),
        inner.participants() == held_participants(*old(slot)),
        forall|p: int|
            0 <= p < MAX_THREADS ==> inner.hazard(p) == held_hazard(*old(slot), p)
                && inner.retired(p) == held_retired(*old(slot), p),
        *old(slot) matches Some(c) ==> inner == c.state(),
{
    match slot.take() {
        Some(cell) => {
            proof {
                use_type_invariant(&cell);
            }
            cell.inner
        },
        None => Shared::new(),
    }
}

/// Puts a well-formed state into a slot.
fn close<T>(slot: &mut Option<Cell<T>>, inner: Shared<T>)
    requires
        inner.wf(),
    ensures
        *final(slot) matches Some(d) && d.state() == inner,
{
    *slot = Some(Cell { inner });
}

/// What `LockFreeStacc::push` does with the slot that it finds under the
/// lock: participant `tid` pushes `data` onto the stack held there.
pub fn push_in<T>(slot: &mut Option<Cell<T>>, tid: usize, data: T)
    requires
        tid < MAX_THREADS,
    ensures
        *final(slot) is Some,
        held_view(*final(slot)) == held_view(*old(slot)).push(data),
        held_participants(*final(slot)) == held_participants(*old(slot)),
        others_kept(*final(slot), *old(slot), -1),
{
    let mut inner = open(slot);
    let ghost before = inner;
    inner.push(tid, data);
    close(slot, inner);
    proof {
        assert forall|p: int| 0 <= p < MAX_THREADS implies inner.hazard(p) == before.hazard(p)
            && inner.retired(p) == before.retired(p) by {
            if p != tid {
                assert(inner.same_slot(&before, p));
            }
        }
    }
}

/// The first step of a pop, on the slot found under the lock: participant
/// `tid` publishes the node on top of the stack held there, and gets it.
pub fn protect_in<T>(slot: &mut Option<Cell<T>>, tid: usize) -> (r: Option<usize>)
    requires
        tid < MAX_THREADS,
    ensures
        *final(slot) is Some,
        held_hazard(*final(slot), tid as int) == held_top(*old(slot)),
        held_view(*final(slot)) == held_view(*old(slot)),
        held_top(*final(slot)) == held_top(*old(slot)),
        r == if held_top(*old(slot)) == NULL {
            None
        } else {
            Some(held_top(*old(slot)))
        },
        r is None <==> held_view(*old(slot)).len() == 0,
        held_retired(*final(slot), tid as int) == held_retired(*old(slot), tid as int),
        held_participants(*final(slot)) == held_participants(*old(slot)),
        others_kept(*final(slot), *old(slot), tid as int),
{
    let mut inner = open(slot);
    let ghost before = inner;
    proof {
        inner.lemma_top();
    }
    let r = inner.protect(tid);
    close(slot, inner);
    proof {
        assert forall|p: int| 0 <= p < MAX_THREADS && p != tid implies inner.hazard(p)
            == before.hazard(p) && inner.retired(p) == before.retired(p) by {
            assert(inner.same_slot(&before, p));
        }
    }
    r
}

/// Whether the compare-and-swap of participant `tid` succeeds on a slot:
/// the node that `tid` has published in the state held there is on top of
/// the stack.
pub open spec fn can_unlink<T>(slot: Option<Cell<T>>, tid: int) -> bool {
    held_hazard(slot, tid) != NULL && held_hazard(slot, tid) == held_top(slot)
}

/// The second step of a pop, on the slot found under the lock: the
/// compare-and-swap of participant `tid`. Where it succeeds, the payload
/// on top of the stack held there comes out; else nothing changes.
pub fn unlink_in<T>(slot: &mut Option<Cell<T>>, tid: usize) -> (r: Option<T>)
    requires
        tid < MAX_THREADS,
    ensures
        *final(slot) is Some,
        can_unlink(*old(slot), tid as int) ==> held_view(*old(slot)).len() > 0 && r == Some(
            held_view(*old(slot)).last(),
        ) && held_view(*final(slot)) == held_view(*old(slot)).drop_last() && held_hazard(
            *final(slot),
            tid as int,
        ) == NULL,
        !can_unlink(*old(slot), tid as int) ==> r is None && held_view(*final(slot)) == held_view(
            *old(slot),
        ) && held_top(*final(slot)) == held_top(*old(slot)) && held_hazard(
            *final(slot),
            tid as int,
        ) == held_hazard(*old(slot), tid as int) && held_retired(*final(slot), tid as int)
            == held_retired(*old(slot), tid as int),
        held_participants(*final(slot)) == held_participants(*old(slot)),
        others_kept(*final(slot), *old(slot), tid as int),
{
    let mut inner = open(slot);
    let ghost before = inner;
    let r = inner.unlink(tid);
    close(slot, inner);
    proof {
        assert forall|p: int| 0 <= p < MAX_THREADS && p != tid implies inner.hazard(p)
            == before.hazard(p) && inner.retired(p) == before.retired(p) by {
            assert(inner.same_slot(&before, p));
        }
        if !can_unlink(*old(slot), tid as int) {
            assert(inner.same_slot(&before, tid as int));
        }
    }
    r
}

/// What `LockFreeStacc::len` does with the slot that it finds under the
/// lock: the number of payloads on the stack held there.
pub fn len_in<T>(slot: &Option<Cell<T>>) -> (n: usize)
    ensures
        n == held_view(*slot).len(),
{
    match slot {
        Some(cell) => {
            proof {
                use_type_invariant(cell);
            }
            cell.inner.len()
        },
        None => 0,
    }
}

/// What `LockFreeStacc::pending` does with the slot that it finds under
/// the lock: the number of nodes that participant `tid` has retired and
/// not yet recycled.
pub fn pending_in<T>(slot: &Option<Cell<T>>, tid: usize) -> (n: usize)
    requires
        tid < MAX_THREADS,
    ensures
        n == held_retired(*slot, tid as int).len(),
        n < R,
{
    match slot {
        Some(cell) => {
            proof {
                use_type_invariant(cell);
            }
            cell.inner.pending(tid)
        },
        None => 0,
    }
}

/// The nodes that participant `p` keeps for reuse in the state that a
/// slot holds.
pub open spec fn held_cached<T>(slot: Option<Cell<T>>, p: int) -> Seq<usize> {
    match slot {
        Some(c) => c.state().cached(p),
        None => Seq::empty(),
    }
}

/// What `LockFreeStacc::reusable` does with the slot that it finds under
/// the lock: the number of nodes that participant `tid` keeps for reuse.
pub fn reusable_in<T>(slot: &Option<Cell<T>>, tid: usize) -> (n: usize)
    requires
        tid < MAX_THREADS,
    ensures
        n == held_cached(*slot, tid as int).len(),
{
    match slot {
        Some(cell) => {
            proof {
                use_type_invariant(cell);
            }
            cell.inner.reusable(tid)
        },
        None => 0,
    }
}

/// What `LockFreeStacc::try_clone` does with the slot that it finds under
/// the lock: it tests whether the table has a slot left, and registers one
/// more participant if it has; with a full table it registers nobody.
pub fn register_in<T>(slot: &mut Option<Cell<T>>) -> (id: Option<usize>)
    ensures
        *final(slot) is Some,
        held_view(*final(slot)) == held_view(*old(slot)),
        held_participants(*old(slot)) < MAX_THREADS ==> id == Some(
            held_participants(*old(slot)) as usize,
        ) && held_participants(*final(slot)) == held_participants(*old(slot)) + 1,
        held_participants(*old(slot)) >= MAX_THREADS ==> id is None && held_participants(
            *final(slot),
        ) == held_participants(*old(slot)),
        others_kept(*final(slot), *old(slot), -1),
{
    let mut inner = open(slot);
    let ghost before = inner;
    let id = if inner.registered() < MAX_THREADS {
        Some(inner.register())
    } else {
        None
    };
    close(slot, inner);
    proof {
        assert forall|p: int| 0 <= p < MAX_THREADS implies inner.hazard(p) == before.hazard(p)
            && inner.retired(p) == before.retired(p) by {
            assert(inner.same_slot(&before, p));
        }
    }
    id
}

/// What `LockFreeStacc::release` does with the slot that it finds under
/// the lock: participant `tid` departs from the stack held there. A
/// vacant slot stays vacant.
pub fn release_in<T>(slot: &mut Option<Cell<T>>, tid: usize)
    requires
        tid < MAX_THREADS,
    ensures
        (*final(slot) is Some) == (*old(slot) is Some),
        held_view(*final(slot)) == held_view(*old(slot)),
        held_retired(*final(slot), tid as int) == Seq::<usize>::empty(),
        held_hazard(*final(slot), tid as int) == NULL,
        held_cached(*final(slot), tid as int) == Seq::<usize>::empty(),
        held_participants(*final(slot)) == held_participants(*old(slot)),
        others_kept(*final(slot), *old(slot), tid as int),
{
    if slot.is_some() {
        let mut inner = open(slot);
        let ghost before = inner;
        inner.release(tid);
        close(slot, inner);
        proof {
            assert forall|p: int| 0 <= p < MAX_THREADS && p != tid implies inner.hazard(p)
                == before.hazard(p) && inner.retired(p) == before.retired(p) by {
                assert(inner.same_slot(&before, p));
            }
        }
    }
}

/// A participant's handle on a hazard-pointer stack. Handles made by
/// `try_clone` share one stack, each under a number of its own. Every step
/// of an operation takes effect under the stack's lock, and the steps of
/// several participants interleave: between the step that publishes a node
/// and the step that unlinks it, other participants may pop, retire and scan.
///
/// The lock holds the state except while a step works on it; a step that
/// finds it vacant starts from an empty stack. What a step does with the
/// slot that it finds under the lock, whatever that slot holds, is said by
/// `push_in`, `protect_in`, `unlink_in`, `len_in`, `pending_in`,
/// `reusable_in`, `register_in` and `release_in`; of its own result a
/// handle can only say
/// what holds whatever other handles have done.
#[verifier::reject_recursive_types(T)]
pub struct LockFreeStacc<T> {
    shared: Arc<Mutex<parking_lot::RawMutex, Option<Cell<T>>>>,
    thread_number: usize,
}

impl<T> LockFreeStacc<T> {
    #[verifier::type_invariant]
    spec fn inv(self) -> bool {
        self.thread_number < MAX_THREADS
    }

    /// The number under which this participant is registered.
    pub closed spec fn number(&self) -> usize {
        self.thread_number
    }

    /// This handle and `other` are handles on one and the same stack.
    pub closed spec fn same_stack(&self, other: &Self) -> bool {
        self.shared == other.shared
    }

    /// A fresh stack and its first participant, which has the number 0.
    pub fn new() -> (s: Self)
        ensures
            s.number() == 0,
    {
        let mut slot: Option<Cell<T>> = None;
        let thread_number = match register_in(&mut slot) {
            Some(id) => id,
            None => 0,
        };
        Self { shared: Arc::new(guarded(slot)), thread_number }
    }

    /// Pushes `data` onto the shared stack. The handle stays as it is.
    pub fn push(&mut self, data: T)
        ensures
            *final(self) == *old(self),
    {
        proof {
            use_type_invariant(&*self);
        }
        let mut guard = lock(&self.shared);
        let slot = held(&mut guard);
        push_in(slot, self.thread_number, data);
    }

    /// One step: publishes the top of the shared stack for this participant.
    fn protect(&self) -> (r: Option<usize>) {
        proof {
            use_type_invariant(self);
        }
        let mut guard = lock(&self.shared);
        let slot = held(&mut guard);
        protect_in(slot, self.thread_number)
    }

    /// One step: the compare-and-swap that unlinks the published node.
    fn unlink(&self) -> (r: Option<T>) {
        proof {
            use_type_invariant(self);
        }
        let mut guard = lock(&self.shared);
        let slot = held(&mut guard);
        unlink_in(slot, self.thread_number)
    }

    /// Pops the payload on top of the shared stack: publishes the top node
    /// and tries to unlink it, again and again while other participants
    /// get in between. `None` when the stack was found empty, or after
    /// `ATTEMPTS` attempts.
    pub fn pop(&mut self) -> (r: Option<T>)
        ensures
            *final(self) == *old(self),
    {
        let mut left: usize = ATTEMPTS;
        while left > 0
            invariant
                *self == *old(self),
            decreases left,
        {
            if self.protect().is_none() {
                return None;
            }
            let r = self.unlink();
            if r.is_some() {
                return r;
            }
            left = left - 1;
        }
        None
    }

    /// Number of payloads that the shared stack held when it was asked.
    pub fn len(&self) -> (n: usize) {
        let mut guard = lock(&self.shared);
        let slot = held(&mut guard);
        len_in(slot)
    }

    /// Number of nodes that this participant had retired and not yet
    /// recycled when it was asked; it never reaches `R`.
    pub fn pending(&self) -> (n: usize)
        ensures
            n < R,
    {
        proof {
            use_type_invariant(self);
        }
        let mut guard = lock(&self.shared);
        let slot = held(&mut guard);
        pending_in(slot, self.thread_number)
    }

    /// Number of nodes that this participant kept for reuse when it was
    /// asked: the size of its cache of allocations.
    pub fn reusable(&self) -> (n: usize) {
        proof {
            use_type_invariant(self);
        }
        let mut guard = lock(&self.shared);
        let slot = held(&mut guard);
        reusable_in(slot, self.thread_number)
    }

    /// A handle for one more participant of the same stack, or `None` once
    /// the stack has given a slot to `MAX_THREADS` participants: a
    /// participant beyond the last slot is not registered, and no handle
    /// is made for it.
    pub fn try_clone(&self) -> (r: Option<Self>)
        ensures
            r matches Some(h) ==> h.number() < MAX_THREADS && h.same_stack(self),
    {
        let mut guard = lock(&self.shared);
        let slot = held(&mut guard);
        let id = register_in(slot);
        match id {
            Some(thread_number) => Some(Self { shared: share(&self.shared), thread_number }),
            None => None,
        }
    }

    /// Gives the handle up: the participant departs from the shared stack.
    pub fn release(self) {
        proof {
            use_type_invariant(&self);
        }
        let mut guard = lock(&self.shared);
        let slot = held(&mut guard);
        release_in(slot, self.thread_number);
    }
}

} // verus!
