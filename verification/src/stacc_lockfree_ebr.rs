//! Linked stack whose removed nodes are reclaimed by epochs: a participant
//! checks in before it reads the stack, a retired node waits in a limbo
//! bucket, and the bucket is emptied once the participant has seen the
//! global epoch move on as many times as there are buckets.
//!
//! `Shared` is the state machine. Its steps are `push`, `mark_use` (which
//! is `start_shared_section` and the ageing of the buckets), `observe`,
//! `unlink`, `end_shared_section` and `release`; `pop` is `mark_use`,
//! `observe` and `unlink`, or `end_shared_section` on an empty stack. Every step keeps `Shared::wf`, from which follow
//! the rules of the scheme: `lemma_epochs` (the global epoch is at most one
//! ahead of a participant that has checked in), `lemma_limbo_age` (a node
//! in limbo is as old as its bucket says), `lemma_observed` (an observed
//! node is not reused, and still points where it pointed) and
//! `lemma_places` (no node is in two places). A pop leaves its participant
//! checked out, whatever it finds; so in a run of whole operations the
//! state stays `orderly`, the epoch moves on with every pop, and no
//! participant holds more nodes in limbo than it has buckets
//! (`lemma_limbo_bounded`). `Local` is the handle of one participant.
use vstd::prelude::*;
use std::sync::Arc;
use parking_lot::lock_api::Mutex;
use crate::sync::{guarded, lock, held, share};
use crate::ATTEMPTS;
use crate::links::{
    top_of, without_top, NULL, Arena, NodeState, all_at, lemma_all_at_elsewhere,
    lemma_all_at_grown, lemma_all_at_drop_last, lemma_all_at_push, lemma_all_at_kept,
};
pub use crate::links::Node;

verus! {

/// Number of participants that one stack has slots for.
pub const MAX_THREADS: usize = 32;

/// Number of limbo buckets of a participant: a retired node is kept until
/// its participant has seen the global epoch advance this many times.
pub const BUCKETS: usize = 3;

/// In whose keeping a node is while it is off the stack.
pub enum Keeper {
    /// Linked, or in the hands of an operation.
    Nobody,
    /// Retired by the participant named, and waiting in one of its buckets.
    Limbo(usize),
    /// Certified safe and kept for reuse by the participant named.
    Garbage(usize),
    /// Left behind in limbo by a participant that departed.
    Deferred,
    /// Given up by a departed participant; any participant may reuse it.
    Free,
}

/// The bookkeeping that belongs to one participant.
pub struct ThreadLocal {
    current_epoch: usize,
    is_active: bool,
    candidate: usize,
    successor: usize,
    limbo: Vec<Vec<usize>>,
    garbage: Vec<usize>,
}

impl ThreadLocal {
    /// A participant that has not checked in, with empty buckets.
    fn new() -> (t: Self)
        ensures
            t.current_epoch == 0,
            !t.is_active,
            t.candidate == NULL,
            t.garbage@ == Seq::<usize>::empty(),
            t.limbo@.len() == BUCKETS,
            forall|b: int| 0 <= b < BUCKETS ==> (#[trigger] t.limbo@[b])@ == Seq::<usize>::empty(),
    {
        let mut limbo: Vec<Vec<usize>> = Vec::new();
        while limbo.len() < BUCKETS
            invariant
                limbo@.len() <= BUCKETS,
                forall|b: int|
                    0 <= b < limbo@.len() ==> (#[trigger] limbo@[b])@ == Seq::<usize>::empty(),
            decreases BUCKETS - limbo@.len(),
        {
            limbo.push(Vec::new());
        }
        Self {
            current_epoch: 0,
            is_active: false,
            candidate: NULL,
            successor: NULL,
            limbo,
            garbage: Vec::new(),
        }
    }
}

/// The shared state of an epoch-based stack: the linked stack, the global
/// epoch, and one slot of bookkeeping for each participant.
pub struct Shared<T> {
    arena: Arena<T>,
    threads: Vec<ThreadLocal>,
    global_epoch: usize,
    thread_counter: usize,
    deferred: Vec<usize>,
    free: Vec<usize>,
    keeper: Ghost<Seq<Keeper>>,
    retired_at: Ghost<Seq<usize>>,
}

impl<T> Shared<T> {
    /// The payloads on the stack, bottom first.
    pub closed spec fn view(&self) -> Seq<T> {
        self.arena@
    }

    /// Number of nodes in the arena.
    pub closed spec fn node_count(&self) -> nat {
        self.arena.node_count()
    }

    /// The node on top of the stack, or `NULL`.
    pub closed spec fn top_node(&self) -> usize {
        self.arena.top_node()
    }

    /// In whose keeping each node is.
    pub closed spec fn keepers(&self) -> Seq<Keeper> {
        self.keeper@
    }

    /// In whose keeping node `i` is.
    pub open spec fn keeper(&self, i: int) -> Keeper {
        self.keepers()[i]
    }

    /// Node `i` is part of the stack.
    pub closed spec fn on_stack(&self, i: int) -> bool {
        self.arena.states()[i] == NodeState::Linked
    }

    /// The epoch that the participant that retired node `i` had seen when
    /// it retired the node; it matters while the node is in limbo.
    pub closed spec fn retired_at(&self, i: int) -> usize {
        self.retired_at@[i]
    }

    /// The node that node `i` points at.
    pub closed spec fn successor_of(&self, i: int) -> usize {
        self.arena.successors()[i]
    }

    /// The node that participant `p` has observed on top of the stack
    /// since it checked in, or `NULL`.
    pub closed spec fn candidate(&self, p: int) -> usize {
        self.threads@[p].candidate
    }

    /// The successor that participant `p` read from the node that it has
    /// observed.
    pub closed spec fn read_successor(&self, p: int) -> usize {
        self.threads@[p].successor
    }

    /// The global epoch.
    pub closed spec fn global_epoch(&self) -> usize {
        self.global_epoch
    }

    /// The global epoch that participant `p` saw when it last checked in.
    pub closed spec fn epoch(&self, p: int) -> usize {
        self.threads@[p].current_epoch
    }

    /// Participant `p` has checked in and not yet out.
    pub closed spec fn active(&self, p: int) -> bool {
        self.threads@[p].is_active
    }

    /// The limbo bucket `b` of participant `p`; bucket 0 is the oldest.
    pub closed spec fn bucket(&self, p: int, b: int) -> Seq<usize> {
        self.threads@[p].limbo@[b]@
    }

    /// The nodes that participant `p` keeps for reuse.
    pub closed spec fn garbage(&self, p: int) -> Seq<usize> {
        self.threads@[p].garbage@
    }

    /// The nodes left behind in limbo by departed participants.
    pub closed spec fn deferred(&self) -> Seq<usize> {
        self.deferred@
    }

    /// The nodes that any participant may reuse.
    pub closed spec fn spare(&self) -> Seq<usize> {
        self.free@
    }

    /// Number of participants registered so far.
    pub closed spec fn participants(&self) -> nat {
        self.thread_counter as nat
    }

    /// The lists of participant `p` name distinct nodes in its keeping, no
    /// two of its buckets name the same node, and its epoch is in order.
    closed spec fn inv_thread(&self, p: int) -> bool {
        let t = self.threads@[p];
        &&& t.limbo@.len() == BUCKETS
        &&& forall|b: int|
            0 <= b < BUCKETS ==> all_at(
                (#[trigger] t.limbo@[b])@,
                self.keeper@,
                Keeper::Limbo(p as usize),
            )
        &&& forall|a: int, b: int, j: int, k: int|
            0 <= a < b < BUCKETS && 0 <= j < t.limbo@[a]@.len() && 0 <= k < t.limbo@[b]@.len()
                ==> #[trigger] t.limbo@[a]@[j] != #[trigger] t.limbo@[b]@[k]
        &&& all_at(t.garbage@, self.keeper@, Keeper::Garbage(p as usize))
        &&& t.current_epoch <= self.global_epoch
        &&& t.is_active ==> self.global_epoch <= t.current_epoch + 1
    }

    /// Every node in limbo bucket `b` of participant `p` was retired at
    /// least `2 - b + slack` epochs before the epoch that `p` has seen.
    closed spec fn inv_stamps(&self, p: int, slack: int) -> bool {
        let t = self.threads@[p];
        forall|b: int, k: int|
            0 <= b < BUCKETS && 0 <= k < t.limbo@[b]@.len() ==> self.retired_at@[(
            #[trigger] t.limbo@[b]@[k]) as int] + (2 - b) + slack <= t.current_epoch
    }

    /// The node that participant `p` has observed is a node that `p` may
    /// still read: `p` is checked in, the node is neither garbage nor
    /// spare, it points at the successor that `p` read from it, and if it
    /// is in limbo, it was retired no earlier than one epoch before the
    /// epoch that `p` has seen.
    closed spec fn inv_candidate(&self, p: int) -> bool {
        let t = self.threads@[p];
        t.candidate != NULL ==> {
            &&& t.is_active
            &&& t.candidate < self.keeper@.len()
            &&& !(self.keeper@[t.candidate as int] is Garbage)
            &&& !(self.keeper@[t.candidate as int] is Free)
            &&& t.successor == self.arena.successors()[t.candidate as int]
            &&& self.keeper@[t.candidate as int] is Limbo
                ==> self.retired_at@[t.candidate as int] + 1 >= t.current_epoch
        }
    }

    /// Everything that `wf` asks for, except that an operation may be
    /// under way and hold a node in its hands.
    closed spec fn inv(&self) -> bool {
        &&& self.arena.wf()
        &&& self.keeper@.len() == self.arena.node_count()
        &&& self.retired_at@.len() == self.arena.node_count()
        &&& forall|p: int| 0 <= p < MAX_THREADS ==> #[trigger] self.inv_stamps(p, 0)
        &&& forall|p: int| 0 <= p < MAX_THREADS ==> #[trigger] self.inv_candidate(p)
        &&& self.threads@.len() == MAX_THREADS
        &&& self.thread_counter <= MAX_THREADS
        &&& forall|i: int|
            0 <= i < self.keeper@.len() ==> ((#[trigger] self.keeper@[i]) is Nobody
                <==> self.arena.states()[i] != NodeState::Idle)
        &&& forall|p: int| 0 <= p < MAX_THREADS ==> #[trigger] self.inv_thread(p)
        &&& all_at(self.deferred@, self.keeper@, Keeper::Deferred)
        &&& all_at(self.free@, self.keeper@, Keeper::Free)
    }

    /// The state is consistent: the linked nodes form the stack, every
    /// other node is in exactly one keeping and every list names distinct
    /// nodes in the keeping that the list stands for, no participant's epoch
    /// is ahead of the global epoch, the global epoch is at most one ahead
    /// of any participant that has checked in, a node in limbo is at least
    /// as old as its bucket says, a node that a participant has observed
    /// is neither garbage nor spare, and no operation is under way.
    pub closed spec fn wf(&self) -> bool {
        &&& self.inv()
        &&& forall|i: int|
            0 <= i < self.keeper@.len() ==> (#[trigger] self.arena.states()[i])
                != NodeState::Held
    }

    /// The arena has the nodes that it has in `other`, and each of them
    /// points where it points in `other`.
    pub open spec fn same_links(&self, other: &Self) -> bool {
        &&& self.node_count() == other.node_count()
        &&& forall|i: int|
            0 <= i < self.node_count() ==> #[trigger] self.successor_of(i) == other.successor_of(i)
    }

    /// The stack and the shared lists are those of `other`.
    pub open spec fn same_stack(&self, other: &Self) -> bool {
        &&& self@ == other@
        &&& self.top_node() == other.top_node()
        &&& self.same_links(other)
        &&& self.node_count() == other.node_count()
        &&& self.deferred() == other.deferred()
        &&& self.spare() == other.spare()
        &&& forall|i: int|
            0 <= i < self.node_count() ==> self.keeper(i) == other.keeper(i) && self.retired_at(i)
                == other.retired_at(i)
    }

    /// Participant `p` has the bookkeeping it has in `other`.
    pub open spec fn same_thread(&self, other: &Self, p: int) -> bool {
        &&& self.epoch(p) == other.epoch(p)
        &&& self.active(p) == other.active(p)
        &&& self.candidate(p) == other.candidate(p)
        &&& self.garbage(p) == other.garbage(p)
        &&& self.same_buckets(other, p)
    }

    /// Every participant but `tid` has the bookkeeping it has in `other`.
    pub open spec fn same_threads_but(&self, other: &Self, tid: int) -> bool {
        forall|p: int|
            #![trigger self.same_thread(other, p)]
            #![trigger self.epoch(p)]
            #![trigger self.active(p)]
            #![trigger self.candidate(p)]
            #![trigger self.garbage(p)]
            0 <= p < MAX_THREADS && p != tid ==> self.same_thread(other, p)
    }

    /// Participant `p` has the limbo buckets it has in `other`.
    pub open spec fn same_buckets(&self, other: &Self, p: int) -> bool {
        forall|b: int| 0 <= b < BUCKETS ==> #[trigger] self.bucket(p, b) == other.bucket(p, b)
    }

    /// Every node is in exactly one place: on the stack, where it holds a
    /// payload and is in nobody's keeping, or in the one list that its
    /// keeper stands for. No list names a node twice, and no two buckets
    /// of a participant name the same node, so no node is certified,
    /// reused or given up twice.
    pub proof fn lemma_places(&self, p: int)
        requires
            self.wf(),
            0 <= p < MAX_THREADS,
        ensures
            self.keepers().len() == self.node_count(),
            forall|i: int|
                0 <= i < self.node_count() ==> (self.on_stack(i) <==> #[trigger] self.keeper(i)
                    is Nobody),
            forall|b: int|
                0 <= b < BUCKETS ==> all_at(
                    #[trigger] self.bucket(p, b),
                    self.keepers(),
                    Keeper::Limbo(p as usize),
                ),
            self.all_limbo(p).no_duplicates(),
            all_at(self.garbage(p), self.keepers(), Keeper::Garbage(p as usize)),
            all_at(self.deferred(), self.keepers(), Keeper::Deferred),
            all_at(self.spare(), self.keepers(), Keeper::Free),
    {
        self.arena.lemma_shape();
        assert(self.inv_thread(p));
        let t = self.threads@[p];
        assert forall|b: int| 0 <= b < BUCKETS implies all_at(
            #[trigger] self.bucket(p, b),
            self.keeper@,
            Keeper::Limbo(p as usize),
        ) by {
            assert(all_at(t.limbo@[b]@, self.keeper@, Keeper::Limbo(p as usize)));
        }
        assert forall|i: int| 0 <= i < self.node_count() implies (self.on_stack(i)
            <==> #[trigger] self.keeper(i) is Nobody) by {
            assert(self.keeper@[i] is Nobody <==> self.arena.states()[i] != NodeState::Idle);
            assert(self.arena.states()[i] != NodeState::Held);
        }
        let b0 = t.limbo@[0]@;
        let b1 = t.limbo@[1]@;
        let b2 = t.limbo@[2]@;
        assert(all_at(b0, self.keeper@, Keeper::Limbo(p as usize)));
        assert(all_at(b1, self.keeper@, Keeper::Limbo(p as usize)));
        assert(all_at(b2, self.keeper@, Keeper::Limbo(p as usize)));
        assert forall|i: int, j: int| 0 <= i < b0.len() && 0 <= j < b1.len() implies b0[i]
            != b1[j] by {
            assert(t.limbo@[0]@[i] != t.limbo@[1]@[j]);
        }
        vstd::seq_lib::lemma_no_dup_in_concat(b0, b1);
        assert forall|i: int, j: int| 0 <= i < (b0 + b1).len() && 0 <= j < b2.len() implies (b0
            + b1)[i] != b2[j] by {
            if i < b0.len() {
                assert(t.limbo@[0]@[i] != t.limbo@[2]@[j]);
            } else {
                assert(t.limbo@[1]@[i - b0.len()] != t.limbo@[2]@[j]);
            }
        }
        vstd::seq_lib::lemma_no_dup_in_concat(b0 + b1, b2);
    }

    /// What a well-formed state guarantees about epochs: a participant's
    /// epoch is never ahead of the global epoch, and while a participant is
    /// checked in the global epoch is at most one ahead of it.
    pub proof fn lemma_epochs(&self, p: int)
        requires
            self.wf(),
            0 <= p < MAX_THREADS,
        ensures
            self.epoch(p) <= self.global_epoch(),
            self.active(p) ==> self.global_epoch() <= self.epoch(p) + 1,
    {
        assert(self.inv_thread(p));
    }

    /// An empty stack at epoch zero, with no participant registered.
    pub fn new() -> (s: Self)
        ensures
            s.wf(),
            s@ == Seq::<T>::empty(),
            s.node_count() == 0,
            s.top_node() == NULL,
            s.participants() == 0,
            s.global_epoch() == 0,
            s.deferred() == Seq::<usize>::empty(),
            s.spare() == Seq::<usize>::empty(),
            forall|p: int|
                0 <= p < MAX_THREADS ==> s.epoch(p) == 0 && !s.active(p) && s.candidate(p) == NULL
                    && s.garbage(p) == Seq::<usize>::empty(),
            forall|p: int, b: int|
                0 <= p < MAX_THREADS && 0 <= b < BUCKETS ==> s.bucket(p, b) == Seq::<
                    usize,
                >::empty(),
            s.orderly(),
    {
        let mut threads: Vec<ThreadLocal> = Vec::new();
        while threads.len() < MAX_THREADS
            invariant
                threads@.len() <= MAX_THREADS,
                forall|p: int|
                    0 <= p < threads@.len() ==> {
                        let t = #[trigger] threads@[p];
                        &&& t.current_epoch == 0
                        &&& !t.is_active
                        &&& t.candidate == NULL
                        &&& t.garbage@ == Seq::<usize>::empty()
                        &&& t.limbo@.len() == BUCKETS
                        &&& forall|b: int|
                            0 <= b < BUCKETS ==> (#[trigger] t.limbo@[b])@ == Seq::<usize>::empty()
                    },
            decreases MAX_THREADS - threads@.len(),
        {
            threads.push(ThreadLocal::new());
        }
        let s = Self {
            arena: Arena::new(),
            threads,
            global_epoch: 0,
            thread_counter: 0,
            deferred: Vec::new(),
            free: Vec::new(),
            keeper: Ghost(Seq::empty()),
            retired_at: Ghost(Seq::empty()),
        };
        proof {
            assert forall|p: int| 0 <= p < MAX_THREADS implies #[trigger] s.inv_stamps(p, 0) by {
                let t = s.threads@[p];
                assert forall|b: int, k: int|
                    0 <= b < BUCKETS && 0 <= k < t.limbo@[b]@.len() implies s.retired_at@[(
                #[trigger] t.limbo@[b]@[k]) as int] + (2 - b) + 0 <= t.current_epoch by {
                    assert(t.limbo@[b]@ == Seq::<usize>::empty());
                }
            }
            assert forall|p: int| 0 <= p < MAX_THREADS implies #[trigger] s.inv_candidate(p) by {
                assert(s.threads@[p].candidate == NULL);
            }
            assert forall|p: int| 0 <= p < MAX_THREADS implies #[trigger] s.inv_thread(p) by {
                let t = s.threads@[p];
                assert forall|b: int| 0 <= b < BUCKETS implies all_at(
                    (#[trigger] t.limbo@[b])@,
                    s.keeper@,
                    Keeper::Limbo(p as usize),
                ) by {}
            }
        }
        s
    }

    /// The lists of every participant, and the shared lists, are those of
    /// `other`.
    closed spec fn same_lists(&self, other: &Self) -> bool {
        &&& self.threads@.len() == other.threads@.len()
        &&& self.deferred@ == other.deferred@
        &&& self.free@ == other.free@
        &&& forall|p: int|
            0 <= p < MAX_THREADS ==> {
                &&& (#[trigger] self.threads@[p]).garbage@ == other.threads@[p].garbage@
                &&& self.threads@[p].limbo@.len() == other.threads@[p].limbo@.len()
                &&& forall|b: int|
                    0 <= b < BUCKETS ==> (#[trigger] self.threads@[p].limbo@[b])@
                        == other.threads@[p].limbo@[b]@
            }
    }

    /// Participant `p` has not fallen back to an earlier epoch, and what it
    /// has observed is what it has observed in `other`, or nothing.
    closed spec fn observation_kept(&self, other: &Self, p: int) -> bool {
        let t = self.threads@[p];
        let u = other.threads@[p];
        &&& t.current_epoch >= u.current_epoch
        &&& t.candidate != NULL ==> {
            &&& t.candidate == u.candidate
            &&& t.successor == u.successor
            &&& t.current_epoch == u.current_epoch
            &&& t.is_active
        }
    }

    /// Every participant keeps its observation.
    closed spec fn same_observations(&self, other: &Self) -> bool {
        forall|p: int| 0 <= p < MAX_THREADS ==> #[trigger] self.observation_kept(other, p)
    }

    /// The stamps of participant `p` hold with `slack` when its buckets
    /// and their nodes' stamps are those of a state where they held with
    /// at least as much room.
    proof fn lemma_stamps_kept(&self, after: &Self, p: int, before: int, slack: int)
        requires
            0 <= p < MAX_THREADS,
            self.inv_stamps(p, before),
            self.inv_thread(p),
            after.retired_at@.len() >= self.keeper@.len(),
            self.retired_at@.len() >= self.keeper@.len(),
            forall|i: int|
                0 <= i < self.keeper@.len() && self.keeper@[i] == Keeper::Limbo(p as usize)
                    ==> #[trigger] after.retired_at@[i] == self.retired_at@[i],
            after.threads@[p].limbo@.len() == BUCKETS,
            forall|b: int|
                0 <= b < BUCKETS ==> (#[trigger] after.threads@[p].limbo@[b])@
                    == self.threads@[p].limbo@[b]@,
            after.threads@[p].current_epoch - slack >= self.threads@[p].current_epoch - before,
        ensures
            after.inv_stamps(p, slack),
    {
        let t = self.threads@[p];
        let u = after.threads@[p];
        assert forall|b: int, k: int|
            0 <= b < BUCKETS && 0 <= k < u.limbo@[b]@.len() implies after.retired_at@[(
        #[trigger] u.limbo@[b]@[k]) as int] + (2 - b) + slack <= u.current_epoch by {
            assert(u.limbo@[b]@ == t.limbo@[b]@);
            assert(all_at(t.limbo@[b]@, self.keeper@, Keeper::Limbo(p as usize)));
            assert(self.retired_at@[t.limbo@[b]@[k] as int] + (2 - b) + before
                <= t.current_epoch);
        }
    }

    /// What participant `p` has observed stays something that it may read
    /// when the observation is kept, or dropped, and the observed node
    /// keeps its keeper, its stamp and its successor.
    proof fn lemma_candidate_kept(&self, after: &Self, p: int)
        requires
            0 <= p < MAX_THREADS,
            self.inv_candidate(p),
            after.observation_kept(self, p),
            after.keeper@.len() >= self.keeper@.len(),
            self.threads@[p].candidate != NULL ==> {
                let c = self.threads@[p].candidate as int;
                &&& after.keeper@[c] == self.keeper@[c] || (!(after.keeper@[c] is Garbage) && !(
                after.keeper@[c] is Free) && !(after.keeper@[c] is Limbo))
                &&& after.retired_at@[c] == self.retired_at@[c]
                &&& after.arena.successors()[c] == self.arena.successors()[c]
            },
        ensures
            after.inv_candidate(p),
    {
    }

    /// The epochs are in order: no participant is ahead of the global
    /// epoch, which is at most one ahead of a participant that has checked in.
    closed spec fn epochs_ok(&self) -> bool {
        forall|p: int|
            0 <= p < MAX_THREADS ==> {
                &&& (#[trigger] self.threads@[p]).current_epoch <= self.global_epoch
                &&& self.threads@[p].is_active
                    ==> self.global_epoch <= self.threads@[p].current_epoch
                    + 1
            }
    }

    /// A change that leaves every list alone and every node idle or not as
    /// it was keeps the state consistent, if the epochs stay in order.
    proof fn lemma_lists_kept(&self, after: &Self)
        requires
            self.inv(),
            after.arena.wf(),
            after.arena.node_count() == self.arena.node_count(),
            forall|i: int|
                0 <= i < self.keeper@.len() ==> (#[trigger] after.arena.states()[i]
                    == NodeState::Idle) == (self.arena.states()[i] == NodeState::Idle),
            after.keeper@ == self.keeper@,
            after.retired_at@ == self.retired_at@,
            after.arena.successors() == self.arena.successors(),
            after.same_lists(self),
            after.same_observations(self),
            after.thread_counter <= MAX_THREADS,
            after.epochs_ok(),
        ensures
            after.inv(),
    {
        self.arena.lemma_shape();
        assert forall|p: int| 0 <= p < MAX_THREADS implies #[trigger] after.inv_stamps(p, 0) by {
            assert(self.inv_stamps(p, 0));
            assert(self.inv_thread(p));
            assert(after.observation_kept(self, p));
            self.lemma_stamps_kept(after, p, 0, 0);
        }
        assert forall|p: int| 0 <= p < MAX_THREADS implies #[trigger] after.inv_candidate(p) by {
            assert(self.inv_candidate(p));
            assert(after.observation_kept(self, p));
            self.lemma_candidate_kept(after, p);
        }
        assert forall|p: int| 0 <= p < MAX_THREADS implies #[trigger] after.inv_thread(p) by {
            assert(self.inv_thread(p));
            let t = self.threads@[p];
            let u = after.threads@[p];
            assert forall|b: int| 0 <= b < BUCKETS implies all_at(
                (#[trigger] u.limbo@[b])@,
                after.keeper@,
                Keeper::Limbo(p as usize),
            ) by {
                assert(u.limbo@[b]@ == t.limbo@[b]@);
            }
            assert forall|a: int, b: int, j: int, k: int|
                0 <= a < b < BUCKETS && 0 <= j < u.limbo@[a]@.len() && 0 <= k
                    < u.limbo@[b]@.len() implies #[trigger] u.limbo@[a]@[j]
                != #[trigger] u.limbo@[b]@[k] by {
                assert(u.limbo@[a]@ == t.limbo@[a]@);
                assert(u.limbo@[b]@ == t.limbo@[b]@);
                assert(t.limbo@[a]@[j] != t.limbo@[b]@[k]);
            }
        }
        assert forall|i: int| 0 <= i < after.keeper@.len() implies ((
        #[trigger] after.keeper@[i]) is Nobody <==> after.arena.states()[i] != NodeState::Idle) by {
            assert(self.keeper@[i] is Nobody <==> self.arena.states()[i] != NodeState::Idle);
        }
    }

    /// Every participant has seen the epoch, is checked in or not, and has
    /// observed the node and the successor, that it has in `other`.
    closed spec fn same_watch(&self, other: &Self) -> bool {
        forall|p: int|
            0 <= p < MAX_THREADS ==> {
                &&& (#[trigger] self.threads@[p]).current_epoch == other.threads@[p].current_epoch
                &&& self.threads@[p].candidate == other.threads@[p].candidate
                &&& self.threads@[p].successor == other.threads@[p].successor
                &&& self.threads@[p].is_active == other.threads@[p].is_active
            }
    }

    /// A state with the same slots keeps every observation.
    proof fn lemma_observations_same(&self, after: &Self)
        requires
            self.inv(),
            after.same_watch(self),
        ensures
            after.same_observations(self),
    {
        assert forall|p: int| 0 <= p < MAX_THREADS implies #[trigger] after.observation_kept(
            self,
            p,
        ) by {
            assert(self.inv_candidate(p));
            assert(after.threads@[p].candidate == self.threads@[p].candidate);
        }
    }

    /// The epochs of a consistent state are in order.
    proof fn lemma_epochs_ok(&self)
        requires
            self.inv(),
        ensures
            self.epochs_ok(),
    {
        assert forall|p: int| 0 <= p < MAX_THREADS implies {
            &&& (#[trigger] self.threads@[p]).current_epoch <= self.global_epoch
            &&& self.threads@[p].is_active ==> self.global_epoch <= self.threads@[p].current_epoch
                + 1
        } by {
            assert(self.inv_thread(p));
        }
    }

    /// A state with the same arena and the same epochs is as settled.
    proof fn lemma_settled(&self, after: &Self)
        requires
            self.wf(),
            after.inv(),
            after.arena.states() == self.arena.states(),
        ensures
            after.wf(),
    {
        self.arena.lemma_shape();
        after.arena.lemma_shape();
        assert forall|i: int| 0 <= i < after.keeper@.len() implies (
        #[trigger] after.arena.states()[i]) != NodeState::Held by {
            assert(self.arena.states()[i] != NodeState::Held);
        }
    }

    /// Number of nodes in the arena.
    pub fn nodes(&self) -> (n: usize)
        requires
            self.wf(),
        ensures
            n == self.node_count(),
    {
        self.arena.count()
    }

    /// Number of payloads on the stack.
    pub fn len(&self) -> (n: usize)
        requires
            self.wf(),
        ensures
            n == self@.len(),
    {
        self.arena.len()
    }

    /// The global epoch.
    pub fn current_epoch(&self) -> (e: usize)
        ensures
            e == self.global_epoch(),
    {
        self.global_epoch
    }

    /// Number of nodes in limbo bucket `b` of participant `tid`.
    pub fn pending(&self, tid: usize, b: usize) -> (n: usize)
        requires
            self.wf(),
            tid < MAX_THREADS,
            b < BUCKETS,
        ensures
            n == self.bucket(tid as int, b as int).len(),
    {
        proof {
            assert(self.inv_thread(tid as int));
        }
        self.threads[tid].limbo[b].len()
    }

    /// Number of nodes that any participant may reuse.
    pub fn spares(&self) -> (n: usize)
        requires
            self.wf(),
        ensures
            n == self.spare().len(),
    {
        self.free.len()
    }

    /// Number of nodes that departed participants left behind in limbo.
    pub fn left_behind(&self) -> (n: usize)
        requires
            self.wf(),
        ensures
            n == self.deferred().len(),
    {
        self.deferred.len()
    }

    /// Number of nodes that participant `tid` keeps for reuse.
    pub fn reusable(&self, tid: usize) -> (n: usize)
        requires
            self.wf(),
            tid < MAX_THREADS,
        ensures
            n == self.garbage(tid as int).len(),
    {
        self.threads[tid].garbage.len()
    }

    /// Registers one more participant and hands out its number. The table
    /// must have a slot left: to register a participant beyond the last
    /// slot is an error of the caller, who tests `registered` first.
    pub fn register(&mut self) -> (id: usize)
        requires
            old(self).wf(),
            old(self).participants() < MAX_THREADS,
        ensures
            final(self).wf(),
            final(self).same_stack(old(self)),
            final(self).same_threads_but(old(self), -1),
            final(self).global_epoch() == old(self).global_epoch(),
            id == old(self).participants(),
            id < MAX_THREADS,
            final(self).participants() == old(self).participants() + 1,
            old(self).orderly() ==> final(self).orderly(),
    {
        let id = self.thread_counter;
        self.thread_counter = id + 1;
        proof {
            old(self).lemma_epochs_ok();
            assert(self.same_watch(old(self)));
            old(self).lemma_observations_same(self);
            old(self).lemma_lists_kept(self);
            old(self).lemma_settled(self);
            if old(self).orderly() {
                assert forall|p: int| 0 <= p < MAX_THREADS implies #[trigger] self.orderly_at(
                    p,
                ) by {
                    assert(old(self).orderly_at(p));
                    assert(self.threads@[p] == old(self).threads@[p]);
                }
            }
        }
        id
    }

    /// Number of participants registered so far; it never exceeds the
    /// number of slots.
    pub fn registered(&self) -> (n: usize)
        requires
            self.wf(),
        ensures
            n == self.participants(),
            n <= MAX_THREADS,
    {
        self.thread_counter
    }

    /// Every participant but `tid` that has checked in has seen epoch `e`.
    pub open spec fn others_seen(&self, tid: int, e: usize) -> bool {
        forall|p: int| 0 <= p < MAX_THREADS && p != tid && self.active(p) ==> self.epoch(p) == e
    }

    /// The global epoch after participant `tid` has checked in: one more,
    /// if every other participant that has checked in has seen the current
    /// one and the counter has room; else as it was.
    pub open spec fn epoch_after_entry(&self, tid: int) -> usize {
        if self.others_seen(tid, self.global_epoch()) && self.global_epoch() < usize::MAX {
            (self.global_epoch() + 1) as usize
        } else {
            self.global_epoch()
        }
    }

    /// Checks participant `tid` in: it is active from now on and has seen
    /// the current global epoch. If every participant that has checked in
    /// has seen that epoch, the global epoch advances by one. Returns the
    /// epoch that `tid` had seen before and the one it has seen now.
    pub fn start_shared_section(&mut self, thread_id: usize) -> (r: (usize, usize))
        requires
            old(self).wf(),
            thread_id < MAX_THREADS,
        ensures
            final(self).wf(),
            final(self).same_stack(old(self)),
            final(self).participants() == old(self).participants(),
            final(self).same_threads_but(old(self), thread_id as int),
            final(self).garbage(thread_id as int) == old(self).garbage(thread_id as int),
            final(self).same_buckets(old(self), thread_id as int),
            final(self).active(thread_id as int),
            final(self).candidate(thread_id as int) == NULL,
            final(self).epoch(thread_id as int) == old(self).global_epoch(),
            final(self).global_epoch() == old(self).epoch_after_entry(thread_id as int),
            r == (old(self).epoch(thread_id as int), old(self).global_epoch()),
            r.0 <= r.1,
    {
        proof {
            assert(old(self).inv_thread(thread_id as int));
        }
        let current_epoch = self.global_epoch;
        let old_epoch = self.threads[thread_id].current_epoch;
        self.threads[thread_id].is_active = true;
        self.threads[thread_id].current_epoch = current_epoch;
        self.threads[thread_id].candidate = NULL;
        let mut have_all_threads_seen_epoch = true;
        let mut p: usize = 0;
        while p < MAX_THREADS
            invariant
                p <= MAX_THREADS,
                self.threads@.len() == MAX_THREADS,
                have_all_threads_seen_epoch == (forall|q: int|
                    0 <= q < p && (#[trigger] self.threads@[q]).is_active
                        ==> self.threads@[q].current_epoch == current_epoch),
            decreases MAX_THREADS - p,
        {
            if self.threads[p].is_active && self.threads[p].current_epoch != current_epoch {
                have_all_threads_seen_epoch = false;
                assert(self.threads@[p as int].is_active);
            }
            p = p + 1;
        }
        let ghost checked_in = *self;
        proof {
            assert(have_all_threads_seen_epoch == old(self).others_seen(
                thread_id as int,
                current_epoch,
            )) by {
                if old(self).others_seen(thread_id as int, current_epoch) {
                    assert forall|q: int|
                        0 <= q < MAX_THREADS && (
                        #[trigger] self.threads@[q]).is_active
                            implies self.threads@[q].current_epoch
                        == current_epoch by {
                        if q != thread_id {
                            assert(old(self).active(q));
                            assert(old(self).epoch(q) == current_epoch);
                        }
                    }
                }
                if have_all_threads_seen_epoch {
                    assert forall|q: int|
                        0 <= q < MAX_THREADS && q != thread_id && old(self).active(
                            q,
                        ) implies old(self).epoch(q) == current_epoch by {
                        assert(self.threads@[q].is_active);
                    }
                }
            }
        }
        if have_all_threads_seen_epoch && current_epoch < usize::MAX {
            self.global_epoch = current_epoch + 1;
        }
        proof {
            assert forall|q: int| 0 <= q < MAX_THREADS implies {
                &&& (#[trigger] self.threads@[q]).current_epoch <= self.global_epoch
                &&& self.threads@[q].is_active ==> self.global_epoch
                    <= self.threads@[q].current_epoch + 1
            } by {
                assert(old(self).inv_thread(q));
                assert(self.threads@[q] == checked_in.threads@[q]);
                if q != thread_id {
                    assert(self.threads@[q] == old(self).threads@[q]);
                }
            }
            assert forall|q: int| 0 <= q < MAX_THREADS implies #[trigger] self.observation_kept(
                old(self),
                q,
            ) by {
                assert(old(self).inv_candidate(q));
                assert(old(self).inv_thread(q));
                assert(self.threads@[q] == checked_in.threads@[q]);
                if q != thread_id {
                    assert(self.threads@[q] == old(self).threads@[q]);
                }
            }
            old(self).lemma_lists_kept(self);
            old(self).lemma_settled(self);
        }
        (old_epoch, current_epoch)
    }

    /// Checks participant `tid` out: it is no longer active.
    pub fn end_shared_section(&mut self, thread_id: usize)
        requires
            old(self).wf(),
            thread_id < MAX_THREADS,
        ensures
            final(self).wf(),
            final(self).same_stack(old(self)),
            final(self).participants() == old(self).participants(),
            final(self).global_epoch() == old(self).global_epoch(),
            final(self).same_threads_but(old(self), thread_id as int),
            final(self).garbage(thread_id as int) == old(self).garbage(thread_id as int),
            final(self).same_buckets(old(self), thread_id as int),
            final(self).epoch(thread_id as int) == old(self).epoch(thread_id as int),
            !final(self).active(thread_id as int),
            final(self).candidate(thread_id as int) == NULL,
    {
        self.check_out(thread_id);
        proof {
            old(self).lemma_settled(self);
        }
    }

    /// Marks participant `tid` as not active, with nothing observed,
    /// whatever else is under way.
    fn check_out(&mut self, thread_id: usize)
        requires
            old(self).inv(),
            thread_id < MAX_THREADS,
        ensures
            final(self).inv(),
            final(self).arena == old(self).arena,
            final(self).keeper == old(self).keeper,
            final(self).retired_at == old(self).retired_at,
            final(self).same_lists(old(self)),
            final(self).thread_counter == old(self).thread_counter,
            final(self).global_epoch == old(self).global_epoch,
            final(self).same_threads_but(old(self), thread_id as int),
            final(self).epoch(thread_id as int) == old(self).epoch(thread_id as int),
            !final(self).active(thread_id as int),
            final(self).candidate(thread_id as int) == NULL,
    {
        self.threads[thread_id].is_active = false;
        self.threads[thread_id].candidate = NULL;
        proof {
            assert forall|q: int| 0 <= q < MAX_THREADS implies #[trigger] self.observation_kept(
                old(self),
                q,
            ) by {
                assert(old(self).inv_candidate(q));
                if q != thread_id {
                    assert(self.threads@[q] == old(self).threads@[q]);
                }
            }
            assert forall|q: int| 0 <= q < MAX_THREADS implies {
                &&& (#[trigger] self.threads@[q]).current_epoch <= self.global_epoch
                &&& self.threads@[q].is_active ==> self.global_epoch
                    <= self.threads@[q].current_epoch + 1
            } by {
                assert(old(self).inv_thread(q));
            }
            old(self).lemma_lists_kept(self);
        }
    }

    /// The lists of participant `p` are those it has in `other`.
    closed spec fn same_thread_lists(&self, other: &Self, p: int) -> bool {
        &&& self.threads@[p].garbage@ == other.threads@[p].garbage@
        &&& self.threads@[p].limbo@.len() == other.threads@[p].limbo@.len()
        &&& forall|b: int|
            0 <= b < BUCKETS ==> (#[trigger] self.threads@[p].limbo@[b])@
                == other.threads@[p].limbo@[b]@
    }

    /// The epochs of participant `p` are in order.
    closed spec fn epoch_ok(&self, p: int) -> bool {
        &&& self.threads@[p].current_epoch <= self.global_epoch
        &&& self.threads@[p].is_active ==> self.global_epoch <= self.threads@[p].current_epoch + 1
    }

    /// A participant whose lists are unchanged, and none of whose nodes
    /// changed keeper, is as consistent as before.
    proof fn lemma_thread_untouched(&self, after: &Self, p: int)
        requires
            0 <= p < MAX_THREADS,
            self.inv_thread(p),
            after.keeper@.len() >= self.keeper@.len(),
            forall|i: int|
                0 <= i < self.keeper@.len() && (self.keeper@[i] == Keeper::Limbo(p as usize)
                    || self.keeper@[i] == Keeper::Garbage(p as usize))
                        ==> #[trigger] after.keeper@[i]
                    == self.keeper@[i],
            after.same_thread_lists(self, p),
            after.epoch_ok(p),
        ensures
            after.inv_thread(p),
    {
        let t = self.threads@[p];
        let u = after.threads@[p];
        assert forall|b: int| 0 <= b < BUCKETS implies all_at(
            (#[trigger] u.limbo@[b])@,
            after.keeper@,
            Keeper::Limbo(p as usize),
        ) by {
            assert(u.limbo@[b]@ == t.limbo@[b]@);
            assert(all_at(t.limbo@[b]@, self.keeper@, Keeper::Limbo(p as usize)));
            lemma_all_at_kept(t.limbo@[b]@, self.keeper@, Keeper::Limbo(p as usize), after.keeper@);
        }
        assert forall|a: int, b: int, j: int, k: int|
            0 <= a < b < BUCKETS && 0 <= j < u.limbo@[a]@.len() && 0 <= k
                < u.limbo@[b]@.len() implies #[trigger] u.limbo@[a]@[j]
            != #[trigger] u.limbo@[b]@[k] by {
            assert(u.limbo@[a]@ == t.limbo@[a]@);
            assert(u.limbo@[b]@ == t.limbo@[b]@);
            assert(t.limbo@[a]@[j] != t.limbo@[b]@[k]);
        }
        lemma_all_at_kept(t.garbage@, self.keeper@, Keeper::Garbage(p as usize), after.keeper@);
    }

    /// The node that a push by participant `p` would link: the node that
    /// `p` put among its garbage last, else the spare node given up last,
    /// else a new one.
    pub open spec fn fresh_node(&self, p: int) -> usize {
        if self.garbage(p).len() > 0 {
            self.garbage(p).last()
        } else if self.spare().len() > 0 {
            self.spare().last()
        } else {
            self.node_count() as usize
        }
    }

    /// The garbage of participant `p` after a push of its own.
    pub open spec fn garbage_after_push(&self, p: int) -> Seq<usize> {
        if self.garbage(p).len() > 0 {
            self.garbage(p).drop_last()
        } else {
            self.garbage(p)
        }
    }

    /// The spare nodes after a push by participant `p`.
    pub open spec fn spare_after_push(&self, p: int) -> Seq<usize> {
        if self.garbage(p).len() == 0 && self.spare().len() > 0 {
            self.spare().drop_last()
        } else {
            self.spare()
        }
    }

    /// Stores `node` in the arena and hands out its index: in the node that
    /// participant `tid` put among its garbage last, else in the spare node
    /// given up last, else in a new one. The node is in the caller's hands.
    fn get_node(&mut self, tid: usize, node: Node<T>) -> (idx: usize)
        requires
            old(self).inv(),
            tid < MAX_THREADS,
        ensures
            final(self).inv(),
            idx == old(self).fresh_node(tid as int),
            idx < final(self).arena.node_count(),
            final(self).arena.node_count() == if idx < old(self).arena.node_count() {
                old(self).arena.node_count()
            } else {
                old(self).arena.node_count() + 1
            },
            final(self).arena.states() == if idx < old(self).arena.node_count() {
                old(self).arena.states().update(idx as int, NodeState::Held)
            } else {
                old(self).arena.states().push(NodeState::Held)
            },
            final(self).keeper@ == if idx < old(self).arena.node_count() {
                old(self).keeper@.update(idx as int, Keeper::Nobody)
            } else {
                old(self).keeper@.push(Keeper::Nobody)
            },
            final(self).retired_at@ == if idx < old(self).arena.node_count() {
                old(self).retired_at@
            } else {
                old(self).retired_at@.push(0)
            },
            final(self).same_watch(old(self)),
            final(self).arena.payloads()[idx as int] == node.data,
            final(self).arena.successors() == if idx < old(self).arena.node_count() {
                old(self).arena.successors().update(idx as int, node.next)
            } else {
                old(self).arena.successors().push(node.next)
            },
            final(self).arena@ == old(self).arena@,
            final(self).arena.top_node() == old(self).arena.top_node(),
            final(self).thread_counter == old(self).thread_counter,
            final(self).global_epoch == old(self).global_epoch,
            final(self).deferred@ == old(self).deferred@,
            final(self).same_threads_but(old(self), tid as int),
            final(self).epoch(tid as int) == old(self).epoch(tid as int),
            final(self).active(tid as int) == old(self).active(tid as int),
            final(self).same_buckets(old(self), tid as int),
            final(self).garbage(tid as int) == old(self).garbage_after_push(tid as int),
            final(self).spare() == old(self).spare_after_push(tid as int),
    {
        proof {
            assert(old(self).inv_thread(tid as int));
            old(self).arena.lemma_shape();
            old(self).lemma_epochs_ok();
        }
        let from_garbage = self.threads[tid].garbage.len() > 0;
        let reused = if from_garbage {
            self.threads[tid].garbage.pop()
        } else {
            self.free.pop()
        };
        match reused {
            Some(i) => {
                proof {
                    if from_garbage {
                        assert(old(self).threads@[tid as int].garbage@[old(
                            self).threads@[tid as int].garbage@.len() - 1] == i);
                    } else {
                        assert(old(self).free@[old(self).free@.len() - 1] == i);
                    }
                    assert(old(self).keeper@[i as int] == Keeper::Garbage(tid) || old(
                        self).keeper@[i as int] == Keeper::Free);
                    assert(old(self).arena.states()[i as int] == NodeState::Idle);
                }
                self.arena.store(i, node);
                proof {
                    self.keeper@ = self.keeper@.update(i as int, Keeper::Nobody);
                    self.arena.lemma_shape();
                    let to = Keeper::Nobody;
                    assert(self.same_watch(old(self)));
                    old(self).lemma_observations_same(self);
                    assert forall|p: int| 0 <= p < MAX_THREADS implies #[trigger] self.inv_stamps(
                        p,
                        0,
                    ) by {
                        assert(old(self).inv_stamps(p, 0));
                        assert(old(self).inv_thread(p));
                        old(self).lemma_stamps_kept(self, p, 0, 0);
                    }
                    assert forall|p: int|
                        0 <= p < MAX_THREADS implies #[trigger] self.inv_candidate(p) by {
                        assert(old(self).inv_candidate(p));
                        assert(self.observation_kept(old(self), p));
                        old(self).lemma_candidate_kept(self, p);
                    }
                    assert forall|p: int| 0 <= p < MAX_THREADS implies #[trigger] self.inv_thread(
                        p,
                    ) by {
                        assert(old(self).inv_thread(p));
                        assert(self.threads@[p].current_epoch == old(
                            self).threads@[p].current_epoch);
                        assert(self.threads@[p].is_active == old(self).threads@[p].is_active);
                        if p == tid && from_garbage {
                            let t = old(self).threads@[p];
                            let u = self.threads@[p];
                            lemma_all_at_drop_last(
                                t.garbage@,
                                old(self).keeper@,
                                Keeper::Garbage(p as usize),
                                to,
                            );
                            assert(u.garbage@ =~= t.garbage@.drop_last());
                            assert forall|b: int| 0 <= b < BUCKETS implies all_at(
                                (#[trigger] u.limbo@[b])@,
                                self.keeper@,
                                Keeper::Limbo(p as usize),
                            ) by {
                                assert(u.limbo@[b]@ == t.limbo@[b]@);
                                assert(all_at(
                                    t.limbo@[b]@,
                                    old(self).keeper@,
                                    Keeper::Limbo(p as usize),
                                ));
                                lemma_all_at_elsewhere(
                                    t.limbo@[b]@,
                                    old(self).keeper@,
                                    Keeper::Limbo(p as usize),
                                    i as int,
                                    to,
                                );
                            }
                            assert forall|a: int, b: int, j: int, k: int|
                                0 <= a < b < BUCKETS && 0 <= j < u.limbo@[a]@.len() && 0 <= k
                                    < u.limbo@[b]@.len() implies #[trigger] u.limbo@[a]@[j]
                                != #[trigger] u.limbo@[b]@[k] by {
                                assert(u.limbo@[a]@ == t.limbo@[a]@);
                                assert(u.limbo@[b]@ == t.limbo@[b]@);
                                assert(t.limbo@[a]@[j] != t.limbo@[b]@[k]);
                            }
                        } else {
                            assert(self.threads@[p].garbage@ =~= old(self).threads@[p].garbage@);
                            old(self).lemma_thread_untouched(self, p);
                        }
                    }
                    if from_garbage {
                        lemma_all_at_elsewhere(
                            old(self).free@,
                            old(self).keeper@,
                            Keeper::Free,
                            i as int,
                            to,
                        );
                    } else {
                        lemma_all_at_drop_last(
                            old(self).free@,
                            old(self).keeper@,
                            Keeper::Free,
                            to,
                        );
                        assert(self.free@ =~= old(self).free@.drop_last());
                    }
                    lemma_all_at_elsewhere(
                        old(self).deferred@,
                        old(self).keeper@,
                        Keeper::Deferred,
                        i as int,
                        to,
                    );
                    assert(self.garbage(tid as int) =~= old(self).garbage_after_push(tid as int));
                    assert(self.spare() =~= old(self).spare_after_push(tid as int));
                }
                i
            },
            None => {
                let i = self.arena.insert(node);
                proof {
                    self.keeper@ = self.keeper@.push(Keeper::Nobody);
                    self.retired_at@ = self.retired_at@.push(0);
                    self.arena.lemma_shape();
                    assert(self.same_watch(old(self)));
                    old(self).lemma_observations_same(self);
                    assert forall|p: int| 0 <= p < MAX_THREADS implies #[trigger] self.inv_stamps(
                        p,
                        0,
                    ) by {
                        assert(old(self).inv_stamps(p, 0));
                        assert(old(self).inv_thread(p));
                        old(self).lemma_stamps_kept(self, p, 0, 0);
                    }
                    assert forall|p: int|
                        0 <= p < MAX_THREADS implies #[trigger] self.inv_candidate(p) by {
                        assert(old(self).inv_candidate(p));
                        assert(self.observation_kept(old(self), p));
                        old(self).lemma_candidate_kept(self, p);
                    }
                    assert forall|p: int| 0 <= p < MAX_THREADS implies #[trigger] self.inv_thread(
                        p,
                    ) by {
                        assert(old(self).inv_thread(p));
                        assert(self.threads@[p].garbage@ =~= old(self).threads@[p].garbage@);
                        assert(self.threads@[p].current_epoch == old(
                            self).threads@[p].current_epoch);
                        assert(self.threads@[p].is_active == old(self).threads@[p].is_active);
                        old(self).lemma_thread_untouched(self, p);
                    }
                    lemma_all_at_grown(
                        old(self).free@,
                        old(self).keeper@,
                        Keeper::Free,
                        Keeper::Nobody,
                    );
                    lemma_all_at_grown(
                        old(self).deferred@,
                        old(self).keeper@,
                        Keeper::Deferred,
                        Keeper::Nobody,
                    );
                    assert(self.free@ =~= old(self).free@);
                    assert(self.garbage(tid as int) =~= old(self).garbage_after_push(tid as int));
                }
                i
            },
        }
    }

    /// Pushes `data` for participant `tid`: the payload goes into the node
    /// that `fresh_node` names, which becomes the top of the stack.
    pub fn push(&mut self, tid: usize, data: T)
        requires
            old(self).wf(),
            tid < MAX_THREADS,
        ensures
            final(self).wf(),
            final(self)@ == old(self)@.push(data),
            final(self).top_node() == old(self).fresh_node(tid as int),
            final(self).successor_of(final(self).top_node() as int) == old(self).top_node(),
            forall|i: int|
                0 <= i < old(self).node_count() && i != final(self).top_node() ==> final(
                    self).successor_of(i) == old(self).successor_of(i),
            final(self).keeper(final(self).top_node() as int) == Keeper::Nobody,
            final(self).node_count() == if old(self).fresh_node(tid as int) < old(
                self).node_count() {
                old(self).node_count()
            } else {
                old(self).node_count() + 1
            },
            forall|i: int|
                0 <= i < old(self).node_count() && i != final(self).top_node() ==> final(
                    self).keeper(i) == old(self).keeper(i),
            final(self).participants() == old(self).participants(),
            final(self).global_epoch() == old(self).global_epoch(),
            final(self).deferred() == old(self).deferred(),
            final(self).spare() == old(self).spare_after_push(tid as int),
            final(self).same_threads_but(old(self), tid as int),
            final(self).epoch(tid as int) == old(self).epoch(tid as int),
            final(self).active(tid as int) == old(self).active(tid as int),
            final(self).candidate(tid as int) == old(self).candidate(tid as int),
            final(self).same_buckets(old(self), tid as int),
            final(self).garbage(tid as int) == old(self).garbage_after_push(tid as int),
            old(self).orderly() ==> final(self).orderly(),
    {
        let top = self.arena.top();
        let node = Node { data: Some(data), next: top };
        let idx = self.get_node(tid, node);
        let ghost before = *self;
        proof {
            old(self).arena.lemma_shape();
            before.arena.lemma_shape();
        }
        let linked = self.arena.link(idx, top);
        proof {
            self.arena.lemma_shape();
            before.lemma_epochs_ok();
            assert(before.same_lists(self)) by {
                assert(self.threads@ == before.threads@);
            }
            assert(self.same_watch(&before));
            before.lemma_observations_same(self);
            before.lemma_lists_kept(self);
            assert forall|i: int| 0 <= i < self.keeper@.len() implies (
            #[trigger] self.arena.states()[i]) != NodeState::Held by {
                if i != idx {
                    assert(old(self).arena.states()[i] != NodeState::Held);
                }
            }
            assert forall|p: int|
                0 <= p < MAX_THREADS && p != tid implies #[trigger] self.same_thread(
                old(self),
                p,
            ) by {
                assert(before.same_thread(old(self), p));
                assert(self.same_thread(&before, p));
            }
            assert forall|b: int| 0 <= b < BUCKETS implies #[trigger] self.bucket(tid as int, b)
                == old(self).bucket(tid as int, b) by {
                assert(before.bucket(tid as int, b) == old(self).bucket(tid as int, b));
            }
            if old(self).orderly() {
                assert forall|p: int| 0 <= p < MAX_THREADS implies #[trigger] self.orderly_at(
                    p,
                ) by {
                    assert(old(self).orderly_at(p));
                    if p != tid {
                        assert(self.same_thread(old(self), p));
                    }
                    assert(self.bucket(p, 0) == old(self).bucket(p, 0));
                    assert(self.bucket(p, 1) == old(self).bucket(p, 1));
                    assert(self.bucket(p, 2) == old(self).bucket(p, 2));
                }
            }
        }
    }

    /// The limbo bucket `b` of participant `p` once `p` has seen the global
    /// epoch advance `d` times: the bucket that was `d` places younger, or
    /// an empty one.
    pub open spec fn aged_bucket(&self, p: int, b: int, d: int) -> Seq<usize> {
        if b + d < BUCKETS {
            self.bucket(p, b + d)
        } else {
            Seq::empty()
        }
    }

    /// The nodes of the `d` oldest limbo buckets of participant `p`, oldest
    /// bucket first.
    pub open spec fn drained(&self, p: int, d: int) -> Seq<usize>
        decreases d,
    {
        if d <= 0 {
            Seq::empty()
        } else {
            self.drained(p, d - 1) + self.aged_bucket(p, 0, d - 1)
        }
    }

    /// The keepers once the oldest limbo bucket of `tid` has joined its
    /// garbage.
    closed spec fn keepers_after_age(&self, tid: int) -> Seq<Keeper> {
        let oldest = self.threads@[tid].limbo@[0]@;
        Seq::new(
            self.keeper@.len(),
            |i: int|
                if oldest.contains(i as usize) {
                    Keeper::Garbage(tid as usize)
                } else {
                    self.keeper@[i]
                },
        )
    }

    /// Participant `tid` has seen the global epoch advance once more: its
    /// oldest limbo bucket is certified safe and joins its garbage, every
    /// other bucket is one place older, and the youngest bucket is empty.
    fn age(&mut self, tid: usize, Ghost(slack): Ghost<int>)
        requires
            old(self).inv(),
            tid < MAX_THREADS,
            slack >= 1,
            old(self).inv_stamps(tid as int, slack),
        ensures
            final(self).inv(),
            final(self).inv_stamps(tid as int, slack - 1),
            final(self).retired_at == old(self).retired_at,
            final(self).same_watch(old(self)),
            forall|i: int|
                0 <= i < old(self).keeper@.len() && old(self).keeper@[i] == Keeper::Limbo(tid)
                    && final(self).keeper@[i] == Keeper::Garbage(tid) ==> old(self).retired_at@[i]
                    + 3 <= old(self).epoch(tid as int),
            final(self).arena == old(self).arena,
            final(self).thread_counter == old(self).thread_counter,
            final(self).global_epoch == old(self).global_epoch,
            final(self).deferred@ == old(self).deferred@,
            final(self).free@ == old(self).free@,
            final(self).same_threads_but(old(self), tid as int),
            final(self).epoch(tid as int) == old(self).epoch(tid as int),
            final(self).active(tid as int) == old(self).active(tid as int),
            final(self).garbage(tid as int) == old(self).garbage(tid as int) + old(self).bucket(
                tid as int,
                0,
            ),
            forall|b: int|
                0 <= b < BUCKETS ==> final(self).bucket(tid as int, b) == old(self).aged_bucket(
                    tid as int,
                    b,
                    1,
                ),
            final(self).keeper@.len() == old(self).keeper@.len(),
            forall|i: int|
                0 <= i < old(self).keeper@.len() ==> final(self).keeper@[i] == old(self).keeper@[i]
                    || (old(self).keeper@[i] == Keeper::Limbo(tid) && final(self).keeper@[i]
                    == Keeper::Garbage(tid)),
    {
        proof {
            assert(old(self).inv_thread(tid as int));
            old(self).lemma_epochs_ok();
        }
        let mut oldest = self.threads[tid].limbo.remove(0);
        self.threads[tid].garbage.append(&mut oldest);
        self.threads[tid].limbo.push(Vec::new());
        proof {
            self.keeper@ = old(self).keepers_after_age(tid as int);
            old(self).arena.lemma_shape();
            let t = old(self).threads@[tid as int];
            let u = self.threads@[tid as int];
            let first = t.limbo@[0]@;
            let from = Keeper::Limbo(tid);
            let to = Keeper::Garbage(tid);
            assert(all_at(first, old(self).keeper@, from));
            assert(u.limbo@[0]@ == t.limbo@[1]@);
            assert(u.limbo@[1]@ == t.limbo@[2]@);
            assert(u.limbo@[2]@ == Seq::<usize>::empty());
            assert(u.garbage@ == t.garbage@ + first);
            assert(self.same_watch(old(self))) by {
                assert forall|p: int| 0 <= p < MAX_THREADS implies {
                    &&& (#[trigger] self.threads@[p]).current_epoch == old(
                        self).threads@[p].current_epoch
                    &&& self.threads@[p].candidate == old(self).threads@[p].candidate
                    &&& self.threads@[p].successor == old(self).threads@[p].successor
                    &&& self.threads@[p].is_active == old(self).threads@[p].is_active
                } by {
                    if p != tid {
                        assert(self.threads@[p] == old(self).threads@[p]);
                    }
                }
            }
            old(self).lemma_observations_same(self);
            // a node of the oldest bucket was retired three epochs ago, or more
            assert forall|j: int| 0 <= j < first.len() implies old(self).retired_at@[(
            #[trigger] first[j]) as int] + 3 <= t.current_epoch by {
                assert(old(self).retired_at@[t.limbo@[0]@[j] as int] + (2 - 0) + slack
                    <= t.current_epoch);
            }
            assert forall|i: int|
                0 <= i < old(self).keeper@.len() && old(self).keeper@[i] == Keeper::Limbo(tid)
                    && self.keeper@[i] == Keeper::Garbage(tid) implies old(self).retired_at@[i] + 3
                <= old(self).epoch(tid as int) by {
                assert(first.contains(i as usize));
                let j = choose|j: int| 0 <= j < first.len() && first[j] == i as usize;
                assert(old(self).retired_at@[first[j] as int] + 3 <= t.current_epoch);
            }
            assert forall|b: int, k: int|
                0 <= b < BUCKETS && 0 <= k < u.limbo@[b]@.len() implies self.retired_at@[(
            #[trigger] u.limbo@[b]@[k]) as int] + (2 - b) + (slack - 1) <= u.current_epoch by {
                assert(old(self).retired_at@[t.limbo@[b + 1]@[k] as int] + (2 - (b + 1)) + slack
                    <= t.current_epoch);
            }
            assert forall|p: int| 0 <= p < MAX_THREADS implies #[trigger] self.inv_stamps(p, 0) by {
                assert(old(self).inv_stamps(p, 0));
                assert(old(self).inv_thread(p));
                if p != tid {
                    assert(self.threads@[p] == old(self).threads@[p]);
                    old(self).lemma_stamps_kept(self, p, 0, 0);
                } else {
                    assert forall|b: int, k: int|
                        0 <= b < BUCKETS && 0 <= k < u.limbo@[b]@.len() implies self.retired_at@[(
                    #[trigger] u.limbo@[b]@[k]) as int] + (2 - b) + 0 <= u.current_epoch by {
                        assert(self.retired_at@[u.limbo@[b]@[k] as int] + (2 - b) + (slack - 1)
                            <= u.current_epoch);
                    }
                }
            }
            assert forall|p: int| 0 <= p < MAX_THREADS implies #[trigger] self.inv_candidate(p) by {
                assert(old(self).inv_candidate(p));
                assert(old(self).inv_thread(p));
                assert(self.observation_kept(old(self), p));
                let c = old(self).threads@[p].candidate;
                if c != NULL && first.contains(c) {
                    // the participant would have checked in before the
                    // node was retired, and the epoch could not have moved on
                    let j = choose|j: int| 0 <= j < first.len() && first[j] == c;
                    assert(old(self).keeper@[first[j] as int] == from);
                    assert(old(self).retired_at@[first[j] as int] + 3 <= t.current_epoch);
                    assert(false);
                }
                old(self).lemma_candidate_kept(self, p);
            }
            assert forall|p: int| 0 <= p < MAX_THREADS implies #[trigger] self.inv_thread(p) by {
                assert(old(self).inv_thread(p));
                if p != tid {
                    assert forall|i: int|
                        0 <= i < old(self).keeper@.len() && (old(self).keeper@[i] == Keeper::Limbo(
                            p as usize,
                        ) || old(self).keeper@[i] == Keeper::Garbage(p as usize)) implies (
                    #[trigger] self.keeper@[i]) == old(self).keeper@[i] by {
                        if first.contains(i as usize) {
                            let k = choose|k: int| 0 <= k < first.len() && first[k] == i as usize;
                            assert(old(self).keeper@[first[k] as int] == from);
                        }
                    }
                    assert(self.threads@[p] == old(self).threads@[p]);
                    old(self).lemma_thread_untouched(self, p);
                } else {
                    assert forall|b: int| 0 <= b < BUCKETS implies all_at(
                        (#[trigger] u.limbo@[b])@,
                        self.keeper@,
                        from,
                    ) by {
                        if b < 2 {
                            let list = t.limbo@[b + 1]@;
                            assert(all_at(list, old(self).keeper@, from));
                            assert forall|k: int| 0 <= k < list.len() implies self.keeper@[(
                            #[trigger] list[k]) as int] == from by {
                                if first.contains(list[k]) {
                                    let j = choose|j: int|
                                        0 <= j < first.len() && first[j] == list[k];
                                    assert(t.limbo@[0]@[j] != t.limbo@[b + 1]@[k]);
                                }
                            }
                            lemma_all_at_kept(list, old(self).keeper@, from, self.keeper@);
                        }
                    }
                    assert forall|a: int, b: int, j: int, k: int|
                        0 <= a < b < BUCKETS && 0 <= j < u.limbo@[a]@.len() && 0 <= k
                            < u.limbo@[b]@.len() implies #[trigger] u.limbo@[a]@[j]
                        != #[trigger] u.limbo@[b]@[k] by {
                        if b < 2 {
                            assert(t.limbo@[a + 1]@[j] != t.limbo@[b + 1]@[k]);
                        }
                    }
                    assert(all_at(u.garbage@, self.keeper@, to)) by {
                        assert forall|i: int, j: int|
                            0 <= i < t.garbage@.len() && 0 <= j < first.len() implies t.garbage@[i]
                            != first[j] by {
                            assert(old(self).keeper@[t.garbage@[i] as int] == to);
                            assert(old(self).keeper@[first[j] as int] == from);
                        }
                        vstd::seq_lib::lemma_no_dup_in_concat(t.garbage@, first);
                        assert forall|k: int| 0 <= k < u.garbage@.len() implies (
                        #[trigger] u.garbage@[k]) < self.keeper@.len()
                            && self.keeper@[u.garbage@[k] as int] == to by {
                            if k < t.garbage@.len() {
                                assert(u.garbage@[k] == t.garbage@[k]);
                                assert(old(self).keeper@[t.garbage@[k] as int] == to);
                            } else {
                                assert(u.garbage@[k] == first[k - t.garbage@.len()]);
                            }
                        }
                    }
                }
            }
            assert(all_at(self.deferred@, self.keeper@, Keeper::Deferred)) by {
                assert forall|k: int| 0 <= k < self.deferred@.len() implies self.keeper@[(
                #[trigger] self.deferred@[k]) as int] == Keeper::Deferred by {
                    if first.contains(self.deferred@[k]) {
                        let j = choose|j: int| 0 <= j < first.len() && first[j] == self.deferred@[k];
                        assert(old(self).keeper@[first[j] as int] == from);
                    }
                }
                lemma_all_at_kept(
                    old(self).deferred@,
                    old(self).keeper@,
                    Keeper::Deferred,
                    self.keeper@,
                );
            }
            assert(all_at(self.free@, self.keeper@, Keeper::Free)) by {
                assert forall|k: int| 0 <= k < self.free@.len() implies self.keeper@[(
                #[trigger] self.free@[k]) as int] == Keeper::Free by {
                    if first.contains(self.free@[k]) {
                        let j = choose|j: int| 0 <= j < first.len() && first[j] == self.free@[k];
                        assert(old(self).keeper@[first[j] as int] == from);
                    }
                }
                lemma_all_at_kept(old(self).free@, old(self).keeper@, Keeper::Free, self.keeper@);
            }
            assert forall|i: int| 0 <= i < self.keeper@.len() implies ((
            #[trigger] self.keeper@[i]) is Nobody <==> self.arena.states()[i]
                != NodeState::Idle) by {
                assert(old(self).keeper@[i] is Nobody <==> old(self).arena.states()[i]
                    != NodeState::Idle);
                if first.contains(i as usize) {
                    let j = choose|j: int| 0 <= j < first.len() && first[j] == i as usize;
                    assert(old(self).keeper@[first[j] as int] == from);
                }
            }
            assert forall|i: int| 0 <= i < old(self).keeper@.len() implies self.keeper@[i] == old(
                self).keeper@[i] || (old(self).keeper@[i] == Keeper::Limbo(tid) && self.keeper@[i]
                == Keeper::Garbage(tid)) by {
                if first.contains(i as usize) {
                    let j = choose|j: int| 0 <= j < first.len() && first[j] == i as usize;
                    assert(old(self).keeper@[first[j] as int] == from);
                }
            }
        }
    }

    /// Participant `p` is at rest and its limbo is in order: it is not
    /// checked in, none of its buckets names more than one node, and its
    /// youngest bucket is empty unless the global epoch has moved on since
    /// `p` last checked in.
    pub open spec fn orderly_at(&self, p: int) -> bool {
        &&& !self.active(p)
        &&& self.bucket(p, 0).len() <= 1
        &&& self.bucket(p, 1).len() <= 1
        &&& self.bucket(p, 2).len() <= 1
        &&& self.epoch(p) == self.global_epoch() ==> self.bucket(p, 2).len() == 0
    }

    /// Every participant is at rest with its limbo in order. This is how
    /// `new` makes the state and how `register`, `push`, `pop` and
    /// `release` leave it, while the epoch counter has room: in a run of
    /// these operations, in which no participant stays checked in, the
    /// epoch advances with every pop.
    pub open spec fn orderly(&self) -> bool {
        forall|p: int| 0 <= p < MAX_THREADS ==> #[trigger] self.orderly_at(p)
    }

    /// While the state is orderly, no participant holds more nodes in limbo
    /// than it has buckets, however many nodes it has retired.
    pub proof fn lemma_limbo_bounded(&self, p: int)
        requires
            self.orderly(),
            0 <= p < MAX_THREADS,
        ensures
            self.all_limbo(p).len() <= BUCKETS,
    {
        assert(self.orderly_at(p));
    }

    /// In an orderly state every participant that checks in finds every
    /// other participant at rest, so that the epoch moves on with its
    /// check-in while the counter has room.
    pub proof fn lemma_orderly_advances(&self, tid: int)
        requires
            self.orderly(),
            0 <= tid < MAX_THREADS,
        ensures
            self.others_seen(tid, self.global_epoch()),
            self.global_epoch() < usize::MAX ==> self.epoch_after_entry(tid)
                == self.global_epoch() + 1,
    {
        assert forall|p: int| 0 <= p < MAX_THREADS && p != tid && self.active(p) implies self.epoch(
            p,
        ) == self.global_epoch() by {
            assert(self.orderly_at(p));
        }
    }

    /// A participant that finds the global epoch advanced by the number of
    /// buckets, or more, empties its limbo: every node that it had retired
    /// is certified safe.
    pub proof fn lemma_lapped(&self, p: int)
        requires
            self.lag(p) == BUCKETS,
        ensures
            forall|b: int|
                0 <= b < BUCKETS ==> #[trigger] self.aged_bucket(p, b, self.lag(p)) == Seq::<
                    usize,
                >::empty(),
            self.drained(p, self.lag(p)) == self.all_limbo(p),
    {
        assert(self.drained(p, 0) =~= Seq::<usize>::empty());
        assert(self.drained(p, 1) =~= self.bucket(p, 0));
        assert(self.drained(p, 2) =~= self.bucket(p, 0) + self.bucket(p, 1));
        assert(self.drained(p, 3) =~= self.all_limbo(p));
    }

    /// How many times participant `p` will find the global epoch advanced
    /// when it next checks in, counted up to the number of buckets.
    pub open spec fn lag(&self, p: int) -> int {
        if self.global_epoch() - self.epoch(p) < BUCKETS {
            self.global_epoch() - self.epoch(p)
        } else {
            BUCKETS as int
        }
    }

    /// Checks participant `tid` in and ages its limbo buckets by as many
    /// places as the global epoch has advanced since `tid` last checked in:
    /// the buckets that fall off the old end are certified safe and join
    /// the garbage of `tid`.
    pub fn mark_use(&mut self, tid: usize)
        requires
            old(self).wf(),
            tid < MAX_THREADS,
        ensures
            final(self).wf(),
            final(self)@ == old(self)@,
            final(self).top_node() == old(self).top_node(),
            final(self).node_count() == old(self).node_count(),
            final(self).same_links(old(self)),
            final(self).participants() == old(self).participants(),
            final(self).deferred() == old(self).deferred(),
            final(self).spare() == old(self).spare(),
            final(self).same_threads_but(old(self), tid as int),
            final(self).active(tid as int),
            final(self).candidate(tid as int) == NULL,
            final(self).epoch(tid as int) == old(self).global_epoch(),
            final(self).global_epoch() == old(self).epoch_after_entry(tid as int),
            final(self).garbage(tid as int) == old(self).garbage(tid as int) + old(self).drained(
                tid as int,
                old(self).lag(tid as int),
            ),
            forall|b: int|
                0 <= b < BUCKETS ==> final(self).bucket(tid as int, b) == old(self).aged_bucket(
                    tid as int,
                    b,
                    old(self).lag(tid as int),
                ),
            forall|i: int|
                0 <= i < old(self).node_count() ==> final(self).retired_at(i) == old(
                    self).retired_at(i) && (final(self).keeper(i) == old(self).keeper(i) || (old(
                    self).keeper(i) == Keeper::Limbo(tid) && final(self).keeper(i)
                    == Keeper::Garbage(tid) && old(self).retired_at(i) + 3 <= final(self).epoch(
                    tid as int,
                ))),
    {
        proof {
            assert(old(self).inv_stamps(tid as int, 0));
            assert(old(self).inv_thread(tid as int));
            old(self).arena.lemma_shape();
        }
        let (prev, next) = self.start_shared_section(tid);
        let diff: usize = if next - prev < BUCKETS {
            next - prev
        } else {
            BUCKETS
        };
        let ghost entered = *self;
        let mut done: usize = 0;
        proof {
            assert(self.garbage(tid as int) =~= old(self).garbage(tid as int) + old(self).drained(
                tid as int,
                0,
            ));
            assert(self.keeper@ == old(self).keeper@ && self.retired_at@ == old(
                self).retired_at@) by {
                assert forall|i: int| 0 <= i < self.keeper@.len() implies self.keeper@[i] == old(
                    self).keeper@[i] && self.retired_at@[i] == old(self).retired_at@[i] by {
                    assert(self.keeper(i) == old(self).keeper(i));
                    assert(self.retired_at(i) == old(self).retired_at(i));
                }
                assert(self.keeper@ =~= old(self).keeper@);
                assert(self.retired_at@ =~= old(self).retired_at@);
            }
            assert forall|b: int| 0 <= b < BUCKETS implies (
            #[trigger] self.threads@[tid as int].limbo@[b])@ == old(
                self).threads@[tid as int].limbo@[b]@ by {
                assert(self.bucket(tid as int, b) == old(self).bucket(tid as int, b));
            }
            assert(self.inv_thread(tid as int));
            old(self).lemma_stamps_kept(self, tid as int, 0, diff as int);
        }
        while done < diff
            invariant
                tid < MAX_THREADS,
                done <= diff <= BUCKETS,
                self.inv(),
                self.arena == entered.arena,
                self.thread_counter == entered.thread_counter,
                self.global_epoch == entered.global_epoch,
                self.deferred@ == entered.deferred@,
                self.free@ == entered.free@,
                self.same_threads_but(&entered, tid as int),
                self.epoch(tid as int) == entered.epoch(tid as int),
                self.active(tid as int) == entered.active(tid as int),
                self.candidate(tid as int) == NULL,
                self.retired_at == entered.retired_at,
                self.inv_stamps(tid as int, diff - done),
                self.keeper@.len() == entered.keeper@.len(),
                entered.same_buckets(old(self), tid as int),
                self.garbage(tid as int) == old(self).garbage(tid as int) + old(self).drained(
                    tid as int,
                    done as int,
                ),
                forall|b: int|
                    0 <= b < BUCKETS ==> self.bucket(tid as int, b) == old(self).aged_bucket(
                        tid as int,
                        b,
                        done as int,
                    ),
                forall|i: int|
                    0 <= i < entered.keeper@.len() ==> self.keeper@[i] == entered.keeper@[i] || (
                    entered.keeper@[i] == Keeper::Limbo(tid) && self.keeper@[i] == Keeper::Garbage(
                        tid,
                    ) && entered.retired_at@[i] + 3 <= entered.epoch(tid as int)),
            decreases diff - done,
        {
            let ghost before = *self;
            self.age(tid, Ghost(diff - done));
            proof {
                assert(self.candidate(tid as int) == before.candidate(tid as int));
            }
            proof {
                assert(self.garbage(tid as int) =~= old(self).garbage(tid as int) + old(
                    self).drained(tid as int, done + 1)) by {
                    assert(before.bucket(tid as int, 0) == old(self).aged_bucket(
                        tid as int,
                        0,
                        done as int,
                    ));
                }
                assert forall|b: int| 0 <= b < BUCKETS implies self.bucket(tid as int, b) == old(
                    self).aged_bucket(tid as int, b, done + 1) by {
                    if b + 1 < BUCKETS {
                        assert(before.bucket(tid as int, b + 1) == old(self).aged_bucket(
                            tid as int,
                            b + 1,
                            done as int,
                        ));
                    }
                }
                assert forall|p: int|
                    0 <= p < MAX_THREADS && p != tid implies #[trigger] self.same_thread(
                    &entered,
                    p,
                ) by {
                    assert(before.same_thread(&entered, p));
                    assert(self.same_thread(&before, p));
                }
            }
            done = done + 1;
        }
        proof {
            old(self).arena.lemma_shape();
            assert forall|i: int| 0 <= i < self.node_count() implies #[trigger] self.successor_of(
                i,
            ) == old(self).successor_of(i) by {
                assert(entered.successor_of(i) == old(self).successor_of(i));
            }
            assert forall|i: int| 0 <= i < self.keeper@.len() implies (
            #[trigger] self.arena.states()[i]) != NodeState::Held by {
                assert(entered.arena.states()[i] != NodeState::Held);
            }
            assert forall|p: int|
                0 <= p < MAX_THREADS && p != tid implies #[trigger] self.same_thread(
                old(self),
                p,
            ) by {
                assert(entered.same_thread(old(self), p));
                assert(self.same_thread(&entered, p));
            }
        }
    }

    /// Puts node `idx`, which participant `tid` has just removed from the
    /// stack and emptied, into the youngest limbo bucket of `tid`, stamped
    /// with the epoch that `tid` has seen, and checks `tid` out.
    fn defer(&mut self, tid: usize, idx: usize)
        requires
            old(self).inv(),
            tid < MAX_THREADS,
            old(self).active(tid as int),
            idx < old(self).arena.node_count(),
            old(self).arena.states()[idx as int] == NodeState::Held,
            old(self).arena.payloads()[idx as int] is None,
        ensures
            final(self).inv(),
            final(self).arena@ == old(self).arena@,
            final(self).arena.top_node() == old(self).arena.top_node(),
            final(self).arena.node_count() == old(self).arena.node_count(),
            final(self).arena.states() == old(self).arena.states().update(
                idx as int,
                NodeState::Idle,
            ),
            final(self).arena.successors() == old(self).arena.successors(),
            final(self).keeper@ == old(self).keeper@.update(idx as int, Keeper::Limbo(tid)),
            final(self).retired_at@ == old(self).retired_at@.update(
                idx as int,
                old(self).epoch(tid as int),
            ),
            final(self).thread_counter == old(self).thread_counter,
            final(self).global_epoch == old(self).global_epoch,
            final(self).deferred@ == old(self).deferred@,
            final(self).free@ == old(self).free@,
            final(self).same_threads_but(old(self), tid as int),
            final(self).epoch(tid as int) == old(self).epoch(tid as int),
            !final(self).active(tid as int),
            final(self).candidate(tid as int) == NULL,
            final(self).garbage(tid as int) == old(self).garbage(tid as int),
            final(self).bucket(tid as int, 0) == old(self).bucket(tid as int, 0),
            final(self).bucket(tid as int, 1) == old(self).bucket(tid as int, 1),
            final(self).bucket(tid as int, 2) == old(self).bucket(tid as int, 2).push(idx),
    {
        proof {
            assert(old(self).inv_thread(tid as int));
            old(self).arena.lemma_shape();
            old(self).lemma_epochs_ok();
        }
        let ghost stamp = self.threads@[tid as int].current_epoch;
        self.threads[tid].limbo[BUCKETS - 1].push(idx);
        self.arena.retire(idx);
        proof {
            let to = Keeper::Limbo(tid);
            self.keeper@ = self.keeper@.update(idx as int, to);
            self.retired_at@ = self.retired_at@.update(idx as int, stamp);
            self.arena.lemma_shape();
            assert(old(self).keeper@[idx as int] is Nobody);
            assert(self.same_watch(old(self))) by {
                assert forall|p: int| 0 <= p < MAX_THREADS implies {
                    &&& (#[trigger] self.threads@[p]).current_epoch == old(
                        self).threads@[p].current_epoch
                    &&& self.threads@[p].candidate == old(self).threads@[p].candidate
                    &&& self.threads@[p].successor == old(self).threads@[p].successor
                    &&& self.threads@[p].is_active == old(self).threads@[p].is_active
                } by {
                    if p != tid {
                        assert(self.threads@[p] == old(self).threads@[p]);
                    }
                }
            }
            old(self).lemma_observations_same(self);
            assert forall|p: int| 0 <= p < MAX_THREADS implies #[trigger] self.inv_thread(p) by {
                assert(old(self).inv_thread(p));
                assert(self.threads@[p].current_epoch == old(self).threads@[p].current_epoch);
                assert(self.threads@[p].is_active == old(self).threads@[p].is_active);
                if p != tid {
                    assert(self.threads@[p] == old(self).threads@[p]);
                    old(self).lemma_thread_untouched(self, p);
                } else {
                    let t = old(self).threads@[p];
                    let u = self.threads@[p];
                    assert(u.limbo@[0]@ == t.limbo@[0]@);
                    assert(u.limbo@[1]@ == t.limbo@[1]@);
                    assert(u.limbo@[2]@ == t.limbo@[2]@.push(idx));
                    assert forall|b: int| 0 <= b < BUCKETS implies all_at(
                        (#[trigger] u.limbo@[b])@,
                        self.keeper@,
                        to,
                    ) by {
                        assert(all_at(t.limbo@[b]@, old(self).keeper@, to));
                        if b == 2 {
                            lemma_all_at_push(t.limbo@[b]@, old(self).keeper@, to, idx);
                        } else {
                            lemma_all_at_elsewhere(
                                t.limbo@[b]@,
                                old(self).keeper@,
                                to,
                                idx as int,
                                to,
                            );
                        }
                    }
                    assert forall|a: int, b: int, j: int, k: int|
                        0 <= a < b < BUCKETS && 0 <= j < u.limbo@[a]@.len() && 0 <= k
                            < u.limbo@[b]@.len() implies #[trigger] u.limbo@[a]@[j]
                        != #[trigger] u.limbo@[b]@[k] by {
                        assert(all_at(t.limbo@[a]@, old(self).keeper@, to));
                        assert(old(self).keeper@[t.limbo@[a]@[j] as int] == to);
                        if b == 2 && k == t.limbo@[2]@.len() {
                        } else {
                            assert(t.limbo@[a]@[j] != t.limbo@[b]@[k]);
                        }
                    }
                    lemma_all_at_elsewhere(
                        t.garbage@,
                        old(self).keeper@,
                        Keeper::Garbage(p as usize),
                        idx as int,
                        to,
                    );
                }
            }
            assert forall|p: int| 0 <= p < MAX_THREADS implies #[trigger] self.inv_stamps(p, 0) by {
                assert(old(self).inv_stamps(p, 0));
                assert(old(self).inv_thread(p));
                if p != tid {
                    assert(self.threads@[p] == old(self).threads@[p]);
                    old(self).lemma_stamps_kept(self, p, 0, 0);
                } else {
                    let t = old(self).threads@[p];
                    let u = self.threads@[p];
                    assert forall|b: int, k: int|
                        0 <= b < BUCKETS && 0 <= k < u.limbo@[b]@.len() implies self.retired_at@[(
                    #[trigger] u.limbo@[b]@[k]) as int] + (2 - b) + 0 <= u.current_epoch by {
                        if b == 2 && k == t.limbo@[2]@.len() {
                        } else {
                            assert(all_at(t.limbo@[b]@, old(self).keeper@, to));
                            assert(old(self).keeper@[t.limbo@[b]@[k] as int] == to);
                            assert(old(self).retired_at@[t.limbo@[b]@[k] as int] + (2 - b) + 0
                                <= t.current_epoch);
                        }
                    }
                }
            }
            assert forall|p: int| 0 <= p < MAX_THREADS implies #[trigger] self.inv_candidate(p) by {
                assert(old(self).inv_candidate(p));
                assert(old(self).inv_thread(p));
                assert(self.observation_kept(old(self), p));
                if old(self).threads@[p].candidate == idx {
                    // the participant checked in no later than one epoch
                    // after the epoch with which the node is stamped
                } else {
                    old(self).lemma_candidate_kept(self, p);
                }
            }
            lemma_all_at_elsewhere(
                old(self).deferred@,
                old(self).keeper@,
                Keeper::Deferred,
                idx as int,
                to,
            );
            lemma_all_at_elsewhere(
                old(self).free@,
                old(self).keeper@,
                Keeper::Free,
                idx as int,
                to,
            );
        }
        let ghost put = *self;
        self.check_out(tid);
        proof {
            assert forall|p: int|
                0 <= p < MAX_THREADS && p != tid implies #[trigger] self.same_thread(
                old(self),
                p,
            ) by {
                assert(put.threads@[p] == old(self).threads@[p]);
                assert(self.same_thread(&put, p));
            }
            assert(self.same_lists(&put));
        }
    }

    /// Participant `tid` observes the node on top of the stack and reads
    /// that node's successor, provided that it has checked in. Until `tid`
    /// checks in again or out, the node is neither certified safe nor
    /// reused. A participant that has not checked in observes nothing.
    pub fn observe(&mut self, tid: usize) -> (r: Option<usize>)
        requires
            old(self).wf(),
            tid < MAX_THREADS,
        ensures
            final(self).wf(),
            final(self).same_stack(old(self)),
            final(self).participants() == old(self).participants(),
            final(self).global_epoch() == old(self).global_epoch(),
            final(self).same_threads_but(old(self), tid as int),
            final(self).epoch(tid as int) == old(self).epoch(tid as int),
            final(self).active(tid as int) == old(self).active(tid as int),
            final(self).garbage(tid as int) == old(self).garbage(tid as int),
            final(self).same_buckets(old(self), tid as int),
            final(self).candidate(tid as int) == if old(self).active(tid as int) {
                old(self).top_node()
            } else {
                old(self).candidate(tid as int)
            },
            old(self).active(tid as int) && old(self).top_node() != NULL ==> final(
                self).read_successor(tid as int) == old(self).successor_of(
                old(self).top_node() as int,
            ),
            r == if old(self).top_node() == NULL || !old(self).active(tid as int) {
                None
            } else {
                Some(old(self).top_node())
            },
    {
        if !self.threads[tid].is_active {
            proof {
                assert forall|p: int| 0 <= p < MAX_THREADS implies #[trigger] self.same_thread(
                    old(self),
                    p,
                ) by {
                    assert forall|b: int| 0 <= b < BUCKETS implies #[trigger] self.bucket(p, b)
                        == old(self).bucket(p, b) by {}
                }
                assert(self.same_thread(old(self), tid as int));
            }
            return None;
        }
        proof {
            old(self).arena.lemma_top();
            old(self).arena.lemma_shape();
            old(self).lemma_epochs_ok();
        }
        let top = self.arena.top();
        self.threads[tid].candidate = top;
        if top != NULL {
            let next = self.arena.next(top);
            self.threads[tid].successor = next;
        }
        proof {
            assert forall|p: int| 0 <= p < MAX_THREADS implies {
                &&& (#[trigger] self.threads@[p]).current_epoch == old(
                    self).threads@[p].current_epoch
                &&& self.threads@[p].is_active == old(self).threads@[p].is_active
                &&& self.threads@[p].garbage@ == old(self).threads@[p].garbage@
                &&& self.threads@[p].limbo@ == old(self).threads@[p].limbo@
            } by {
                if p != tid {
                    assert(self.threads@[p] == old(self).threads@[p]);
                }
            }
            assert forall|p: int| 0 <= p < MAX_THREADS implies #[trigger] self.inv_thread(p) by {
                assert(old(self).inv_thread(p));
                old(self).lemma_thread_untouched(self, p);
            }
            assert forall|p: int| 0 <= p < MAX_THREADS implies #[trigger] self.inv_stamps(p, 0) by {
                assert(old(self).inv_stamps(p, 0));
                assert(old(self).inv_thread(p));
                old(self).lemma_stamps_kept(self, p, 0, 0);
            }
            assert forall|p: int| 0 <= p < MAX_THREADS implies #[trigger] self.inv_candidate(p) by {
                assert(old(self).inv_candidate(p));
                if p != tid {
                    assert(self.threads@[p] == old(self).threads@[p]);
                }
            }
            old(self).lemma_settled(self);
            assert forall|p: int|
                0 <= p < MAX_THREADS && p != tid implies #[trigger] self.same_thread(
                old(self),
                p,
            ) by {
                assert(self.threads@[p] == old(self).threads@[p]);
            }
        }
        if top == NULL {
            None
        } else {
            Some(top)
        }
    }

    /// What a participant has observed is a node that it may still read:
    /// the participant is checked in, and the node is neither garbage nor
    /// spare, so that it was not reused since it was observed. So it still
    /// points at the successor that the participant read from it, and a
    /// compare-and-swap that finds the node on top puts the right node in
    /// its place.
    pub proof fn lemma_observed(&self, p: int)
        requires
            self.wf(),
            0 <= p < MAX_THREADS,
            self.candidate(p) != NULL,
        ensures
            self.active(p),
            self.candidate(p) < self.node_count(),
            !(self.keeper(self.candidate(p) as int) is Garbage),
            !(self.keeper(self.candidate(p) as int) is Free),
            self.read_successor(p) == self.successor_of(self.candidate(p) as int),
            self.keeper(self.candidate(p) as int) is Limbo ==> self.retired_at(
                self.candidate(p) as int,
            ) + 1 >= self.epoch(p),
    {
        assert(self.inv_candidate(p));
    }

    /// When a node that was retired at epoch `stamp` is certified safe by
    /// participant `p`, which has seen an epoch at least three later, every
    /// participant that is checked in has checked in after the node was
    /// retired: none of them can have observed the node while it was linked.
    pub proof fn lemma_readers_gone(&self, p: int, q: int, stamp: int)
        requires
            self.wf(),
            0 <= p < MAX_THREADS,
            0 <= q < MAX_THREADS,
            stamp + 3 <= self.epoch(p),
            self.active(q),
        ensures
            self.epoch(q) >= stamp + 2,
    {
        assert(self.inv_thread(p));
        assert(self.inv_thread(q));
    }

    /// A node in limbo bucket `b` of participant `p` was retired at least
    /// `2 - b` epochs before the epoch that `p` has seen.
    pub proof fn lemma_limbo_age(&self, p: int, b: int, k: int)
        requires
            self.wf(),
            0 <= p < MAX_THREADS,
            0 <= b < BUCKETS,
            0 <= k < self.bucket(p, b).len(),
        ensures
            self.bucket(p, b)[k] < self.node_count(),
            self.keeper(self.bucket(p, b)[k] as int) == Keeper::Limbo(p as usize),
            self.retired_at(self.bucket(p, b)[k] as int) + (2 - b) <= self.epoch(p),
    {
        assert(self.inv_stamps(p, 0));
        assert(self.inv_thread(p));
        let t = self.threads@[p];
        assert(all_at(t.limbo@[b]@, self.keeper@, Keeper::Limbo(p as usize)));
        assert(self.retired_at@[t.limbo@[b]@[k] as int] + (2 - b) + 0 <= t.current_epoch);
    }

    /// Compare-and-swap of the top, from the node that participant `tid`
    /// has observed to the successor that `tid` read from it. It succeeds
    /// exactly when the observed node is still on top: the payload is then
    /// handed out, the node goes into the youngest limbo bucket of `tid`,
    /// and `tid` checks out. Otherwise nothing changes.
    pub fn unlink(&mut self, tid: usize) -> (r: Option<T>)
        requires
            old(self).wf(),
            tid < MAX_THREADS,
        ensures
            final(self).wf(),
            final(self).node_count() == old(self).node_count(),
            final(self).same_links(old(self)),
            final(self).participants() == old(self).participants(),
            final(self).global_epoch() == old(self).global_epoch(),
            final(self).deferred() == old(self).deferred(),
            final(self).spare() == old(self).spare(),
            final(self).same_threads_but(old(self), tid as int),
            final(self).epoch(tid as int) == old(self).epoch(tid as int),
            final(self).garbage(tid as int) == old(self).garbage(tid as int),
            final(self).bucket(tid as int, 0) == old(self).bucket(tid as int, 0),
            final(self).bucket(tid as int, 1) == old(self).bucket(tid as int, 1),
            old(self).candidate(tid as int) == NULL || old(self).candidate(tid as int) != old(
                self).top_node() ==> {
                &&& r is None
                &&& final(self).same_stack(old(self))
                &&& final(self).same_thread(old(self), tid as int)
            },
            old(self).candidate(tid as int) != NULL && old(self).candidate(tid as int) == old(
                self).top_node() ==> {
                &&& old(self)@.len() > 0
                &&& r == Some(old(self)@.last())
                &&& final(self)@ == old(self)@.drop_last()
                &&& final(self).top_node() == old(self).successor_of(old(self).top_node() as int)
                &&& !final(self).active(tid as int)
                &&& final(self).candidate(tid as int) == NULL
                &&& final(self).bucket(tid as int, 2) == old(self).bucket(tid as int, 2).push(
                    old(self).top_node(),
                )
                &&& final(self).keeper(old(self).top_node() as int) == Keeper::Limbo(tid)
                &&& final(self).retired_at(old(self).top_node() as int) == old(self).epoch(
                    tid as int,
                )
                &&& forall|i: int|
                    0 <= i < old(self).node_count() && i != old(self).top_node() ==> final(
                        self).keeper(i) == old(self).keeper(i) && final(self).retired_at(i) == old(
                        self).retired_at(i)
            },
    {
        let candidate = self.threads[tid].candidate;
        if candidate == NULL || self.arena.top() != candidate {
            proof {
                assert forall|b: int| 0 <= b < BUCKETS implies #[trigger] self.bucket(
                    tid as int,
                    b,
                ) == old(self).bucket(tid as int, b) by {}
                assert forall|p: int|
                    0 <= p < MAX_THREADS && p != tid implies #[trigger] self.same_thread(
                    old(self),
                    p,
                ) by {
                    assert forall|b: int| 0 <= b < BUCKETS implies #[trigger] self.bucket(p, b)
                        == old(self).bucket(p, b) by {}
                }
            }
            return None;
        }
        proof {
            assert(old(self).inv_candidate(tid as int));
            old(self).arena.lemma_top();
            old(self).arena.lemma_shape();
            old(self).lemma_epochs_ok();
        }
        let next = self.threads[tid].successor;
        let unlinked = self.arena.unlink(candidate, next);
        let data = self.arena.take(candidate);
        proof {
            self.arena.lemma_shape();
            assert(self.same_lists(old(self))) by {
                assert(self.threads@ == old(self).threads@);
            }
            assert(self.same_watch(old(self)));
            old(self).lemma_observations_same(self);
            old(self).lemma_lists_kept(self);
        }
        let ghost taken = *self;
        self.defer(tid, candidate);
        proof {
            self.arena.lemma_shape();
            assert forall|i: int| 0 <= i < self.keeper@.len() implies (
            #[trigger] self.arena.states()[i]) != NodeState::Held by {
                if i != candidate {
                    assert(old(self).arena.states()[i] != NodeState::Held);
                }
            }
            assert forall|p: int|
                0 <= p < MAX_THREADS && p != tid implies #[trigger] self.same_thread(
                old(self),
                p,
            ) by {
                assert(taken.threads@[p] == old(self).threads@[p]);
                assert(taken.same_thread(old(self), p)) by {
                    assert forall|b: int| 0 <= b < BUCKETS implies #[trigger] taken.bucket(p, b)
                        == old(self).bucket(p, b) by {}
                }
                assert(self.same_thread(&taken, p));
            }
        }
        data
    }

    /// Pops for participant `tid`: it checks in, which ages its limbo
    /// buckets, and observes the top of the stack; if the stack holds a
    /// payload, the top node is unlinked, its payload comes out, the node
    /// goes into the youngest bucket of `tid`. Whatever it finds, `tid` is
    /// checked out when the pop returns: a participant is checked in for
    /// the length of its attempt only, so that one that rests does not
    /// hold the epoch back.
    pub fn pop(&mut self, tid: usize) -> (r: Option<T>)
        requires
            old(self).wf(),
            tid < MAX_THREADS,
        ensures
            final(self).wf(),
            final(self).node_count() == old(self).node_count(),
            final(self).same_links(old(self)),
            final(self).participants() == old(self).participants(),
            final(self).deferred() == old(self).deferred(),
            final(self).spare() == old(self).spare(),
            final(self).same_threads_but(old(self), tid as int),
            final(self).epoch(tid as int) == old(self).global_epoch(),
            final(self).global_epoch() == old(self).epoch_after_entry(tid as int),
            final(self).candidate(tid as int) == NULL,
            !final(self).active(tid as int),
            old(self).orderly() && old(self).global_epoch() < usize::MAX ==> final(self).orderly(),
            r == top_of(old(self)@),
            final(self)@ == without_top(old(self)@),
            final(self).garbage(tid as int) == old(self).garbage(tid as int) + old(self).drained(
                tid as int,
                old(self).lag(tid as int),
            ),
            final(self).bucket(tid as int, 0) == old(self).aged_bucket(
                tid as int,
                0,
                old(self).lag(tid as int),
            ),
            final(self).bucket(tid as int, 1) == old(self).aged_bucket(
                tid as int,
                1,
                old(self).lag(tid as int),
            ),
            old(self)@.len() == 0 ==> {
                &&& r is None
                &&& final(self)@ == old(self)@
                &&& final(self).top_node() == old(self).top_node()
                &&& final(self).bucket(tid as int, 2) == old(self).aged_bucket(
                    tid as int,
                    2,
                    old(self).lag(tid as int),
                )
            },
            old(self)@.len() > 0 ==> {
                &&& r == Some(old(self)@.last())
                &&& final(self)@ == old(self)@.drop_last()
                &&& final(self).top_node() == old(self).successor_of(old(self).top_node() as int)
                &&& final(self).bucket(tid as int, 2) == old(self).aged_bucket(
                    tid as int,
                    2,
                    old(self).lag(tid as int),
                ).push(old(self).top_node())
                &&& final(self).keeper(old(self).top_node() as int) == Keeper::Limbo(tid)
                &&& final(self).retired_at(old(self).top_node() as int) == old(
                    self).global_epoch()
            },
            forall|i: int|
                0 <= i < old(self).node_count() && i != old(self).top_node() ==> final(
                    self).retired_at(i) == old(self).retired_at(i) && (final(self).keeper(i) == old(
                    self).keeper(i) || (old(self).keeper(i) == Keeper::Limbo(tid) && final(
                    self).keeper(i) == Keeper::Garbage(tid) && old(self).retired_at(i) + 3
                    <= final(self).epoch(tid as int))),
    {
        proof {
            old(self).arena.lemma_top();
        }
        self.mark_use(tid);
        let ghost marked = *self;
        proof {
            assert(marked.bucket(tid as int, 0) == old(self).aged_bucket(
                tid as int,
                0,
                old(self).lag(tid as int),
            ));
            assert(marked.bucket(tid as int, 1) == old(self).aged_bucket(
                tid as int,
                1,
                old(self).lag(tid as int),
            ));
            assert(marked.bucket(tid as int, 2) == old(self).aged_bucket(
                tid as int,
                2,
                old(self).lag(tid as int),
            ));
        }
        let observed = self.observe(tid);
        let ghost seen = *self;
        proof {
            assert(seen.bucket(tid as int, 0) == marked.bucket(tid as int, 0));
            assert(seen.bucket(tid as int, 1) == marked.bucket(tid as int, 1));
            assert(seen.bucket(tid as int, 2) == marked.bucket(tid as int, 2));
            assert forall|p: int|
                0 <= p < MAX_THREADS && p != tid implies #[trigger] seen.same_thread(
                old(self),
                p,
            ) by {
                assert(marked.same_thread(old(self), p));
                assert(seen.same_thread(&marked, p));
            }
        }
        let r = match observed {
            None => {
                self.end_shared_section(tid);
                proof {
                    assert(self.bucket(tid as int, 0) == seen.bucket(tid as int, 0));
                    assert(self.bucket(tid as int, 1) == seen.bucket(tid as int, 1));
                    assert(self.bucket(tid as int, 2) == seen.bucket(tid as int, 2));
                    assert forall|p: int|
                        0 <= p < MAX_THREADS && p != tid implies #[trigger] self.same_thread(
                        old(self),
                        p,
                    ) by {
                        assert(seen.same_thread(old(self), p));
                        assert(self.same_thread(&seen, p));
                    }
                    assert forall|i: int| 0 <= i < self.node_count() implies #[trigger] self.successor_of(
                        i,
                    ) == old(self).successor_of(i) by {
                        assert(seen.successor_of(i) == marked.successor_of(i));
                        assert(self.successor_of(i) == seen.successor_of(i));
                    }
                }
                None
            },
            Some(_) => {
                let r = self.unlink(tid);
                proof {
                    assert forall|p: int|
                        0 <= p < MAX_THREADS && p != tid implies #[trigger] self.same_thread(
                        old(self),
                        p,
                    ) by {
                        assert(seen.same_thread(old(self), p));
                        assert(self.same_thread(&seen, p));
                    }
                }
                r
            },
        };
        proof {
            if old(self).orderly() && old(self).global_epoch() < usize::MAX {
                old(self).lemma_orderly_advances(tid as int);
                let lag = old(self).lag(tid as int);
                assert forall|p: int| 0 <= p < MAX_THREADS implies #[trigger] self.orderly_at(
                    p,
                ) by {
                    assert(old(self).orderly_at(p));
                    old(self).lemma_epochs(p);
                    if p != tid {
                        assert(self.same_thread(old(self), p));
                        assert(self.bucket(p, 0) == old(self).bucket(p, 0));
                        assert(self.bucket(p, 1) == old(self).bucket(p, 1));
                        assert(self.bucket(p, 2) == old(self).bucket(p, 2));
                    } else {
                        assert(self.bucket(p, 0) == old(self).aged_bucket(p, 0, lag));
                        assert(self.bucket(p, 1) == old(self).aged_bucket(p, 1, lag));
                        assert(old(self).aged_bucket(p, 2, lag).len() == 0);
                    }
                }
            }
        }
        r
    }

    /// The keepers once participant `tid` has handed its limbo buckets to
    /// the deferred list and its garbage to the spare list.
    closed spec fn keepers_after_release(&self, tid: int) -> Seq<Keeper> {
        Seq::new(
            self.keeper@.len(),
            |i: int|
                match self.keeper@[i] {
                    Keeper::Limbo(p) => if p == tid {
                        Keeper::Deferred
                    } else {
                        self.keeper@[i]
                    },
                    Keeper::Garbage(p) => if p == tid {
                        Keeper::Free
                    } else {
                        self.keeper@[i]
                    },
                    _ => self.keeper@[i],
                },
        )
    }

    /// The nodes in the limbo buckets of participant `p`, oldest bucket first.
    pub open spec fn all_limbo(&self, p: int) -> Seq<usize> {
        self.bucket(p, 0) + self.bucket(p, 1) + self.bucket(p, 2)
    }

    /// Handing the limbo buckets of `tid` to the deferred list and its
    /// garbage to the spare list keeps the state consistent.
    proof fn lemma_released(&self, after: &Self, tid: int)
        requires
            self.inv(),
            0 <= tid < MAX_THREADS,
            after.arena == self.arena,
            after.thread_counter == self.thread_counter,
            after.global_epoch == self.global_epoch,
            after.threads@.len() == self.threads@.len(),
            forall|p: int|
                0 <= p < MAX_THREADS && p != tid
                    ==> #[trigger] after.threads@[p] == self.threads@[p],
            after.threads@[tid].current_epoch == self.threads@[tid].current_epoch,
            after.threads@[tid].is_active == self.threads@[tid].is_active,
            after.threads@[tid].candidate == self.threads@[tid].candidate,
            after.threads@[tid].successor == self.threads@[tid].successor,
            after.retired_at == self.retired_at,
            after.threads@[tid].limbo@.len() == BUCKETS,
            forall|b: int|
                0 <= b < BUCKETS ==> (#[trigger] after.threads@[tid].limbo@[b])@ == Seq::<
                    usize,
                >::empty(),
            after.threads@[tid].garbage@ == Seq::<usize>::empty(),
            after.deferred@ == self.deferred@ + self.threads@[tid].limbo@[0]@
                + self.threads@[tid].limbo@[1]@ + self.threads@[tid].limbo@[2]@,
            after.free@ == self.free@ + self.threads@[tid].garbage@,
            after.keeper@ == self.keepers_after_release(tid),
        ensures
            after.inv(),
    {
        let t = self.threads@[tid];
        let b0 = t.limbo@[0]@;
        let b1 = t.limbo@[1]@;
        let b2 = t.limbo@[2]@;
        let from = Keeper::Limbo(tid as usize);
        self.arena.lemma_shape();
        self.lemma_epochs_ok();
        assert(self.inv_thread(tid));
        assert(all_at(b0, self.keeper@, from));
        assert(all_at(b1, self.keeper@, from));
        assert(all_at(b2, self.keeper@, from));
        assert(after.same_watch(self));
        self.lemma_observations_same(after);
        assert forall|p: int| 0 <= p < MAX_THREADS implies #[trigger] after.inv_stamps(p, 0) by {
            assert(self.inv_stamps(p, 0));
            assert(self.inv_thread(p));
            if p != tid {
                self.lemma_stamps_kept(after, p, 0, 0);
            } else {
                let u = after.threads@[p];
                assert forall|b: int, k: int|
                    0 <= b < BUCKETS && 0 <= k < u.limbo@[b]@.len() implies after.retired_at@[(
                #[trigger] u.limbo@[b]@[k]) as int] + (2 - b) + 0 <= u.current_epoch by {
                    assert(u.limbo@[b]@ == Seq::<usize>::empty());
                }
            }
        }
        assert forall|p: int| 0 <= p < MAX_THREADS implies #[trigger] after.inv_candidate(p) by {
            assert(self.inv_candidate(p));
            assert(after.observation_kept(self, p));
            self.lemma_candidate_kept(after, p);
        }
        assert forall|p: int| 0 <= p < MAX_THREADS implies #[trigger] after.inv_thread(p) by {
            assert(self.inv_thread(p));
            if p != tid {
                self.lemma_thread_untouched(after, p);
            } else {
                assert forall|b: int| 0 <= b < BUCKETS implies all_at(
                    (#[trigger] after.threads@[p].limbo@[b])@,
                    after.keeper@,
                    from,
                ) by {}
            }
        }
        let d0 = self.deferred@;
        let d1 = d0 + b0;
        let d2 = d1 + b1;
        let d3 = d2 + b2;
        assert(d3.no_duplicates()) by {
            assert forall|i: int, j: int| 0 <= i < d0.len() && 0 <= j < b0.len() implies d0[i]
                != b0[j] by {
                assert(self.keeper@[d0[i] as int] == Keeper::Deferred);
                assert(self.keeper@[b0[j] as int] == from);
            }
            vstd::seq_lib::lemma_no_dup_in_concat(d0, b0);
            assert forall|i: int, j: int| 0 <= i < d1.len() && 0 <= j < b1.len() implies d1[i]
                != b1[j] by {
                assert(self.keeper@[b1[j] as int] == from);
                if i < d0.len() {
                    assert(self.keeper@[d0[i] as int] == Keeper::Deferred);
                } else {
                    assert(t.limbo@[0]@[i - d0.len()] != t.limbo@[1]@[j]);
                }
            }
            vstd::seq_lib::lemma_no_dup_in_concat(d1, b1);
            assert forall|i: int, j: int| 0 <= i < d2.len() && 0 <= j < b2.len() implies d2[i]
                != b2[j] by {
                assert(self.keeper@[b2[j] as int] == from);
                if i < d0.len() {
                    assert(self.keeper@[d0[i] as int] == Keeper::Deferred);
                } else if i < d1.len() {
                    assert(t.limbo@[0]@[i - d0.len()] != t.limbo@[2]@[j]);
                } else {
                    assert(t.limbo@[1]@[i - d1.len()] != t.limbo@[2]@[j]);
                }
            }
            vstd::seq_lib::lemma_no_dup_in_concat(d2, b2);
        }
        assert forall|k: int| 0 <= k < d3.len() implies (#[trigger] d3[k]) < after.keeper@.len()
            && after.keeper@[d3[k] as int] == Keeper::Deferred by {
            if k < d0.len() {
                assert(self.keeper@[d0[k] as int] == Keeper::Deferred);
            } else if k < d1.len() {
                assert(self.keeper@[b0[k - d0.len()] as int] == from);
            } else if k < d2.len() {
                assert(self.keeper@[b1[k - d1.len()] as int] == from);
            } else {
                assert(self.keeper@[b2[k - d2.len()] as int] == from);
            }
        }
        let f0 = self.free@;
        let g = t.garbage@;
        assert(all_at(after.free@, after.keeper@, Keeper::Free)) by {
            assert forall|i: int, j: int| 0 <= i < f0.len() && 0 <= j < g.len() implies f0[i]
                != g[j] by {
                assert(self.keeper@[f0[i] as int] == Keeper::Free);
                assert(self.keeper@[g[j] as int] == Keeper::Garbage(tid as usize));
            }
            vstd::seq_lib::lemma_no_dup_in_concat(f0, g);
            assert forall|k: int| 0 <= k < after.free@.len() implies (#[trigger] after.free@[k])
                < after.keeper@.len() && after.keeper@[after.free@[k] as int] == Keeper::Free by {
                if k < f0.len() {
                    assert(self.keeper@[f0[k] as int] == Keeper::Free);
                } else {
                    assert(self.keeper@[g[k - f0.len()] as int] == Keeper::Garbage(tid as usize));
                }
            }
        }
        assert forall|i: int| 0 <= i < after.keeper@.len() implies ((
        #[trigger] after.keeper@[i]) is Nobody <==> after.arena.states()[i]
            != NodeState::Idle) by {
            assert(self.keeper@[i] is Nobody <==> self.arena.states()[i] != NodeState::Idle);
        }
    }

    /// Participant `tid` departs: it checks in one last time, which ages
    /// its limbo buckets, and checks out; the nodes still in its buckets
    /// join the deferred list, and its garbage becomes spare. Its number
    /// is not given to another participant.
    pub fn release(&mut self, tid: usize)
        requires
            old(self).wf(),
            tid < MAX_THREADS,
        ensures
            final(self).wf(),
            final(self)@ == old(self)@,
            final(self).top_node() == old(self).top_node(),
            final(self).node_count() == old(self).node_count(),
            final(self).same_links(old(self)),
            final(self).participants() == old(self).participants(),
            final(self).same_threads_but(old(self), tid as int),
            !final(self).active(tid as int),
            final(self).epoch(tid as int) == old(self).global_epoch(),
            final(self).global_epoch() == old(self).epoch_after_entry(tid as int),
            final(self).garbage(tid as int) == Seq::<usize>::empty(),
            forall|b: int|
                0 <= b < BUCKETS ==> final(self).bucket(tid as int, b) == Seq::<usize>::empty(),
            final(self).deferred() == old(self).deferred() + old(self).aged_bucket(
                tid as int,
                0,
                old(self).lag(tid as int),
            ) + old(self).aged_bucket(tid as int, 1, old(self).lag(tid as int)) + old(
                self).aged_bucket(tid as int, 2, old(self).lag(tid as int)),
            final(self).spare() == old(self).spare() + (old(self).garbage(tid as int) + old(
                self).drained(tid as int, old(self).lag(tid as int))),
            old(self).orderly() ==> final(self).orderly(),
    {
        self.mark_use(tid);
        let ghost marked = *self;
        self.check_out(tid);
        let ghost out = *self;
        proof {
            assert(out.inv_thread(tid as int));
            assert(out.same_lists(&marked));
            assert(marked.bucket(tid as int, 0) == old(self).aged_bucket(
                tid as int,
                0,
                old(self).lag(tid as int),
            ));
            assert(marked.bucket(tid as int, 1) == old(self).aged_bucket(
                tid as int,
                1,
                old(self).lag(tid as int),
            ));
            assert(marked.bucket(tid as int, 2) == old(self).aged_bucket(
                tid as int,
                2,
                old(self).lag(tid as int),
            ));
        }
        self.deferred.append(&mut self.threads[tid].limbo[0]);
        self.deferred.append(&mut self.threads[tid].limbo[1]);
        self.deferred.append(&mut self.threads[tid].limbo[2]);
        self.free.append(&mut self.threads[tid].garbage);
        proof {
            self.keeper@ = out.keepers_after_release(tid as int);
            out.lemma_released(self, tid as int);
            out.arena.lemma_shape();
            assert forall|i: int| 0 <= i < self.node_count() implies #[trigger] self.successor_of(
                i,
            ) == old(self).successor_of(i) by {
                assert(marked.successor_of(i) == old(self).successor_of(i));
            }
            assert forall|i: int| 0 <= i < self.keeper@.len() implies (
            #[trigger] self.arena.states()[i]) != NodeState::Held by {
                assert(marked.arena.states()[i] != NodeState::Held);
            }
            assert forall|p: int|
                0 <= p < MAX_THREADS && p != tid implies #[trigger] self.same_thread(
                old(self),
                p,
            ) by {
                assert(marked.same_thread(old(self), p));
                assert(out.same_thread(&marked, p));
                assert(self.threads@[p] == out.threads@[p]);
                assert(self.same_thread(&out, p));
            }
            if old(self).orderly() {
                assert forall|p: int| 0 <= p < MAX_THREADS implies #[trigger] self.orderly_at(
                    p,
                ) by {
                    assert(old(self).orderly_at(p));
                    old(self).lemma_epochs(p);
                    if p != tid {
                        assert(self.same_thread(old(self), p));
                        assert(self.bucket(p, 0) == old(self).bucket(p, 0));
                        assert(self.bucket(p, 1) == old(self).bucket(p, 1));
                        assert(self.bucket(p, 2) == old(self).bucket(p, 2));
                    } else {
                        assert(self.bucket(p, 0) == Seq::<usize>::empty());
                        assert(self.bucket(p, 1) == Seq::<usize>::empty());
                        assert(self.bucket(p, 2) == Seq::<usize>::empty());
                    }
                }
            }
        }
    }
}

/// What the lock of a stack guards: a state together with the promise
/// that it is well formed.
pub struct Cell<T> {
    inner: Shared<T>,
}

impl<T> Cell<T> {
    #[verifier::type_invariant]
    spec fn inv(self) -> bool {
        self.inner.wf()
    }

    /// The state that the cell holds.
    pub closed spec fn state(&self) -> Shared<T> {
        self.inner
    }
}

/// The payloads on the stack that a slot holds, bottom first. The slot is
/// what a handle finds under the lock; a vacant slot stands for an empty
/// stack.
pub open spec fn held_view<T>(slot: Option<Cell<T>>) -> Seq<T> {
    match slot {
        Some(c) => c.state()@,
        None => Seq::empty(),
    }
}

/// The node on top of the stack that a slot holds, or `NULL`.
pub open spec fn held_top<T>(slot: Option<Cell<T>>) -> usize {
    match slot {
        Some(c) => c.state().top_node(),
        None => NULL,
    }
}

/// The global epoch of the state that a slot holds.
pub open spec fn held_epoch<T>(slot: Option<Cell<T>>) -> usize {
    match slot {
        Some(c) => c.state().global_epoch(),
        None => 0,
    }
}

/// Whether participant `tid` is checked in in the state that a slot holds.
pub open spec fn held_active<T>(slot: Option<Cell<T>>, tid: int) -> bool {
    match slot {
        Some(c) => c.state().active(tid),
        None => false,
    }
}

/// Number of participants registered in the state that a slot holds.
pub open spec fn held_participants<T>(slot: Option<Cell<T>>) -> nat {
    match slot {
        Some(c) => c.state().participants(),
        None => 0,
    }
}

/// The node that participant `p` has observed in the state that a slot
/// holds, or `NULL`.
pub open spec fn held_candidate<T>(slot: Option<Cell<T>>, p: int) -> usize {
    match slot {
        Some(c) => c.state().candidate(p),
        None => NULL,
    }
}

/// The epoch that participant `p` has seen in the state that a slot holds.
pub open spec fn held_seen<T>(slot: Option<Cell<T>>, p: int) -> usize {
    match slot {
        Some(c) => c.state().epoch(p),
        None => 0,
    }
}

/// Every participant but `tid` is checked in or not, has seen the epoch,
/// and has observed the node, in `after` as in `before`.
pub open spec fn others_kept<T>(after: Option<Cell<T>>, before: Option<Cell<T>>, tid: int) -> bool {
    forall|p: int|
        #![trigger held_active(after, p)]
        #![trigger held_candidate(after, p)]
        #![trigger held_seen(after, p)]
        0 <= p < MAX_THREADS && p != tid ==> held_active(after, p) == held_active(before, p)
            && held_candidate(after, p) == held_candidate(before, p) && held_seen(after, p)
            == held_seen(before, p)
}

/// Takes the state out of a slot; a vacant slot gives an empty stack at
/// epoch zero, with no participant registered or checked in.
fn open<T>(slot: &mut Option<Cell<T>>) -> (inner: Shared<T>)
    ensures
        *final(slot) is None,
        inner.wf(),
        inner@ == held_view(*old(slot)),
        inner.top_node() == held_top(*old(slot)),
        inner.global_epoch() == held_epoch(*old(slot)),
        inner.participants() == held_participants(*old(slot)),
        forall|p: int|
            0 <= p < MAX_THREADS ==> inner.active(p) == held_active(*old(slot), p)
                && inner.candidate(p) == held_candidate(*old(slot), p) && inner.epoch(p)
                == held_seen(*old(slot), p),
        *old(slot) matches Some(c) ==> inner == c.state(),
{
    match slot.take() {
        Some(cell) => {
            proof {
                use_type_invariant(&cell);
            }
            cell.inner
        },
        None => Shared::new(),
    }
}

/// Puts a well-formed state into a slot.
fn close<T>(slot: &mut Option<Cell<T>>, inner: Shared<T>)
    requires
        inner.wf(),
    ensures
        *final(slot) matches Some(d) && d.state() == inner,
{
    *slot = Some(Cell { inner });
}

/// What `Local::push` does with the slot that it finds under the lock:
/// participant `tid` pushes `data` onto the stack held there.
pub fn push_in<T>(slot: &mut Option<Cell<T>>, tid: usize, data: T)
    requires
        tid < MAX_THREADS,
    ensures
        *final(slot) is Some,
        held_view(*final(slot)) == held_view(*old(slot)).push(data),
        held_epoch(*final(slot)) == held_epoch(*old(slot)),
        held_participants(*final(slot)) == held_participants(*old(slot)),
        others_kept(*final(slot), *old(slot), -1),
{
    let mut inner = open(slot);
    let ghost before = inner;
    inner.push(tid, data);
    close(slot, inner);
    proof {
        assert forall|p: int| 0 <= p < MAX_THREADS && p != tid implies inner.active(p)
            == before.active(p) && inner.candidate(p) == before.candidate(p) && inner.epoch(p)
            == before.epoch(p) by {
            assert(inner.same_thread(&before, p));
        }
    }
}

/// The first step of a pop, on the slot found under the lock: participant
/// `tid` checks in, which ages its limbo buckets. The stack held there
/// stays as it is.
pub fn mark_use_in<T>(slot: &mut Option<Cell<T>>, tid: usize)
    requires
        tid < MAX_THREADS,
    ensures
        *final(slot) is Some,
        held_seen(*final(slot), tid as int) == held_epoch(*old(slot)),
        held_candidate(*final(slot), tid as int) == NULL,
        held_active(*final(slot), tid as int),
        held_participants(*final(slot)) == held_participants(*old(slot)),
        others_kept(*final(slot), *old(slot), tid as int),
        held_view(*final(slot)) == held_view(*old(slot)),
        held_top(*final(slot)) == held_top(*old(slot)),
        held_epoch(*old(slot)) <= held_epoch(*final(slot)) <= held_epoch(*old(slot)) + 1,
        *old(slot) matches Some(c) ==> held_epoch(*final(slot)) == c.state().epoch_after_entry(
            tid as int,
        ),
{
    let mut inner = open(slot);
    let ghost before = inner;
    inner.mark_use(tid);
    close(slot, inner);
    proof {
        assert forall|p: int| 0 <= p < MAX_THREADS && p != tid implies inner.active(p)
            == before.active(p) && inner.candidate(p) == before.candidate(p) && inner.epoch(p)
            == before.epoch(p) by {
            assert(inner.same_thread(&before, p));
        }
    }
}

/// The second step of a pop, on the slot found under the lock: participant
/// `tid`, if it is checked in, observes the node on top of the stack held
/// there, and gets it.
pub fn observe_in<T>(slot: &mut Option<Cell<T>>, tid: usize) -> (r: Option<usize>)
    requires
        tid < MAX_THREADS,
    ensures
        *final(slot) is Some,
        held_view(*final(slot)) == held_view(*old(slot)),
        held_top(*final(slot)) == held_top(*old(slot)),
        held_epoch(*final(slot)) == held_epoch(*old(slot)),
        held_active(*final(slot), tid as int) == held_active(*old(slot), tid as int),
        held_seen(*final(slot), tid as int) == held_seen(*old(slot), tid as int),
        held_candidate(*final(slot), tid as int) == if held_active(*old(slot), tid as int) {
            held_top(*old(slot))
        } else {
            held_candidate(*old(slot), tid as int)
        },
        r == if held_top(*old(slot)) == NULL || !held_active(*old(slot), tid as int) {
            None
        } else {
            Some(held_top(*old(slot)))
        },
        r is None <==> held_view(*old(slot)).len() == 0 || !held_active(*old(slot), tid as int),
        held_participants(*final(slot)) == held_participants(*old(slot)),
        others_kept(*final(slot), *old(slot), tid as int),
{
    let mut inner = open(slot);
    let ghost before = inner;
    proof {
        inner.arena.lemma_top();
    }
    let r = inner.observe(tid);
    close(slot, inner);
    proof {
        assert forall|p: int| 0 <= p < MAX_THREADS && p != tid implies inner.active(p)
            == before.active(p) && inner.candidate(p) == before.candidate(p) && inner.epoch(p)
            == before.epoch(p) by {
            assert(inner.same_thread(&before, p));
        }
    }
    r
}

/// Whether the compare-and-swap of participant `tid` succeeds on a slot:
/// the node that `tid` has observed in the state held there is on top of
/// the stack.
pub open spec fn can_unlink<T>(slot: Option<Cell<T>>, tid: int) -> bool {
    held_candidate(slot, tid) != NULL && held_candidate(slot, tid) == held_top(slot)
}

/// The third step of a pop, on the slot found under the lock: the
/// compare-and-swap of participant `tid`. Where it succeeds, the payload
/// on top of the stack held there comes out and `tid` checks out; else
/// nothing changes.
pub fn unlink_in<T>(slot: &mut Option<Cell<T>>, tid: usize) -> (r: Option<T>)
    requires
        tid < MAX_THREADS,
    ensures
        *final(slot) is Some,
        held_epoch(*final(slot)) == held_epoch(*old(slot)),
        can_unlink(*old(slot), tid as int) ==> held_view(*old(slot)).len() > 0 && r == Some(
            held_view(*old(slot)).last(),
        ) && held_view(*final(slot)) == held_view(*old(slot)).drop_last() && !held_active(
            *final(slot),
            tid as int,
        ),
        !can_unlink(*old(slot), tid as int) ==> r is None && held_view(*final(slot)) == held_view(
            *old(slot),
        ) && held_top(*final(slot)) == held_top(*old(slot)) && held_active(
            *final(slot),
            tid as int,
        ) == held_active(*old(slot), tid as int) && held_candidate(*final(slot), tid as int)
            == held_candidate(*old(slot), tid as int),
        held_seen(*final(slot), tid as int) == held_seen(*old(slot), tid as int),
        held_participants(*final(slot)) == held_participants(*old(slot)),
        others_kept(*final(slot), *old(slot), tid as int),
{
    let mut inner = open(slot);
    let ghost before = inner;
    let r = inner.unlink(tid);
    close(slot, inner);
    proof {
        assert forall|p: int| 0 <= p < MAX_THREADS && p != tid implies inner.active(p)
            == before.active(p) && inner.candidate(p) == before.candidate(p) && inner.epoch(p)
            == before.epoch(p) by {
            assert(inner.same_thread(&before, p));
        }
    }
    r
}

/// The last step of a pop that gave up or found the stack empty, on the
/// slot found under the lock: participant `tid` checks out. The stack
/// held there stays as it is, and a vacant slot stays vacant.
pub fn end_shared_section_in<T>(slot: &mut Option<Cell<T>>, tid: usize)
    requires
        tid < MAX_THREADS,
    ensures
        (*final(slot) is Some) == (*old(slot) is Some),
        !held_active(*final(slot), tid as int),
        held_candidate(*final(slot), tid as int) == NULL,
        held_seen(*final(slot), tid as int) == held_seen(*old(slot), tid as int),
        held_view(*final(slot)) == held_view(*old(slot)),
        held_top(*final(slot)) == held_top(*old(slot)),
        held_epoch(*final(slot)) == held_epoch(*old(slot)),
        held_participants(*final(slot)) == held_participants(*old(slot)),
        others_kept(*final(slot), *old(slot), tid as int),
{
    if slot.is_some() {
        let mut inner = open(slot);
        let ghost before = inner;
        inner.end_shared_section(tid);
        close(slot, inner);
        proof {
            assert forall|p: int| 0 <= p < MAX_THREADS && p != tid implies inner.active(p)
                == before.active(p) && inner.candidate(p) == before.candidate(p) && inner.epoch(p)
                == before.epoch(p) by {
                assert(inner.same_thread(&before, p));
            }
        }
    }
}

/// What `Local::len` does with the slot that it finds under the lock: the
/// number of payloads on the stack held there.
pub fn len_in<T>(slot: &Option<Cell<T>>) -> (n: usize)
    ensures
        n == held_view(*slot).len(),
{
    match slot {
        Some(cell) => {
            proof {
                use_type_invariant(cell);
            }
            cell.inner.len()
        },
        None => 0,
    }
}

/// What `Local::try_clone` does with the slot that it finds under the
/// lock: it tests whether the table has a slot left, and registers one
/// more participant if it has; with a full table it registers nobody.
pub fn register_in<T>(slot: &mut Option<Cell<T>>) -> (id: Option<usize>)
    ensures
        *final(slot) is Some,
        held_view(*final(slot)) == held_view(*old(slot)),
        held_epoch(*final(slot)) == held_epoch(*old(slot)),
        held_participants(*old(slot)) < MAX_THREADS ==> id == Some(
            held_participants(*old(slot)) as usize,
        ) && held_participants(*final(slot)) == held_participants(*old(slot)) + 1,
        held_participants(*old(slot)) >= MAX_THREADS ==> id is None && held_participants(
            *final(slot),
        ) == held_participants(*old(slot)),
        others_kept(*final(slot), *old(slot), -1),
{
    let mut inner = open(slot);
    let ghost before = inner;
    let id = if inner.registered() < MAX_THREADS {
        Some(inner.register())
    } else {
        None
    };
    close(slot, inner);
    proof {
        assert forall|p: int| 0 <= p < MAX_THREADS implies inner.active(p) == before.active(p)
            && inner.candidate(p) == before.candidate(p) && inner.epoch(p) == before.epoch(
            p,
        ) by {
            assert(inner.same_thread(&before, p));
        }
    }
    id
}

/// What `Local::release` does with the slot that it finds under the lock:
/// participant `tid` departs from the stack held there, checked out and
/// with empty buckets. A vacant slot stays vacant.
pub fn release_in<T>(slot: &mut Option<Cell<T>>, tid: usize)
    requires
        tid < MAX_THREADS,
    ensures
        (*final(slot) is Some) == (*old(slot) is Some),
        held_view(*final(slot)) == held_view(*old(slot)),
        !held_active(*final(slot), tid as int),
        *final(slot) matches Some(d) ==> d.state().garbage(tid as int) == Seq::<usize>::empty()
            && forall|b: int|
            0 <= b < BUCKETS ==> d.state().bucket(tid as int, b) == Seq::<usize>::empty(),
        held_participants(*final(slot)) == held_participants(*old(slot)),
        others_kept(*final(slot), *old(slot), tid as int),
{
    if slot.is_some() {
        let mut inner = open(slot);
        let ghost before = inner;
        inner.release(tid);
        close(slot, inner);
        proof {
            assert forall|p: int| 0 <= p < MAX_THREADS && p != tid implies inner.active(p)
                == before.active(p) && inner.candidate(p) == before.candidate(p) && inner.epoch(p)
                == before.epoch(p) by {
                assert(inner.same_thread(&before, p));
            }
        }
    }
}

/// A participant's handle on an epoch-based stack. Handles made by
/// `try_clone` share one stack, each under a number of its own. Every step
/// of an operation takes effect under the stack's lock, and the steps of
/// several participants interleave: between the step that observes a node
/// and the step that unlinks it, other participants may pop, retire and
/// advance the epoch.
///
/// The lock holds the state except while a step works on it; a step that
/// finds it vacant starts from an empty stack. What a step does with the
/// slot that it finds under the lock, whatever that slot holds, is said by
/// `push_in`, `mark_use_in`, `observe_in`, `unlink_in`,
/// `end_shared_section_in`, `len_in`, `register_in` and `release_in`; of
/// its own result a handle can only say
/// what holds whatever other handles have done.
#[verifier::reject_recursive_types(T)]
pub struct Local<T> {
    shared: Arc<Mutex<parking_lot::RawMutex, Option<Cell<T>>>>,
    thread_id: usize,
}

impl<T> Local<T> {
    #[verifier::type_invariant]
    spec fn inv(self) -> bool {
        self.thread_id < MAX_THREADS
    }

    /// The number under which this participant is registered.
    pub closed spec fn number(&self) -> usize {
        self.thread_id
    }

    /// This handle and `other` are handles on one and the same stack.
    pub closed spec fn same_stack(&self, other: &Self) -> bool {
        self.shared == other.shared
    }

    /// A fresh stack and its first participant, which has the number 0.
    pub fn new() -> (s: Self)
        ensures
            s.number() == 0,
    {
        let mut slot: Option<Cell<T>> = None;
        let thread_id = match register_in(&mut slot) {
            Some(id) => id,
            None => 0,
        };
        Self { shared: Arc::new(guarded(slot)), thread_id }
    }

    /// Pushes `data` onto the shared stack. The handle stays as it is.
    pub fn push(&mut self, data: T)
        ensures
            *final(self) == *old(self),
    {
        proof {
            use_type_invariant(&*self);
        }
        let mut guard = lock(&self.shared);
        let slot = held(&mut guard);
        push_in(slot, self.thread_id, data);
    }

    /// One step: checks this participant in and ages its limbo buckets.
    fn mark_use(&self) {
        proof {
            use_type_invariant(self);
        }
        let mut guard = lock(&self.shared);
        let slot = held(&mut guard);
        mark_use_in(slot, self.thread_id);
    }

    /// One step: observes the top of the shared stack for this participant.
    fn observe(&self) -> (r: Option<usize>) {
        proof {
            use_type_invariant(self);
        }
        let mut guard = lock(&self.shared);
        let slot = held(&mut guard);
        observe_in(slot, self.thread_id)
    }

    /// One step: the compare-and-swap that unlinks the observed node.
    fn unlink(&self) -> (r: Option<T>) {
        proof {
            use_type_invariant(self);
        }
        let mut guard = lock(&self.shared);
        let slot = held(&mut guard);
        unlink_in(slot, self.thread_id)
    }

    /// One step: checks this participant out.
    fn end_shared_section(&self) {
        proof {
            use_type_invariant(self);
        }
        let mut guard = lock(&self.shared);
        let slot = held(&mut guard);
        end_shared_section_in(slot, self.thread_id);
    }

    /// Pops the payload on top of the shared stack: checks in, then
    /// observes the top node and tries to unlink it, again and again while
    /// other participants get in between. `None` when the stack was found
    /// empty, or after `ATTEMPTS` attempts. The participant is checked out
    /// when the pop returns, whatever it returns: with the unlinking step
    /// that succeeds, or else with a step of its own.
    pub fn pop(&mut self) -> (r: Option<T>)
        ensures
            *final(self) == *old(self),
    {
        self.mark_use();
        let mut left: usize = ATTEMPTS;
        while left > 0
            invariant
                *self == *old(self),
            decreases left,
        {
            if self.observe().is_none() {
                self.end_shared_section();
                return None;
            }
            let r = self.unlink();
            if r.is_some() {
                return r;
            }
            left = left - 1;
        }
        self.end_shared_section();
        None
    }

    /// Number of payloads that the shared stack held when it was asked.
    pub fn len(&self) -> (n: usize) {
        let mut guard = lock(&self.shared);
        let slot = held(&mut guard);
        len_in(slot)
    }

    /// A handle for one more participant of the same stack, or `None` once
    /// the stack has given a slot to `MAX_THREADS` participants: a
    /// participant beyond the last slot is not registered, and no handle
    /// is made for it.
    pub fn try_clone(&self) -> (r: Option<Self>)
        ensures
            r matches Some(h) ==> h.number() < MAX_THREADS && h.same_stack(self),
    {
        let mut guard = lock(&self.shared);
        let slot = held(&mut guard);
        let id = register_in(slot);
        match id {
            Some(thread_id) => Some(Self { shared: share(&self.shared), thread_id }),
            None => None,
        }
    }

    /// Gives the handle up: the participant departs from the shared stack.
    pub fn release(self) {
        proof {
            use_type_invariant(&self);
        }
        let mut guard = lock(&self.shared);
        let slot = held(&mut guard);
        release_in(slot, self.thread_id);
    }
}

} // verus!
