//! Linked stack whose removed nodes are reclaimed by counting: every node
//! counts the participants that have announced that they are about to read
//! it, and a node off the stack is reused only while its count is zero.
//!
//! `StaccInner` is the state machine. Its steps are `push`, `announce`,
//! `unlink`, `retract`, `sweep` and `release`; `pop` is `announce` followed
//! by `unlink`. Every step keeps `StaccInner::wf`, from which follow the
//! rules of the scheme: `lemma_counts` (a node kept for reuse has a count
//! of zero) and `lemma_places` (no node is in two places). `Stacc` is a
//! handle.
use vstd::prelude::*;
use std::sync::Arc;
use parking_lot::lock_api::Mutex;
use crate::sync::{guarded, lock, held, share};
use crate::ATTEMPTS;
use crate::links::{
    top_of, without_top, NULL, Arena, Node, NodeState, all_at, lemma_all_at_elsewhere,
    lemma_all_at_grown, lemma_all_at_drop_last, lemma_all_at_push, lemma_all_at_kept,
    lemma_all_at_absent,
};

verus! {

/// A count after one more announcement; it wraps around like the counter
/// of the machine.
pub open spec fn bumped(c: usize) -> usize {
    if c == usize::MAX {
        0
    } else {
        (c + 1) as usize
    }
}

/// A count after one announcement was retracted; it wraps around like the
/// counter of the machine.
pub open spec fn dropped(c: usize) -> usize {
    if c == 0 {
        usize::MAX
    } else {
        (c - 1) as usize
    }
}

/// In whose keeping a node is while it is off the stack.
pub enum Keeper {
    /// Linked, or in the hands of an operation.
    Nobody,
    /// Retired with a count of zero and kept for reuse by the handle named.
    Local(usize),
    /// Retired while its count was not zero; waits to be checked again.
    Overflow,
    /// Given up by a departed handle; any handle may reuse it.
    Free,
}

/// The shared state of a counting stack: the linked stack, the count of
/// every node, the reuse list of every handle, and the shared lists.
pub struct StaccInner<T> {
    arena: Arena<T>,
    counters: Vec<usize>,
    local_garbage: Vec<Vec<usize>>,
    global_garbage: Vec<usize>,
    free: Vec<usize>,
    keeper: Ghost<Seq<Keeper>>,
}

impl<T> StaccInner<T> {
    /// The payloads on the stack, bottom first.
    pub closed spec fn view(&self) -> Seq<T> {
        self.arena@
    }

    /// Number of nodes in the arena.
    pub closed spec fn node_count(&self) -> nat {
        self.arena.node_count()
    }

    /// The node on top of the stack, or `NULL`.
    pub closed spec fn top_node(&self) -> usize {
        self.arena.top_node()
    }

    /// In whose keeping each node is.
    pub closed spec fn keepers(&self) -> Seq<Keeper> {
        self.keeper@
    }

    /// In whose keeping node `i` is.
    pub open spec fn keeper(&self, i: int) -> Keeper {
        self.keepers()[i]
    }

    /// Node `i` is part of the stack.
    pub closed spec fn on_stack(&self, i: int) -> bool {
        self.arena.states()[i] == NodeState::Linked
    }

    /// The node that node `i` points at.
    pub closed spec fn successor_of(&self, i: int) -> usize {
        self.arena.successors()[i]
    }

    /// The arena has the nodes that it has in `other`, and each of them
    /// points where it points in `other`.
    pub open spec fn same_links(&self, other: &Self) -> bool {
        &&& self.node_count() == other.node_count()
        &&& forall|i: int|
            0 <= i < self.node_count() ==> #[trigger] self.successor_of(i) == other.successor_of(i)
    }

    /// For each node, the number of announcements not yet retracted.
    pub closed spec fn counts(&self) -> Seq<usize> {
        self.counters@
    }

    /// Number of handles registered so far.
    pub closed spec fn handles(&self) -> nat {
        self.local_garbage@.len()
    }

    /// The nodes that handle `h` keeps for reuse.
    pub closed spec fn local(&self, h: int) -> Seq<usize> {
        self.local_garbage@[h]@
    }

    /// The nodes that were retired while their count was not zero.
    pub closed spec fn overflow(&self) -> Seq<usize> {
        self.global_garbage@
    }

    /// The nodes that any handle may reuse.
    pub closed spec fn spare(&self) -> Seq<usize> {
        self.free@
    }

    /// Everything that `wf` asks for, except that an operation may be
    /// under way and hold a node in its hands.
    closed spec fn inv(&self) -> bool {
        &&& self.arena.wf()
        &&& self.keeper@.len() == self.arena.node_count()
        &&& self.counters@.len() == self.arena.node_count()
        &&& forall|i: int|
            0 <= i < self.keeper@.len() ==> ((#[trigger] self.keeper@[i]) is Nobody
                <==> self.arena.states()[i] != NodeState::Idle)
        &&& forall|i: int|
            0 <= i < self.keeper@.len() && ((#[trigger] self.keeper@[i]) is Local
                || self.keeper@[i] is Free) ==> self.counters@[i] == 0
        &&& forall|h: int|
            0 <= h < self.local_garbage@.len() ==> all_at(
                (#[trigger] self.local_garbage@[h])@,
                self.keeper@,
                Keeper::Local(h as usize),
            )
        &&& all_at(self.global_garbage@, self.keeper@, Keeper::Overflow)
        &&& all_at(self.free@, self.keeper@, Keeper::Free)
    }

    /// The state is consistent: the linked nodes form the stack, every
    /// other node is in exactly one keeping and every list names distinct
    /// nodes in the keeping that the list stands for, a node that is kept
    /// for reuse has a count of zero, and no operation is under way.
    pub closed spec fn wf(&self) -> bool {
        &&& self.inv()
        &&& forall|i: int|
            0 <= i < self.keeper@.len() ==> (#[trigger] self.arena.states()[i])
                != NodeState::Held
    }

    /// What the sequences of a well-formed state have in common, and the
    /// rule of reuse: a node kept for reuse has a count of zero.
    pub proof fn lemma_counts(&self)
        requires
            self.wf(),
        ensures
            self.counts().len() == self.node_count(),
            self.top_node() == NULL <==> self@.len() == 0,
            self.top_node() != NULL ==> self.top_node() < self.node_count() && self.keeper(
                self.top_node() as int,
            ) is Nobody,
            forall|i: int|
                0 <= i < self.node_count() && (self.keeper(i) is Local || self.keeper(i) is Free)
                    ==> self.counts()[i] == 0,
    {
        self.arena.lemma_top();
        self.arena.lemma_shape();
    }

    /// Every node is in exactly one place: on the stack, where it holds a
    /// payload and is in nobody's keeping, or in the one list that its
    /// keeper stands for. No list names a node twice, so no node is reused
    /// or given up twice.
    pub proof fn lemma_places(&self, h: int)
        requires
            self.wf(),
            0 <= h < self.handles(),
        ensures
            self.keepers().len() == self.node_count(),
            forall|i: int|
                0 <= i < self.node_count() ==> (self.on_stack(i) <==> #[trigger] self.keeper(i)
                    is Nobody),
            all_at(self.local(h), self.keepers(), Keeper::Local(h as usize)),
            all_at(self.overflow(), self.keepers(), Keeper::Overflow),
            all_at(self.spare(), self.keepers(), Keeper::Free),
    {
        self.arena.lemma_shape();
        assert(all_at(self.local_garbage@[h]@, self.keeper@, Keeper::Local(h as usize)));
        assert forall|i: int| 0 <= i < self.node_count() implies (self.on_stack(i)
            <==> #[trigger] self.keeper(i) is Nobody) by {
            assert(self.keeper@[i] is Nobody <==> self.arena.states()[i] != NodeState::Idle);
            assert(self.arena.states()[i] != NodeState::Held);
        }
    }

    /// The reuse lists of all handles are those of `other`.
    pub open spec fn same_locals(&self, other: &Self) -> bool {
        &&& self.handles() == other.handles()
        &&& forall|h: int| 0 <= h < self.handles() ==> self.local(h) == other.local(h)
    }

    /// The reuse lists of all handles but `id` are those of `other`.
    pub open spec fn same_locals_but(&self, other: &Self, id: int) -> bool {
        &&& self.handles() == other.handles()
        &&& forall|h: int| 0 <= h < self.handles() && h != id ==> self.local(h) == other.local(h)
    }

    /// An empty stack with no handle registered.
    pub fn new() -> (s: Self)
        ensures
            s.wf(),
            s@ == Seq::<T>::empty(),
            s.node_count() == 0,
            s.top_node() == NULL,
            s.handles() == 0,
            s.counts() == Seq::<usize>::empty(),
            s.overflow() == Seq::<usize>::empty(),
            s.spare() == Seq::<usize>::empty(),
    {
        Self {
            arena: Arena::new(),
            counters: Vec::new(),
            local_garbage: Vec::new(),
            global_garbage: Vec::new(),
            free: Vec::new(),
            keeper: Ghost(Seq::empty()),
        }
    }

    /// Registers one more handle, with an empty reuse list, and hands out
    /// its number.
    pub fn register(&mut self) -> (id: usize)
        requires
            old(self).wf(),
        ensures
            final(self).wf(),
            id == old(self).handles(),
            final(self).handles() == old(self).handles() + 1,
            final(self).local(id as int) == Seq::<usize>::empty(),
            forall|h: int|
                0 <= h < old(self).handles() ==> final(self).local(h) == old(self).local(h),
            final(self)@ == old(self)@,
            final(self).top_node() == old(self).top_node(),
            final(self).node_count() == old(self).node_count(),
            final(self).same_links(old(self)),
            final(self).counts() == old(self).counts(),
            final(self).overflow() == old(self).overflow(),
            final(self).spare() == old(self).spare(),
    {
        self.local_garbage.push(Vec::new());
        let n = self.local_garbage.len();
        proof {
            assert forall|h: int| 0 <= h < self.local_garbage@.len() implies all_at(
                (#[trigger] self.local_garbage@[h])@,
                self.keeper@,
                Keeper::Local(h as usize),
            ) by {
                if h < old(self).local_garbage@.len() {
                    assert(self.local_garbage@[h] == old(self).local_garbage@[h]);
                }
            }
        }
        n - 1
    }

    /// The node that a push by handle `h` would link: the node that `h`
    /// kept last, else the spare node given up last, else a new one.
    pub open spec fn fresh_node(&self, h: int) -> usize {
        if 0 <= h < self.handles() && self.local(h).len() > 0 {
            self.local(h).last()
        } else if self.spare().len() > 0 {
            self.spare().last()
        } else {
            self.node_count() as usize
        }
    }

    /// The spare nodes after a push by handle `h`.
    pub open spec fn spare_after_push(&self, h: int) -> Seq<usize> {
        if !(0 <= h < self.handles() && self.local(h).len() > 0) && self.spare().len() > 0 {
            self.spare().drop_last()
        } else {
            self.spare()
        }
    }

    /// Stores `node` in the arena and hands out its index: in the node that
    /// handle `id` kept last, else in the spare node given up last, else in
    /// a new one. The node is in the caller's hands, with a count of zero.
    fn make_node(&mut self, id: usize, node: Node<T>) -> (idx: usize)
        requires
            old(self).inv(),
        ensures
            final(self).inv(),
            idx == old(self).fresh_node(id as int),
            idx < final(self).arena.node_count(),
            final(self).arena.node_count() == if idx < old(self).arena.node_count() {
                old(self).arena.node_count()
            } else {
                old(self).arena.node_count() + 1
            },
            final(self).arena.states() == if idx < old(self).arena.node_count() {
                old(self).arena.states().update(idx as int, NodeState::Held)
            } else {
                old(self).arena.states().push(NodeState::Held)
            },
            final(self).keeper@ == if idx < old(self).arena.node_count() {
                old(self).keeper@.update(idx as int, Keeper::Nobody)
            } else {
                old(self).keeper@.push(Keeper::Nobody)
            },
            final(self).counters@ == if idx < old(self).arena.node_count() {
                old(self).counters@
            } else {
                old(self).counters@.push(0)
            },
            final(self).counters@[idx as int] == 0,
            final(self).arena.payloads()[idx as int] == node.data,
            final(self).arena.successors() == if idx < old(self).arena.node_count() {
                old(self).arena.successors().update(idx as int, node.next)
            } else {
                old(self).arena.successors().push(node.next)
            },
            final(self).arena@ == old(self).arena@,
            final(self).arena.top_node() == old(self).arena.top_node(),
            final(self).global_garbage@ == old(self).global_garbage@,
            final(self).same_locals_but(old(self), id as int),
            id < old(self).handles() ==> final(self).local(id as int) == if old(self).local(
                id as int,
            ).len() > 0 {
                old(self).local(id as int).drop_last()
            } else {
                old(self).local(id as int)
            },
            final(self).spare() == old(self).spare_after_push(id as int),
    {
        proof {
            old(self).arena.lemma_shape();
        }
        let from_local = id < self.local_garbage.len() && self.local_garbage[id].len() > 0;
        let reused = if from_local {
            self.local_garbage[id].pop()
        } else {
            self.free.pop()
        };
        match reused {
            Some(i) => {
                proof {
                    if from_local {
                        let list = old(self).local_garbage@[id as int]@;
                        assert(all_at(list, old(self).keeper@, Keeper::Local(id)));
                        assert(list[list.len() - 1] == i);
                    } else {
                        assert(old(self).free@[old(self).free@.len() - 1] == i);
                    }
                    assert(old(self).keeper@[i as int] == Keeper::Local(id) || old(
                        self).keeper@[i as int] == Keeper::Free);
                    assert(old(self).arena.states()[i as int] == NodeState::Idle);
                }
                self.arena.store(i, node);
                proof {
                    self.keeper@ = self.keeper@.update(i as int, Keeper::Nobody);
                    self.arena.lemma_shape();
                    let to = Keeper::Nobody;
                    assert forall|h: int| 0 <= h < self.local_garbage@.len() implies all_at(
                        (#[trigger] self.local_garbage@[h])@,
                        self.keeper@,
                        Keeper::Local(h as usize),
                    ) by {
                        let list = old(self).local_garbage@[h]@;
                        assert(all_at(list, old(self).keeper@, Keeper::Local(h as usize)));
                        if h == id && from_local {
                            lemma_all_at_drop_last(
                                list,
                                old(self).keeper@,
                                Keeper::Local(h as usize),
                                to,
                            );
                            assert(self.local_garbage@[h]@ =~= list.drop_last());
                        } else {
                            assert(self.local_garbage@[h]@ =~= list);
                            lemma_all_at_elsewhere(
                                list,
                                old(self).keeper@,
                                Keeper::Local(h as usize),
                                i as int,
                                to,
                            );
                        }
                    }
                    if from_local {
                        lemma_all_at_elsewhere(
                            old(self).free@,
                            old(self).keeper@,
                            Keeper::Free,
                            i as int,
                            to,
                        );
                    } else {
                        lemma_all_at_drop_last(
                            old(self).free@,
                            old(self).keeper@,
                            Keeper::Free,
                            to,
                        );
                        assert(self.free@ =~= old(self).free@.drop_last());
                    }
                    lemma_all_at_elsewhere(
                        old(self).global_garbage@,
                        old(self).keeper@,
                        Keeper::Overflow,
                        i as int,
                        to,
                    );
                    assert(self.spare() =~= old(self).spare_after_push(id as int));
                    assert forall|h: int|
                        0 <= h < self.handles() && h != id implies self.local(h) == old(
                        self).local(h) by {
                        assert(self.local_garbage@[h]@ =~= old(self).local_garbage@[h]@);
                    }
                    if id < old(self).handles() {
                        assert(self.local(id as int) =~= if old(self).local(id as int).len() > 0 {
                            old(self).local(id as int).drop_last()
                        } else {
                            old(self).local(id as int)
                        });
                    }
                }
                i
            },
            None => {
                let i = self.arena.insert(node);
                self.counters.push(0);
                proof {
                    self.keeper@ = self.keeper@.push(Keeper::Nobody);
                    self.arena.lemma_shape();
                    assert forall|h: int| 0 <= h < self.local_garbage@.len() implies all_at(
                        (#[trigger] self.local_garbage@[h])@,
                        self.keeper@,
                        Keeper::Local(h as usize),
                    ) by {
                        let list = old(self).local_garbage@[h]@;
                        assert(all_at(list, old(self).keeper@, Keeper::Local(h as usize)));
                        assert(self.local_garbage@[h]@ =~= list);
                        lemma_all_at_grown(
                            list,
                            old(self).keeper@,
                            Keeper::Local(h as usize),
                            Keeper::Nobody,
                        );
                    }
                    lemma_all_at_grown(
                        old(self).free@,
                        old(self).keeper@,
                        Keeper::Free,
                        Keeper::Nobody,
                    );
                    lemma_all_at_grown(
                        old(self).global_garbage@,
                        old(self).keeper@,
                        Keeper::Overflow,
                        Keeper::Nobody,
                    );
                    assert(self.free@ =~= old(self).free@);
                    assert forall|h: int| 0 <= h < self.handles() implies self.local(h) == old(
                        self).local(h) by {
                        assert(self.local_garbage@[h]@ =~= old(self).local_garbage@[h]@);
                    }
                }
                i
            },
        }
    }

    /// A change inside the arena that leaves every node idle or not as it
    /// was, and every list and count alone, keeps the state consistent.
    proof fn lemma_lists_kept(&self, after: &Self)
        requires
            self.inv(),
            after.arena.wf(),
            after.arena.node_count() == self.arena.node_count(),
            forall|i: int|
                0 <= i < self.keeper@.len() ==> (#[trigger] after.arena.states()[i]
                    == NodeState::Idle) == (self.arena.states()[i] == NodeState::Idle),
            after.keeper@ == self.keeper@,
            after.counters@.len() == self.counters@.len(),
            forall|i: int|
                0 <= i < self.keeper@.len() && (self.keeper@[i] is Local || self.keeper@[i] is Free)
                    ==> #[trigger] after.counters@[i] == 0,
            after.local_garbage@ == self.local_garbage@,
            after.global_garbage@ == self.global_garbage@,
            after.free@ == self.free@,
        ensures
            after.inv(),
    {
        assert forall|i: int| 0 <= i < after.keeper@.len() implies ((
        #[trigger] after.keeper@[i]) is Nobody <==> after.arena.states()[i] != NodeState::Idle) by {
            assert(self.keeper@[i] is Nobody <==> self.arena.states()[i] != NodeState::Idle);
        }
        assert forall|i: int|
            0 <= i < after.keeper@.len() && ((#[trigger] after.keeper@[i]) is Local
                || after.keeper@[i] is Free) implies after.counters@[i] == 0 by {
            assert(after.counters@[i] == 0);
        }
    }

    /// Pushes `x` for handle `id`: the payload goes into the node that
    /// `fresh_node` names, which becomes the top of the stack.
    pub fn push(&mut self, id: usize, x: T)
        requires
            old(self).wf(),
        ensures
            final(self).wf(),
            final(self)@ == old(self)@.push(x),
            final(self).top_node() == old(self).fresh_node(id as int),
            final(self).successor_of(final(self).top_node() as int) == old(self).top_node(),
            forall|i: int|
                0 <= i < old(self).node_count() && i != final(self).top_node() ==> final(
                    self).successor_of(i) == old(self).successor_of(i),
            final(self).keeper(final(self).top_node() as int) == Keeper::Nobody,
            final(self).node_count() == if old(self).fresh_node(id as int) < old(
                self).node_count() {
                old(self).node_count()
            } else {
                old(self).node_count() + 1
            },
            final(self).counts() == if old(self).fresh_node(id as int) < old(self).node_count() {
                old(self).counts()
            } else {
                old(self).counts().push(0)
            },
            forall|i: int|
                0 <= i < old(self).node_count() && i != final(self).top_node() ==> final(
                    self).keeper(i) == old(self).keeper(i),
            final(self).overflow() == old(self).overflow(),
            final(self).spare() == old(self).spare_after_push(id as int),
            final(self).same_locals_but(old(self), id as int),
            id < old(self).handles() ==> final(self).local(id as int) == if old(self).local(
                id as int,
            ).len() > 0 {
                old(self).local(id as int).drop_last()
            } else {
                old(self).local(id as int)
            },
    {
        let top = self.arena.top();
        let node = Node { data: Some(x), next: top };
        let idx = self.make_node(id, node);
        let ghost before = *self;
        proof {
            old(self).arena.lemma_shape();
            before.arena.lemma_shape();
        }
        let linked = self.arena.link(idx, top);
        proof {
            self.arena.lemma_shape();
            before.lemma_lists_kept(self);
            assert forall|i: int| 0 <= i < self.keeper@.len() implies (
            #[trigger] self.arena.states()[i]) != NodeState::Held by {
                if i != idx {
                    assert(old(self).arena.states()[i] != NodeState::Held);
                }
            }
        }
    }

    /// Everything but the counts is as in `other`.
    pub open spec fn same_but_counts(&self, other: &Self) -> bool {
        &&& self@ == other@
        &&& self.top_node() == other.top_node()
        &&& self.same_links(other)
        &&& self.node_count() == other.node_count()
        &&& self.overflow() == other.overflow()
        &&& self.spare() == other.spare()
        &&& self.same_locals(other)
        &&& forall|i: int| 0 <= i < self.node_count() ==> self.keeper(i) == other.keeper(i)
    }

    /// Announces that the caller is about to read the node on top: its
    /// count goes up by one, and the node is handed out. While the count
    /// is not zero the node is not reused.
    pub fn announce(&mut self) -> (r: Option<usize>)
        requires
            old(self).wf(),
        ensures
            final(self).wf(),
            final(self).same_but_counts(old(self)),
            r == if old(self).top_node() == NULL {
                None
            } else {
                Some(old(self).top_node())
            },
            final(self).counts() == if old(self).top_node() == NULL {
                old(self).counts()
            } else {
                old(self).counts().update(
                    old(self).top_node() as int,
                    bumped(old(self).counts()[old(self).top_node() as int]),
                )
            },
    {
        let head = self.arena.top();
        if head == NULL {
            return None;
        }
        proof {
            self.arena.lemma_top();
            self.arena.lemma_shape();
        }
        let c = self.counters[head];
        self.counters[head] = if c == usize::MAX {
            0
        } else {
            c + 1
        };
        proof {
            old(self).lemma_lists_kept(self);
        }
        Some(head)
    }

    /// Retracts an announcement made for `node`: its count goes down by one.
    pub fn retract(&mut self, node: usize)
        requires
            old(self).wf(),
            node < old(self).node_count(),
            old(self).counts()[node as int] > 0,
        ensures
            final(self).wf(),
            final(self).same_but_counts(old(self)),
            final(self).counts() == old(self).counts().update(
                node as int,
                dropped(old(self).counts()[node as int]),
            ),
    {
        let c = self.counters[node];
        self.counters[node] = c - 1;
        proof {
            old(self).lemma_lists_kept(self);
        }
    }

    /// Where a node goes when handle `h` retires it with the count `c`:
    /// into the reuse list of `h` if the count is zero and `h` is
    /// registered, else into the overflow list.
    pub open spec fn keeper_for(&self, h: int, c: usize) -> Keeper {
        if c == 0 && 0 <= h < self.handles() {
            Keeper::Local(h as usize)
        } else {
            Keeper::Overflow
        }
    }

    /// Retires node `idx`, which handle `id` has just removed from the
    /// stack and emptied: with a count of zero it is free for reuse by
    /// `id`, else it goes to the overflow list to be checked again later.
    fn retire(&mut self, id: usize, idx: usize)
        requires
            old(self).inv(),
            idx < old(self).arena.node_count(),
            old(self).arena.states()[idx as int] == NodeState::Held,
            old(self).arena.payloads()[idx as int] is None,
        ensures
            final(self).inv(),
            final(self).arena@ == old(self).arena@,
            final(self).arena.top_node() == old(self).arena.top_node(),
            final(self).arena.node_count() == old(self).arena.node_count(),
            final(self).arena.states() == old(self).arena.states().update(
                idx as int,
                NodeState::Idle,
            ),
            final(self).arena.successors() == old(self).arena.successors(),
            final(self).counters@ == old(self).counters@,
            final(self).free@ == old(self).free@,
            final(self).keeper@ == old(self).keeper@.update(
                idx as int,
                old(self).keeper_for(id as int, old(self).counters@[idx as int]),
            ),
            final(self).handles() == old(self).handles(),
            forall|h: int|
                0 <= h < old(self).handles() ==> final(self).local(h) == if old(self).keeper_for(
                    id as int,
                    old(self).counters@[idx as int],
                ) == Keeper::Local(h as usize) {
                    old(self).local(h).push(idx)
                } else {
                    old(self).local(h)
                },
            final(self).overflow() == if old(self).keeper_for(
                id as int,
                old(self).counters@[idx as int],
            ) == Keeper::Overflow {
                old(self).overflow().push(idx)
            } else {
                old(self).overflow()
            },
    {
        proof {
            old(self).arena.lemma_shape();
        }
        let to_local = self.counters[idx] == 0 && id < self.local_garbage.len();
        if to_local {
            self.local_garbage[id].push(idx);
        } else {
            self.global_garbage.push(idx);
        }
        self.arena.retire(idx);
        proof {
            let to = old(self).keeper_for(id as int, old(self).counters@[idx as int]);
            self.keeper@ = self.keeper@.update(idx as int, to);
            self.arena.lemma_shape();
            assert(old(self).keeper@[idx as int] is Nobody);
            assert forall|h: int| 0 <= h < self.local_garbage@.len() implies all_at(
                (#[trigger] self.local_garbage@[h])@,
                self.keeper@,
                Keeper::Local(h as usize),
            ) by {
                let list = old(self).local_garbage@[h]@;
                assert(all_at(list, old(self).keeper@, Keeper::Local(h as usize)));
                if h == id && to_local {
                    lemma_all_at_push(list, old(self).keeper@, Keeper::Local(h as usize), idx);
                    assert(self.local_garbage@[h]@ =~= list.push(idx));
                } else {
                    assert(self.local_garbage@[h]@ =~= list);
                    lemma_all_at_elsewhere(
                        list,
                        old(self).keeper@,
                        Keeper::Local(h as usize),
                        idx as int,
                        to,
                    );
                }
            }
            if to_local {
                lemma_all_at_elsewhere(
                    old(self).global_garbage@,
                    old(self).keeper@,
                    Keeper::Overflow,
                    idx as int,
                    to,
                );
            } else {
                lemma_all_at_push(
                    old(self).global_garbage@,
                    old(self).keeper@,
                    Keeper::Overflow,
                    idx,
                );
            }
            lemma_all_at_elsewhere(
                old(self).free@,
                old(self).keeper@,
                Keeper::Free,
                idx as int,
                to,
            );
            assert forall|h: int| 0 <= h < old(self).handles() implies self.local(h) == if to
                == Keeper::Local(h as usize) {
                old(self).local(h).push(idx)
            } else {
                old(self).local(h)
            } by {
                if h == id && to_local {
                } else {
                    assert(self.local_garbage@[h]@ =~= old(self).local_garbage@[h]@);
                }
            }
        }
    }

    /// Compare-and-swap of the top from `node`, for which handle `id` has
    /// made an announcement, to the node that `node` points at. It
    /// succeeds exactly when `node` is on top: the announcement is then
    /// retracted, the payload handed out, and the node retired by its
    /// count. Otherwise nothing changes, and the announcement stands.
    pub fn unlink(&mut self, id: usize, node: usize) -> (r: Option<T>)
        requires
            old(self).wf(),
        ensures
            final(self).wf(),
            final(self).node_count() == old(self).node_count(),
            final(self).same_links(old(self)),
            final(self).spare() == old(self).spare(),
            final(self).handles() == old(self).handles(),
            node == NULL || node != old(self).top_node() ==> {
                &&& r is None
                &&& final(self).same_but_counts(old(self))
                &&& final(self).counts() == old(self).counts()
            },
            node != NULL && node == old(self).top_node() ==> {
                &&& old(self)@.len() > 0
                &&& r == Some(old(self)@.last())
                &&& final(self)@ == old(self)@.drop_last()
                &&& final(self).top_node() == old(self).successor_of(node as int)
                &&& final(self).counts() == old(self).counts().update(
                    node as int,
                    dropped(old(self).counts()[node as int]),
                )
                &&& final(self).keeper(node as int) == old(self).keeper_for(
                    id as int,
                    dropped(old(self).counts()[node as int]),
                )
                &&& forall|i: int|
                    0 <= i < old(self).node_count() && i != node ==> final(self).keeper(i) == old(
                        self).keeper(i)
                &&& forall|h: int|
                    0 <= h < old(self).handles() ==> final(self).local(h) == if final(self).keeper(
                        node as int,
                    ) == Keeper::Local(h as usize) {
                        old(self).local(h).push(node)
                    } else {
                        old(self).local(h)
                    }
                &&& final(self).overflow() == if final(self).keeper(node as int)
                    == Keeper::Overflow {
                    old(self).overflow().push(node)
                } else {
                    old(self).overflow()
                }
            },
    {
        if node == NULL || self.arena.top() != node {
            return None;
        }
        proof {
            self.arena.lemma_top();
            self.arena.lemma_shape();
        }
        let next = self.arena.next(node);
        let unlinked = self.arena.unlink(node, next);
        let c = self.counters[node];
        self.counters[node] = if c == 0 {
            usize::MAX
        } else {
            c - 1
        };
        let item = self.arena.take(node);
        proof {
            self.arena.lemma_shape();
            old(self).lemma_lists_kept(self);
        }
        self.retire(id, node);
        proof {
            self.arena.lemma_shape();
            assert forall|i: int| 0 <= i < self.keeper@.len() implies (
            #[trigger] self.arena.states()[i]) != NodeState::Held by {
                if i != node {
                    assert(old(self).arena.states()[i] != NodeState::Held);
                }
            }
        }
        item
    }

    /// Pops for handle `id`: announces the top node, then unlinks it. The
    /// payload on top comes out, and its node is retired by its count.
    pub fn pop(&mut self, id: usize) -> (r: Option<T>)
        requires
            old(self).wf(),
        ensures
            final(self).wf(),
            final(self).node_count() == old(self).node_count(),
            final(self).same_links(old(self)),
            final(self).spare() == old(self).spare(),
            final(self).handles() == old(self).handles(),
            final(self).counts() == old(self).counts(),
            r == top_of(old(self)@),
            final(self)@ == without_top(old(self)@),
            old(self)@.len() == 0 ==> r is None && final(self).same_but_counts(old(self)),
            old(self)@.len() > 0 ==> {
                &&& r == Some(old(self)@.last())
                &&& final(self)@ == old(self)@.drop_last()
                &&& final(self).top_node() == old(self).successor_of(old(self).top_node() as int)
                &&& final(self).keeper(old(self).top_node() as int) == old(self).keeper_for(
                    id as int,
                    old(self).counts()[old(self).top_node() as int],
                )
                &&& forall|i: int|
                    0 <= i < old(self).node_count() && i != old(self).top_node() ==> final(
                        self).keeper(i) == old(self).keeper(i)
                &&& forall|h: int|
                    0 <= h < old(self).handles() ==> final(self).local(h) == if final(self).keeper(
                        old(self).top_node() as int,
                    ) == Keeper::Local(h as usize) {
                        old(self).local(h).push(old(self).top_node())
                    } else {
                        old(self).local(h)
                    }
                &&& final(self).overflow() == if final(self).keeper(old(self).top_node() as int)
                    == Keeper::Overflow {
                    old(self).overflow().push(old(self).top_node())
                } else {
                    old(self).overflow()
                }
            },
    {
        proof {
            old(self).lemma_counts();
        }
        match self.announce() {
            None => None,
            Some(node) => {
                let ghost announced = *self;
                let r = self.unlink(id, node);
                proof {
                    assert(self.counts() =~= old(self).counts());
                    assert forall|h: int| 0 <= h < old(self).handles() implies self.local(h)
                        == if self.keeper(node as int) == Keeper::Local(h as usize) {
                        old(self).local(h).push(node)
                    } else {
                        old(self).local(h)
                    } by {
                        assert(announced.local(h) == old(self).local(h));
                    }
                }
                r
            },
        }
    }

    /// The test by which a sweep keeps a node in the overflow list: its
    /// count is not zero.
    pub open spec fn waiting_pred(&self) -> spec_fn(usize) -> bool {
        |i: usize| self.counts()[i as int] != 0
    }

    /// The test by which a sweep frees a node of the overflow list: its
    /// count is zero.
    pub open spec fn settled_pred(&self) -> spec_fn(usize) -> bool {
        |i: usize| self.counts()[i as int] == 0
    }

    /// Checks the overflow list again: a node whose count has come down to
    /// zero becomes spare, every other one stays.
    pub fn sweep(&mut self)
        requires
            old(self).wf(),
        ensures
            final(self).wf(),
            final(self)@ == old(self)@,
            final(self).top_node() == old(self).top_node(),
            final(self).node_count() == old(self).node_count(),
            final(self).same_links(old(self)),
            final(self).counts() == old(self).counts(),
            final(self).same_locals(old(self)),
            final(self).overflow() == old(self).overflow().filter(old(self).waiting_pred()),
            final(self).spare() == old(self).spare() + old(self).overflow().filter(
                old(self).settled_pred(),
            ),
            forall|i: int|
                0 <= i < old(self).node_count() ==> final(self).keeper(i) == old(self).keeper(i)
                    || (old(self).keeper(i) == Keeper::Overflow && final(self).keeper(i)
                    == Keeper::Free),
    {
        let mut list: Vec<usize> = Vec::new();
        std::mem::swap(&mut self.global_garbage, &mut list);
        let ghost keep = old(self).waiting_pred();
        let ghost let_go = old(self).settled_pred();
        let ghost base = old(self).free@;
        proof {
            old(self).arena.lemma_shape();
            assert(list@.take(0) =~= Seq::<usize>::empty());
            assert(self.free@ =~= base + list@.take(0).filter(let_go));
        }
        let mut kept: Vec<usize> = Vec::new();
        let mut k: usize = 0;
        while k < list.len()
            invariant
                k <= list@.len(),
                self.inv(),
                self.arena == old(self).arena,
                self.counters == old(self).counters,
                self.local_garbage == old(self).local_garbage,
                self.keeper@.len() == old(self).keeper@.len(),
                self.global_garbage@ == Seq::<usize>::empty(),
                list@ == old(self).global_garbage@,
                list@.no_duplicates(),
                keep == old(self).waiting_pred(),
                let_go == old(self).settled_pred(),
                base == old(self).free@,
                forall|j: int|
                    k <= j < list@.len() ==> (#[trigger] list@[j]) < self.keeper@.len()
                        && self.keeper@[list@[j] as int] == Keeper::Overflow,
                all_at(kept@, self.keeper@, Keeper::Overflow),
                forall|a: int|
                    0 <= a < kept@.len() ==> exists|j: int|
                        0 <= j < k && list@[j] == #[trigger] kept@[a],
                kept@ == list@.take(k as int).filter(keep),
                self.free@ == base + list@.take(k as int).filter(let_go),
                forall|i: int|
                    0 <= i < old(self).keeper@.len() ==> self.keeper@[i] == old(self).keeper@[i]
                        || (old(self).keeper@[i] == Keeper::Overflow && self.keeper@[i]
                        == Keeper::Free),
            decreases list@.len() - k,
        {
            let idx = list[k];
            let waiting = self.counters[idx] != 0;
            proof {
                list@.lemma_take_succ_push(k as int);
                list@.take(k as int).lemma_filter_push(idx, keep);
                list@.take(k as int).lemma_filter_push(idx, let_go);
                assert forall|a: int| 0 <= a < kept@.len() implies kept@[a] != idx by {
                    let j = choose|j: int| 0 <= j < k && list@[j] == kept@[a];
                    assert(list@[j] != list@[k as int]);
                }
            }
            if waiting {
                let ghost shorter = kept@;
                kept.push(idx);
                proof {
                    assert forall|a: int, b: int|
                        0 <= a < kept@.len() && 0 <= b < kept@.len() && a != b implies kept@[a]
                        != kept@[b] by {
                        if a < shorter.len() {
                            assert(kept@[a] == shorter[a]);
                        }
                        if b < shorter.len() {
                            assert(kept@[b] == shorter[b]);
                        }
                    }
                    assert forall|a: int| 0 <= a < kept@.len() implies exists|j: int|
                        0 <= j < k + 1 && list@[j] == #[trigger] kept@[a] by {
                        if a < shorter.len() {
                            assert(kept@[a] == shorter[a]);
                            let j = choose|j: int| 0 <= j < k && list@[j] == shorter[a];
                            assert(0 <= j < k + 1 && list@[j] == kept@[a]);
                        } else {
                            assert(list@[k as int] == kept@[a]);
                        }
                    }
                }
            } else {
                let ghost before = *self;
                self.free.push(idx);
                proof {
                    let to = Keeper::Free;
                    self.keeper@ = self.keeper@.update(idx as int, to);
                    lemma_all_at_absent(kept@, before.keeper@, Keeper::Overflow, idx as int, to);
                    lemma_all_at_push(before.free@, before.keeper@, to, idx);
                    assert forall|h: int| 0 <= h < self.local_garbage@.len() implies all_at(
                        (#[trigger] self.local_garbage@[h])@,
                        self.keeper@,
                        Keeper::Local(h as usize),
                    ) by {
                        let l = before.local_garbage@[h]@;
                        assert(all_at(l, before.keeper@, Keeper::Local(h as usize)));
                        lemma_all_at_elsewhere(
                            l,
                            before.keeper@,
                            Keeper::Local(h as usize),
                            idx as int,
                            to,
                        );
                    }
                    assert forall|j: int| k + 1 <= j < list@.len() implies (#[trigger] list@[j])
                        < self.keeper@.len() && self.keeper@[list@[j] as int]
                        == Keeper::Overflow by {
                        assert(list@[j] != list@[k as int]);
                    }
                    assert forall|a: int| 0 <= a < kept@.len() implies exists|j: int|
                        0 <= j < k + 1 && list@[j] == #[trigger] kept@[a] by {
                        let j = choose|j: int| 0 <= j < k && list@[j] == kept@[a];
                        assert(0 <= j < k + 1 && list@[j] == kept@[a]);
                    }
                    assert(self.free@ =~= base + list@.take(k + 1).filter(let_go));
                    assert forall|i: int| 0 <= i < self.keeper@.len() implies ((
                    #[trigger] self.keeper@[i]) is Nobody <==> self.arena.states()[i]
                        != NodeState::Idle) by {
                        assert(before.keeper@[i] is Nobody <==> before.arena.states()[i]
                            != NodeState::Idle);
                    }
                }
            }
            k = k + 1;
        }
        proof {
            assert(list@.take(k as int) =~= list@);
        }
        self.global_garbage = kept;
        proof {
            assert forall|i: int| 0 <= i < self.keeper@.len() implies (
            #[trigger] self.arena.states()[i]) != NodeState::Held by {
                assert(old(self).arena.states()[i] != NodeState::Held);
            }
        }
    }

    /// The keepers once handle `id` has given its reuse list up.
    closed spec fn keepers_after_release(&self, id: int) -> Seq<Keeper> {
        Seq::new(
            self.keeper@.len(),
            |i: int|
                if self.keeper@[i] == Keeper::Local(id as usize) {
                    Keeper::Free
                } else {
                    self.keeper@[i]
                },
        )
    }

    /// What handle `h` keeps for reuse, or nothing if `h` is not registered.
    pub open spec fn local_or_empty(&self, h: int) -> Seq<usize> {
        if 0 <= h < self.handles() {
            self.local(h)
        } else {
            Seq::empty()
        }
    }

    /// Handle `id` departs: the nodes that it kept for reuse become spare,
    /// and the overflow list is checked again.
    pub fn release(&mut self, id: usize)
        requires
            old(self).wf(),
        ensures
            final(self).wf(),
            final(self)@ == old(self)@,
            final(self).top_node() == old(self).top_node(),
            final(self).node_count() == old(self).node_count(),
            final(self).same_links(old(self)),
            final(self).counts() == old(self).counts(),
            final(self).same_locals_but(old(self), id as int),
            id < old(self).handles() ==> final(self).local(id as int) == Seq::<usize>::empty(),
            final(self).overflow() == old(self).overflow().filter(old(self).waiting_pred()),
            final(self).spare() == old(self).spare() + old(self).local_or_empty(id as int) + old(
                self).overflow().filter(old(self).settled_pred()),
    {
        if id < self.local_garbage.len() {
            self.free.append(&mut self.local_garbage[id]);
            proof {
                self.keeper@ = old(self).keepers_after_release(id as int);
                old(self).arena.lemma_shape();
                let mine = old(self).local_garbage@[id as int]@;
                let from = Keeper::Local(id);
                assert(all_at(mine, old(self).keeper@, from));
                assert forall|h: int| 0 <= h < self.local_garbage@.len() implies all_at(
                    (#[trigger] self.local_garbage@[h])@,
                    self.keeper@,
                    Keeper::Local(h as usize),
                ) by {
                    if h != id {
                        let l = old(self).local_garbage@[h]@;
                        assert(self.local_garbage@[h]@ =~= l);
                        assert(all_at(l, old(self).keeper@, Keeper::Local(h as usize)));
                        lemma_all_at_kept(
                            l,
                            old(self).keeper@,
                            Keeper::Local(h as usize),
                            self.keeper@,
                        );
                    }
                }
                lemma_all_at_kept(
                    old(self).global_garbage@,
                    old(self).keeper@,
                    Keeper::Overflow,
                    self.keeper@,
                );
                assert(all_at(self.free@, self.keeper@, Keeper::Free)) by {
                    let f0 = old(self).free@;
                    assert forall|i: int, j: int|
                        0 <= i < f0.len() && 0 <= j < mine.len() implies f0[i] != mine[j] by {
                        assert(old(self).keeper@[f0[i] as int] == Keeper::Free);
                        assert(old(self).keeper@[mine[j] as int] == from);
                    }
                    vstd::seq_lib::lemma_no_dup_in_concat(f0, mine);
                    assert forall|k: int| 0 <= k < self.free@.len() implies (
                    #[trigger] self.free@[k]) < self.keeper@.len()
                        && self.keeper@[self.free@[k] as int] == Keeper::Free by {
                        if k < f0.len() {
                            assert(old(self).keeper@[f0[k] as int] == Keeper::Free);
                        } else {
                            assert(old(self).keeper@[mine[k - f0.len()] as int] == from);
                        }
                    }
                }
                assert forall|i: int| 0 <= i < self.keeper@.len() implies ((
                #[trigger] self.keeper@[i]) is Nobody <==> self.arena.states()[i]
                    != NodeState::Idle) by {
                    assert(old(self).keeper@[i] is Nobody <==> old(self).arena.states()[i]
                        != NodeState::Idle);
                }
                assert forall|i: int|
                    0 <= i < self.keeper@.len() && ((#[trigger] self.keeper@[i]) is Local
                        || self.keeper@[i] is Free) implies self.counters@[i] == 0 by {
                    assert(old(self).keeper@[i] is Local || old(self).keeper@[i] is Free);
                }
                assert forall|i: int| 0 <= i < self.keeper@.len() implies (
                #[trigger] self.arena.states()[i]) != NodeState::Held by {
                    assert(old(self).arena.states()[i] != NodeState::Held);
                }
                assert forall|h: int|
                    0 <= h < self.handles() && h != id implies self.local(h) == old(self).local(
                    h,
                ) by {
                    assert(self.local_garbage@[h]@ =~= old(self).local_garbage@[h]@);
                }
            }
        }
        let ghost given = *self;
        self.sweep();
        proof {
            assert(given.waiting_pred() =~= old(self).waiting_pred());
            assert(given.settled_pred() =~= old(self).settled_pred());
            assert(self.spare() =~= old(self).spare() + old(self).local_or_empty(id as int) + old(
                self).overflow().filter(old(self).settled_pred()));
        }
    }

    /// Number of nodes in the arena.
    pub fn nodes(&self) -> (n: usize)
        requires
            self.wf(),
        ensures
            n == self.node_count(),
    {
        self.arena.count()
    }

    /// The number of announcements for `node` that were not retracted.
    pub fn count_of(&self, node: usize) -> (c: usize)
        requires
            self.wf(),
            node < self.node_count(),
        ensures
            c == self.counts()[node as int],
    {
        self.counters[node]
    }

    /// Number of nodes that wait in the overflow list.
    pub fn waiting(&self) -> (n: usize)
        requires
            self.wf(),
        ensures
            n == self.overflow().len(),
    {
        self.global_garbage.len()
    }

    /// Number of nodes that any handle may reuse.
    pub fn spares(&self) -> (n: usize)
        requires
            self.wf(),
        ensures
            n == self.spare().len(),
    {
        self.free.len()
    }

    /// Number of payloads on the stack.
    pub fn len(&self) -> (n: usize)
        requires
            self.wf(),
        ensures
            n == self@.len(),
    {
        self.arena.len()
    }
}

/// What the lock of a stack guards: a state together with the promise
/// that it is well formed.
pub struct Cell<T> {
    inner: StaccInner<T>,
}

impl<T> Cell<T> {
    #[verifier::type_invariant]
    spec fn inv(self) -> bool {
        self.inner.wf()
    }

    /// The state that the cell holds.
    pub closed spec fn state(&self) -> StaccInner<T> {
        self.inner
    }
}

/// The payloads on the stack that a slot holds, bottom first. The slot is
/// what a handle finds under the lock; a vacant slot stands for an empty
/// stack.
pub open spec fn held_view<T>(slot: Option<Cell<T>>) -> Seq<T> {
    match slot {
        Some(c) => c.state()@,
        None => Seq::empty(),
    }
}

/// The node on top of the stack that a slot holds, or `NULL`.
pub open spec fn held_top<T>(slot: Option<Cell<T>>) -> usize {
    match slot {
        Some(c) => c.state().top_node(),
        None => NULL,
    }
}

/// The counts of the nodes in the state that a slot holds.
pub open spec fn held_counts<T>(slot: Option<Cell<T>>) -> Seq<usize> {
    match slot {
        Some(c) => c.state().counts(),
        None => Seq::empty(),
    }
}

/// Number of handles registered in the state that a slot holds.
pub open spec fn held_handles<T>(slot: Option<Cell<T>>) -> nat {
    match slot {
        Some(c) => c.state().handles(),
        None => 0,
    }
}

/// Takes the state out of a slot; a vacant slot gives an empty stack with
/// no node and no handle registered.
fn open<T>(slot: &mut Option<Cell<T>>) -> (inner: StaccInner<T>)
    ensures
        *final(slot) is None,
        inner.wf(),
        inner@ == held_view(*old(slot)),
        inner.top_node() == held_top(*old(slot)),
        inner.counts() == held_counts(*old(slot)),
        inner.handles() == held_handles(*old(slot)),
        *old(slot) matches Some(c) ==> inner == c.state(),
{
    match slot.take() {
        Some(cell) => {
            proof {
                use_type_invariant(&cell);
            }
            cell.inner
        },
        None => StaccInner::new(),
    }
}

/// Puts a well-formed state into a slot.
fn close<T>(slot: &mut Option<Cell<T>>, inner: StaccInner<T>)
    requires
        inner.wf(),
    ensures
        *final(slot) matches Some(d) && d.state() == inner,
{
    *slot = Some(Cell { inner });
}

/// What `Stacc::push` does with the slot that it finds under the lock:
/// handle `id` pushes `x` onto the stack held there.
pub fn push_in<T>(slot: &mut Option<Cell<T>>, id: usize, x: T)
    ensures
        *final(slot) is Some,
        held_view(*final(slot)) == held_view(*old(slot)).push(x),
        held_handles(*final(slot)) == held_handles(*old(slot)),
{
    let mut inner = open(slot);
    inner.push(id, x);
    close(slot, inner);
}

/// The first step of a pop, on the slot found under the lock: the node on
/// top of the stack held there is announced, and handed out; its count
/// goes up by one.
pub fn announce_in<T>(slot: &mut Option<Cell<T>>) -> (r: Option<usize>)
    ensures
        *final(slot) is Some,
        held_view(*final(slot)) == held_view(*old(slot)),
        held_top(*final(slot)) == held_top(*old(slot)),
        r == if held_top(*old(slot)) == NULL {
            None
        } else {
            Some(held_top(*old(slot)))
        },
        r is None <==> held_view(*old(slot)).len() == 0,
        held_counts(*final(slot)) == if held_top(*old(slot)) == NULL {
            held_counts(*old(slot))
        } else {
            held_counts(*old(slot)).update(
                held_top(*old(slot)) as int,
                bumped(held_counts(*old(slot))[held_top(*old(slot)) as int]),
            )
        },
{
    let mut inner = open(slot);
    proof {
        inner.lemma_counts();
    }
    let r = inner.announce();
    close(slot, inner);
    r
}

/// The second step of a pop, on the slot found under the lock: the
/// compare-and-swap of handle `id` for `node`. It succeeds exactly when
/// `node` is on top of the stack held there: the payload on top comes
/// out, and the count of `node` goes down by one; else nothing changes.
pub fn unlink_in<T>(slot: &mut Option<Cell<T>>, id: usize, node: usize) -> (r: Option<T>)
    ensures
        *final(slot) is Some,
        node != NULL && node == held_top(*old(slot)) ==> held_view(*old(slot)).len() > 0 && r
            == Some(held_view(*old(slot)).last()) && held_view(*final(slot)) == held_view(
            *old(slot),
        ).drop_last() && held_counts(*final(slot)) == held_counts(*old(slot)).update(
            node as int,
            dropped(held_counts(*old(slot))[node as int]),
        ),
        node == NULL || node != held_top(*old(slot)) ==> r is None && held_view(*final(slot))
            == held_view(*old(slot)) && held_top(*final(slot)) == held_top(*old(slot))
            && held_counts(*final(slot)) == held_counts(*old(slot)),
{
    let mut inner = open(slot);
    let r = inner.unlink(id, node);
    close(slot, inner);
    r
}

/// Whether an announcement for `node` stands in the state that a slot
/// holds: the node is there, and its count is not zero.
pub open spec fn announced<T>(slot: Option<Cell<T>>, node: int) -> bool {
    0 <= node < held_counts(slot).len() && held_counts(slot)[node] > 0
}

/// The step of a pop whose compare-and-swap failed, on the slot found
/// under the lock: the announcement for `node` is retracted, if one
/// stands there; its count goes down by one.
pub fn retract_in<T>(slot: &mut Option<Cell<T>>, node: usize)
    ensures
        (*final(slot) is Some) == (*old(slot) is Some),
        held_view(*final(slot)) == held_view(*old(slot)),
        held_top(*final(slot)) == held_top(*old(slot)),
        held_counts(*final(slot)) == if announced(*old(slot), node as int) {
            held_counts(*old(slot)).update(
                node as int,
                dropped(held_counts(*old(slot))[node as int]),
            )
        } else {
            held_counts(*old(slot))
        },
{
    if slot.is_some() {
        let mut inner = open(slot);
        proof {
            inner.lemma_counts();
        }
        if node < inner.nodes() && inner.count_of(node) > 0 {
            inner.retract(node);
        }
        close(slot, inner);
    }
}

/// What `Stacc::len` does with the slot that it finds under the lock: the
/// number of payloads on the stack held there.
pub fn len_in<T>(slot: &Option<Cell<T>>) -> (n: usize)
    ensures
        n == held_view(*slot).len(),
{
    match slot {
        Some(cell) => {
            proof {
                use_type_invariant(cell);
            }
            cell.inner.len()
        },
        None => 0,
    }
}

/// What `Stacc::clone` does with the slot that it finds under the lock:
/// it registers one more handle, and gets its number.
pub fn register_in<T>(slot: &mut Option<Cell<T>>) -> (id: usize)
    ensures
        *final(slot) is Some,
        id == held_handles(*old(slot)),
        held_handles(*final(slot)) == held_handles(*old(slot)) + 1,
        held_view(*final(slot)) == held_view(*old(slot)),
        held_counts(*final(slot)) == held_counts(*old(slot)),
{
    let mut inner = open(slot);
    let id = inner.register();
    close(slot, inner);
    id
}

/// What `Stacc::release` does with the slot that it finds under the lock:
/// handle `id` departs from the stack held there, and leaves its reuse
/// list empty. A vacant slot stays vacant.
pub fn release_in<T>(slot: &mut Option<Cell<T>>, id: usize)
    ensures
        (*final(slot) is Some) == (*old(slot) is Some),
        held_view(*final(slot)) == held_view(*old(slot)),
        held_counts(*final(slot)) == held_counts(*old(slot)),
        held_handles(*final(slot)) == held_handles(*old(slot)),
        *final(slot) matches Some(d) ==> (id < d.state().handles() ==> d.state().local(id as int)
            == Seq::<usize>::empty()),
{
    if slot.is_some() {
        let mut inner = open(slot);
        inner.release(id);
        close(slot, inner);
    }
}

/// A handle on a counting stack. Clones share one stack, each with a reuse
/// list of its own. Every step of an operation takes effect under the
/// stack's lock, and the steps of several handles interleave: between the
/// step that announces a node and the step that unlinks it, other handles
/// may pop and retire.
///
/// The lock holds the state except while a step works on it; a step that
/// finds it vacant starts from an empty stack. What a step does with the
/// slot that it finds under the lock, whatever that slot holds, is said by
/// `push_in`, `announce_in`, `unlink_in`, `retract_in`, `len_in`,
/// `register_in` and `release_in`; of its own result a handle can only say
/// what holds whatever other handles have done.
#[verifier::reject_recursive_types(T)]
pub struct Stacc<T> {
    inner: Arc<Mutex<parking_lot::RawMutex, Option<Cell<T>>>>,
    id: usize,
}

impl<T> Stacc<T> {
    /// The number under which this handle is registered.
    pub closed spec fn number(&self) -> usize {
        self.id
    }

    /// This handle and `other` are handles on one and the same stack.
    pub closed spec fn same_stack(&self, other: &Self) -> bool {
        self.inner == other.inner
    }

    /// A fresh stack and its first handle, which has the number 0.
    pub fn new() -> (s: Self)
        ensures
            s.number() == 0,
    {
        let mut slot: Option<Cell<T>> = None;
        let id = register_in(&mut slot);
        Self { inner: Arc::new(guarded(slot)), id }
    }

    /// One step: announces the top of the shared stack.
    fn announce(&self) -> (r: Option<usize>) {
        let mut guard = lock(&self.inner);
        let slot = held(&mut guard);
        announce_in(slot)
    }

    /// One step: the compare-and-swap that unlinks the announced node.
    fn unlink(&self, node: usize) -> (r: Option<T>) {
        let mut guard = lock(&self.inner);
        let slot = held(&mut guard);
        unlink_in(slot, self.id, node)
    }

    /// One step: retracts the announcement made for `node`, if one stands.
    fn retract(&self, node: usize) {
        let mut guard = lock(&self.inner);
        let slot = held(&mut guard);
        retract_in(slot, node);
    }

    /// Pops the payload on top of the shared stack: announces the top node
    /// and tries to unlink it, retracting the announcement and trying
    /// again while other handles get in between. `None` when the stack was
    /// found empty, or after `ATTEMPTS` attempts.
    pub fn pop(&mut self) -> (r: Option<T>)
        ensures
            *final(self) == *old(self),
    {
        let mut left: usize = ATTEMPTS;
        while left > 0
            invariant
                *self == *old(self),
            decreases left,
        {
            let node = match self.announce() {
                None => {
                    return None;
                },
                Some(node) => node,
            };
            let r = self.unlink(node);
            if r.is_some() {
                return r;
            }
            self.retract(node);
            left = left - 1;
        }
        None
    }

    /// Pushes `x` onto the shared stack. The handle stays as it is.
    pub fn push(&mut self, x: T)
        ensures
            *final(self) == *old(self),
    {
        let mut guard = lock(&self.inner);
        let slot = held(&mut guard);
        push_in(slot, self.id, x);
    }

    /// Number of payloads that the shared stack held when it was asked.
    pub fn len(&self) -> (n: usize) {
        let mut guard = lock(&self.inner);
        let slot = held(&mut guard);
        len_in(slot)
    }

    /// Gives the handle up: its reuse list goes back to the shared stack.
    pub fn release(self) {
        let mut guard = lock(&self.inner);
        let slot = held(&mut guard);
        release_in(slot, self.id);
    }
}

impl<T> Clone for Stacc<T> {
    /// A handle on the same stack, with an empty reuse list of its own.
    fn clone(&self) -> (s: Self)
        ensures
            s.same_stack(self),
    {
        let mut guard = lock(&self.inner);
        let slot = held(&mut guard);
        let id = register_in(slot);
        Self { inner: share(&self.inner), id }
    }
}

} // verus!
