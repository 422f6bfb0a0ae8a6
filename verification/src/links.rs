//! Linked stacks laid out in an arena: nodes are named by their index, and a
//! chain of indices says which nodes are linked, bottom first.
//!
//! `Arena` is the stack that the three linked variants share: it links and
//! unlinks nodes at the top by compare-and-swap, and knows of every node
//! whether it is linked, in the hands of an operation, or idle. When an
//! idle node may be used again is for the variant to say. The laws at the
//! end say what a run of pushes and pops does to the payloads: last in,
//! first out (`lemma_lifo`), and nothing lost or made up (`lemma_push_all`,
//! `lemma_pop_n`, `lemma_drained`).
use vstd::prelude::*;
use vstd::multiset::Multiset;

verus! {

/// The index that names no node.
pub const NULL: usize = usize::MAX;

/// `chain` lists distinct nodes, each linked to the one below it, with the
/// bottom node linked to nothing and `top` naming the last one.
pub open spec fn chain_linked(nexts: Seq<usize>, chain: Seq<usize>, top: usize) -> bool {
    &&& chain.no_duplicates()
    &&& forall|k: int| 0 <= k < chain.len() ==> (#[trigger] chain[k]) < nexts.len()
    &&& forall|k: int|
        0 <= k < chain.len() ==> #[trigger] nexts[chain[k] as int] == if k == 0 {
            NULL
        } else {
            chain[k - 1]
        }
    &&& top == if chain.len() == 0 {
        NULL
    } else {
        chain.last()
    }
}

/// `list` names distinct nodes, all of them marked `tag` in `place`.
pub open spec fn all_at<P>(list: Seq<usize>, place: Seq<P>, tag: P) -> bool {
    &&& list.no_duplicates()
    &&& forall|k: int|
        0 <= k < list.len() ==> (#[trigger] list[k]) < place.len() && place[list[k] as int] == tag
}

/// A list is untouched by moving a node that stands elsewhere.
pub proof fn lemma_all_at_elsewhere<P>(list: Seq<usize>, place: Seq<P>, tag: P, i: int, to: P)
    requires
        all_at(list, place, tag),
        0 <= i < place.len(),
        place[i] != tag,
    ensures
        all_at(list, place.update(i, to), tag),
{
}

/// A list that does not name node `i` is untouched by moving node `i`.
pub proof fn lemma_all_at_absent<P>(list: Seq<usize>, place: Seq<P>, tag: P, i: int, to: P)
    requires
        all_at(list, place, tag),
        0 <= i < place.len(),
        forall|k: int| 0 <= k < list.len() ==> list[k] != i,
    ensures
        all_at(list, place.update(i, to), tag),
{
}

/// A list is untouched by a change that leaves its own nodes alone.
pub proof fn lemma_all_at_kept<P>(list: Seq<usize>, place: Seq<P>, tag: P, after: Seq<P>)
    requires
        all_at(list, place, tag),
        after.len() >= place.len(),
        forall|k: int| 0 <= k < list.len() ==> after[(#[trigger] list[k]) as int] == tag,
    ensures
        all_at(list, after, tag),
{
}

/// A list is untouched by a node that joins the arena.
pub proof fn lemma_all_at_grown<P>(list: Seq<usize>, place: Seq<P>, tag: P, to: P)
    requires
        all_at(list, place, tag),
    ensures
        all_at(list, place.push(to), tag),
{
}

/// Moving the last node of a list elsewhere leaves the rest of the list.
pub proof fn lemma_all_at_drop_last<P>(list: Seq<usize>, place: Seq<P>, tag: P, to: P)
    requires
        all_at(list, place, tag),
        list.len() > 0,
    ensures
        all_at(list.drop_last(), place.update(list.last() as int, to), tag),
{
    let rest = list.drop_last();
    assert forall|k: int| 0 <= k < rest.len() implies (#[trigger] rest[k]) != list.last() by {
        assert(rest[k] == list[k]);
    }
}

/// Moving a node from elsewhere to the end of a list.
pub proof fn lemma_all_at_push<P>(list: Seq<usize>, place: Seq<P>, tag: P, i: usize)
    requires
        all_at(list, place, tag),
        i < place.len(),
        place[i as int] != tag,
    ensures
        all_at(list.push(i), place.update(i as int, tag), tag),
{
    let more = list.push(i);
    assert forall|a: int, b: int|
        0 <= a < more.len() && 0 <= b < more.len() && a != b implies more[a] != more[b] by {
        if a < list.len() {
            assert(more[a] == list[a]);
        }
        if b < list.len() {
            assert(more[b] == list[b]);
        }
    }
}

/// Distinct indices below `n` are at most `n` in number.
pub proof fn lemma_distinct_bounded(s: Seq<usize>, n: nat)
    requires
        s.no_duplicates(),
        forall|k: int| 0 <= k < s.len() ==> (#[trigger] s[k]) < n,
    ensures
        s.len() <= n,
    decreases n,
{
    if s.len() == 0 {
    } else if n == 0 {
        assert(s[0] < n);
    } else {
        let m = (n - 1) as nat;
        if exists|j: int| 0 <= j < s.len() && s[j] == m {
            let j = choose|j: int| 0 <= j < s.len() && s[j] == m;
            let rest = s.remove(j);
            assert forall|k: int| 0 <= k < rest.len() implies (#[trigger] rest[k]) < m by {
                if k < j {
                    assert(rest[k] == s[k]);
                } else {
                    assert(rest[k] == s[k + 1]);
                }
            }
            assert(rest.no_duplicates()) by {
                assert forall|a: int, b: int|
                    0 <= a < rest.len() && 0 <= b < rest.len() && a != b implies rest[a]
                    != rest[b] by {
                    let a2 = if a < j {
                        a
                    } else {
                        a + 1
                    };
                    let b2 = if b < j {
                        b
                    } else {
                        b + 1
                    };
                    assert(rest[a] == s[a2] && rest[b] == s[b2]);
                }
            }
            lemma_distinct_bounded(rest, m);
        } else {
            assert forall|k: int| 0 <= k < s.len() implies (#[trigger] s[k]) < m by {
                assert(s[k] < n);
            }
            lemma_distinct_bounded(s, m);
        }
    }
}

/// Distinct indices that all occur in `v` are at most as many as `v` is long.
pub proof fn lemma_distinct_within(s: Seq<usize>, v: Seq<usize>)
    requires
        s.no_duplicates(),
        v.len() <= usize::MAX,
        forall|k: int| 0 <= k < s.len() ==> v.contains(#[trigger] s[k]),
    ensures
        s.len() <= v.len(),
{
    let at = Seq::new(
        s.len(),
        |k: int| (choose|j: int| 0 <= j < v.len() && v[j] == s[k]) as usize,
    );
    assert forall|k: int| 0 <= k < at.len() implies (#[trigger] at[k]) < v.len() && v[at[k] as int]
        == s[k] by {
        assert(v.contains(s[k]));
    }
    assert forall|a: int, b: int| 0 <= a < at.len() && 0 <= b < at.len() && a != b implies at[a]
        != at[b] by {
        assert(v[at[a] as int] == s[a]);
        assert(v[at[b] as int] == s[b]);
    }
    lemma_distinct_bounded(at, v.len());
}

/// A node of the arena: at most one payload and the index of the node below.
pub struct Node<T> {
    pub data: Option<T>,
    pub next: usize,
}

impl<T> Node<T> {
    /// A node without payload, linked to nothing.
    pub fn uninit() -> (node: Self)
        ensures
            node.data is None,
            node.next == NULL,
    {
        Self { data: None, next: NULL }
    }
}

/// Where a node of the arena stands with respect to the stack.
pub enum NodeState {
    /// Part of the stack; holds a payload.
    Linked,
    /// In the hands of an operation: off the stack and in nobody's keeping.
    Held,
    /// Off the stack and without payload, in the keeping of whoever retired it.
    Idle,
}

/// The linked stack itself: the nodes, the index of the node on top, and
/// the number of nodes linked.
pub struct Arena<T> {
    nodes: Vec<Node<T>>,
    top: usize,
    len: usize,
    chain: Ghost<Seq<usize>>,
    state: Ghost<Seq<NodeState>>,
}

impl<T> Arena<T> {
    /// The payloads on the stack, bottom first.
    pub closed spec fn view(&self) -> Seq<T> {
        Seq::new(self.chain@.len(), |k: int| self.nodes@[self.chain@[k] as int].data->Some_0)
    }

    /// Number of nodes in the arena.
    pub closed spec fn node_count(&self) -> nat {
        self.nodes@.len()
    }

    /// The node on top of the stack, or `NULL`.
    pub closed spec fn top_node(&self) -> usize {
        self.top
    }

    /// Where each node stands.
    pub closed spec fn states(&self) -> Seq<NodeState> {
        self.state@
    }

    /// For each node, the node that it points at.
    pub closed spec fn successors(&self) -> Seq<usize> {
        Seq::new(self.nodes@.len(), |i: int| self.nodes@[i].next)
    }

    /// For each node, the payload that it holds.
    pub closed spec fn payloads(&self) -> Seq<Option<T>> {
        Seq::new(self.nodes@.len(), |i: int| self.nodes@[i].data)
    }

    closed spec fn linked(&self, i: int) -> bool {
        self.state@[i] == NodeState::Linked
    }

    /// The linked nodes form the stack, bottom to top, and hold its
    /// payloads; an idle node holds none.
    pub closed spec fn wf(&self) -> bool {
        &&& self.state@.len() == self.nodes@.len() <= usize::MAX
        &&& chain_linked(self.successors(), self.chain@, self.top)
        &&& self.len == self.chain@.len()
        &&& forall|k: int|
            0 <= k < self.chain@.len() ==> self.state@[#[trigger] self.chain@[k] as int]
                == NodeState::Linked
        &&& forall|i: int|
            0 <= i < self.nodes@.len() && #[trigger] self.linked(i) ==> self.chain@.contains(
                i as usize,
            )
        &&& forall|i: int|
            0 <= i < self.nodes@.len() ==> match #[trigger] self.state@[i] {
                NodeState::Linked => self.nodes@[i].data is Some,
                NodeState::Held => true,
                NodeState::Idle => self.nodes@[i].data is None,
            }
    }

    /// What the sequences of a well-formed arena have in common.
    pub proof fn lemma_shape(&self)
        requires
            self.wf(),
        ensures
            self.states().len() == self.node_count(),
            self.successors().len() == self.node_count(),
            self.payloads().len() == self.node_count(),
            self.node_count() <= usize::MAX,
            self@.len() <= self.node_count(),
            forall|i: int|
                0 <= i < self.node_count() ==> (self.states()[i] == NodeState::Linked
                    ==> #[trigger] self.payloads()[i] is Some) && (self.states()[i]
                    == NodeState::Idle ==> self.payloads()[i] is None),
    {
        lemma_distinct_bounded(self.chain@, self.nodes@.len());
    }

    /// The stack is empty exactly when no node is on top; the node on top
    /// is linked and holds the last payload.
    pub proof fn lemma_top(&self)
        requires
            self.wf(),
        ensures
            self.top_node() == NULL <==> self@.len() == 0,
            self.top_node() != NULL ==> {
                &&& self.top_node() < self.node_count()
                &&& self.states()[self.top_node() as int] == NodeState::Linked
                &&& self.payloads()[self.top_node() as int] == Some(self@.last())
            },
    {
        if self.chain@.len() > 0 {
            let c = self.chain@[self.chain@.len() - 1];
            assert(self.state@[c as int] == NodeState::Linked);
        }
    }

    /// An arena without nodes.
    pub fn new() -> (a: Self)
        ensures
            a.wf(),
            a@ == Seq::<T>::empty(),
            a.node_count() == 0,
            a.top_node() == NULL,
            a.states() == Seq::<NodeState>::empty(),
    {
        let a = Self {
            nodes: Vec::new(),
            top: NULL,
            len: 0,
            chain: Ghost(Seq::empty()),
            state: Ghost(Seq::empty()),
        };
        assert(a@ =~= Seq::<T>::empty());
        a
    }

    /// The node on top of the stack, or `NULL`.
    pub fn top(&self) -> (r: usize)
        ensures
            r == self.top_node(),
    {
        self.top
    }

    /// Number of payloads on the stack.
    pub fn len(&self) -> (n: usize)
        requires
            self.wf(),
        ensures
            n == self@.len(),
    {
        self.len
    }

    /// Number of nodes in the arena.
    pub fn count(&self) -> (n: usize)
        requires
            self.wf(),
        ensures
            n == self.node_count(),
    {
        self.nodes.len()
    }

    /// The node that node `idx` points at.
    pub fn next(&self, idx: usize) -> (r: usize)
        requires
            idx < self.node_count(),
        ensures
            r == self.successors()[idx as int],
    {
        self.nodes[idx].next
    }

    /// Adds `node` to the arena as a held node and hands out its index.
    pub fn insert(&mut self, node: Node<T>) -> (idx: usize)
        requires
            old(self).wf(),
        ensures
            final(self).wf(),
            idx == old(self).node_count(),
            idx != NULL,
            final(self).node_count() == old(self).node_count() + 1,
            final(self)@ == old(self)@,
            final(self).top_node() == old(self).top_node(),
            final(self).states() == old(self).states().push(NodeState::Held),
            final(self).successors() == old(self).successors().push(node.next),
            final(self).payloads() == old(self).payloads().push(node.data),
    {
        self.nodes.push(node);
        let n = self.nodes.len();
        proof {
            self.state@ = self.state@.push(NodeState::Held);
            assert(self.successors() =~= old(self).successors().push(node.next));
            assert(self.payloads() =~= old(self).payloads().push(node.data));
            assert forall|k: int|
                0 <= k < self.chain@.len() implies #[trigger] self.successors()[self.chain@[k] as int]
                == old(self).successors()[self.chain@[k] as int] by {}
            assert forall|i: int|
                0 <= i < self.nodes@.len() && #[trigger] self.linked(i)
                    implies self.chain@.contains(
                #[verifier::truncate] (i as usize)) by {
                assert(old(self).linked(i));
            }
            assert(self@ =~= old(self)@);
        }
        n - 1
    }

    /// Takes the idle node `idx` in hand and stores `node` in it.
    pub fn store(&mut self, idx: usize, node: Node<T>)
        requires
            old(self).wf(),
            idx < old(self).node_count(),
            old(self).states()[idx as int] == NodeState::Idle,
        ensures
            final(self).wf(),
            final(self).node_count() == old(self).node_count(),
            final(self)@ == old(self)@,
            final(self).top_node() == old(self).top_node(),
            final(self).states() == old(self).states().update(idx as int, NodeState::Held),
            final(self).successors() == old(self).successors().update(idx as int, node.next),
            final(self).payloads() == old(self).payloads().update(idx as int, node.data),
    {
        self.nodes[idx] = node;
        proof {
            self.state@ = self.state@.update(idx as int, NodeState::Held);
            assert(self.successors() =~= old(self).successors().update(idx as int, node.next));
            assert(self.payloads() =~= old(self).payloads().update(idx as int, node.data));
            assert forall|k: int|
                0 <= k < self.chain@.len() implies #[trigger] self.successors()[self.chain@[k] as int]
                == old(self).successors()[self.chain@[k] as int] && self.chain@[k] != idx by {
                assert(old(self).state@[self.chain@[k] as int] == NodeState::Linked);
            }
            assert forall|i: int|
                0 <= i < self.nodes@.len() && #[trigger] self.linked(i)
                    implies self.chain@.contains(
                #[verifier::truncate] (i as usize)) by {
                assert(old(self).linked(i));
            }
            assert(self@ =~= old(self)@);
        }
    }

    /// Points the held node `idx` at `next`.
    pub fn set_next(&mut self, idx: usize, next: usize)
        requires
            old(self).wf(),
            idx < old(self).node_count(),
            old(self).states()[idx as int] == NodeState::Held,
        ensures
            final(self).wf(),
            final(self).node_count() == old(self).node_count(),
            final(self)@ == old(self)@,
            final(self).top_node() == old(self).top_node(),
            final(self).states() == old(self).states(),
            final(self).successors() == old(self).successors().update(idx as int, next),
            final(self).payloads() == old(self).payloads(),
    {
        self.nodes[idx].next = next;
        proof {
            assert(self.successors() =~= old(self).successors().update(idx as int, next));
            assert(self.payloads() =~= old(self).payloads());
            assert forall|k: int|
                0 <= k < self.chain@.len() implies #[trigger] self.successors()[self.chain@[k] as int]
                == old(self).successors()[self.chain@[k] as int] && self.chain@[k] != idx by {
                assert(old(self).state@[self.chain@[k] as int] == NodeState::Linked);
            }
            assert forall|i: int|
                0 <= i < self.nodes@.len() && #[trigger] self.linked(i)
                    implies self.chain@.contains(
                #[verifier::truncate] (i as usize)) by {
                assert(old(self).linked(i));
            }
            assert(self@ =~= old(self)@);
        }
    }

    /// Compare-and-swap of the top from `expected` to the held node `idx`,
    /// which holds a payload and points at `expected`. It succeeds exactly
    /// when `expected` is on top; the node is then linked on top of it.
    pub fn link(&mut self, idx: usize, expected: usize) -> (r: Result<(), usize>)
        requires
            old(self).wf(),
            idx < old(self).node_count(),
            old(self).states()[idx as int] == NodeState::Held,
            old(self).payloads()[idx as int] is Some,
            old(self).successors()[idx as int] == expected,
        ensures
            final(self).wf(),
            final(self).node_count() == old(self).node_count(),
            final(self).successors() == old(self).successors(),
            final(self).payloads() == old(self).payloads(),
            old(self).top_node() == expected ==> {
                &&& r is Ok
                &&& final(self)@ == old(self)@.push(old(self).payloads()[idx as int]->Some_0)
                &&& final(self).top_node() == idx
                &&& final(self).states() == old(self).states().update(
                    idx as int,
                    NodeState::Linked,
                )
            },
            old(self).top_node() != expected ==> {
                &&& r == Err::<(), usize>(old(self).top_node())
                &&& final(self)@ == old(self)@
                &&& final(self).top_node() == old(self).top_node()
                &&& final(self).states() == old(self).states()
            },
    {
        if self.top != expected {
            return Err(self.top);
        }
        proof {
            let more = self.chain@.push(idx);
            assert(more.no_duplicates()) by {
                assert forall|a: int, b: int|
                    0 <= a < more.len() && 0 <= b < more.len() && a != b implies more[a]
                    != more[b] by {
                    if a < self.chain@.len() {
                        assert(self.state@[self.chain@[a] as int] == NodeState::Linked);
                    }
                    if b < self.chain@.len() {
                        assert(self.state@[self.chain@[b] as int] == NodeState::Linked);
                    }
                }
            }
            lemma_distinct_bounded(more, self.nodes@.len());
        }
        self.top = idx;
        self.len = self.len + 1;
        proof {
            let chain = old(self).chain@;
            self.chain@ = chain.push(idx);
            self.state@ = self.state@.update(idx as int, NodeState::Linked);
            let more = self.chain@;
            assert(self.successors() =~= old(self).successors());
            assert forall|k: int| 0 <= k < chain.len() implies chain[k] != idx && more[k]
                == chain[k] by {
                assert(old(self).state@[chain[k] as int] == NodeState::Linked);
            }
            assert forall|k: int|
                0 <= k < more.len() implies #[trigger] self.successors()[more[k] as int]
                == if k == 0 {
                NULL
            } else {
                more[k - 1]
            } by {
                if k < chain.len() {
                    assert(old(self).successors()[chain[k] as int] == if k == 0 {
                        NULL
                    } else {
                        chain[k - 1]
                    });
                }
            }
            assert forall|i: int|
                0 <= i < self.nodes@.len() && #[trigger] self.linked(i) implies more.contains(
                #[verifier::truncate] (i as usize)) by {
                if i == idx {
                    assert(more[more.len() - 1] == idx);
                } else {
                    assert(old(self).linked(i));
                    let k = choose|k: int| 0 <= k < chain.len() && chain[k] == i;
                    assert(more[k] == i);
                }
            }
            assert(self@ =~= old(self)@.push(old(self).payloads()[idx as int]->Some_0));
        }
        Ok(())
    }

    /// Compare-and-swap of the top from the node `expected` to `next`,
    /// where `next` is the node that `expected` points at if `expected` is
    /// on top. It succeeds exactly when `expected` is on top; the node is
    /// then off the stack and in the caller's hands.
    pub fn unlink(&mut self, expected: usize, next: usize) -> (r: Result<(), usize>)
        requires
            old(self).wf(),
            expected != NULL,
            old(self).top_node() == expected ==> next == old(self).successors()[expected as int],
        ensures
            final(self).wf(),
            final(self).node_count() == old(self).node_count(),
            final(self).successors() == old(self).successors(),
            final(self).payloads() == old(self).payloads(),
            old(self).top_node() == expected ==> {
                &&& r is Ok
                &&& old(self)@.len() > 0
                &&& final(self)@ == old(self)@.drop_last()
                &&& final(self).top_node() == next
                &&& final(self).states() == old(self).states().update(
                    expected as int,
                    NodeState::Held,
                )
            },
            old(self).top_node() != expected ==> {
                &&& r == Err::<(), usize>(old(self).top_node())
                &&& final(self)@ == old(self)@
                &&& final(self).top_node() == old(self).top_node()
                &&& final(self).states() == old(self).states()
            },
    {
        if self.top != expected {
            return Err(self.top);
        }
        proof {
            old(self).lemma_top();
        }
        self.top = next;
        self.len = self.len - 1;
        proof {
            let chain = old(self).chain@;
            let c = expected;
            self.chain@ = chain.drop_last();
            self.state@ = self.state@.update(c as int, NodeState::Held);
            let rest = self.chain@;
            assert(chain.len() > 0 && chain[chain.len() - 1] == c);
            assert(self.successors() =~= old(self).successors());
            assert(old(self).successors()[chain[chain.len() - 1] as int] == if chain.len() - 1
                == 0 {
                NULL
            } else {
                chain[chain.len() - 2]
            });
            assert forall|k: int| 0 <= k < rest.len() implies rest[k] == chain[k] && rest[k]
                != c by {}
            assert forall|k: int|
                0 <= k < rest.len() implies #[trigger] self.successors()[rest[k] as int]
                == if k == 0 {
                NULL
            } else {
                rest[k - 1]
            } by {
                assert(old(self).successors()[chain[k] as int] == if k == 0 {
                    NULL
                } else {
                    chain[k - 1]
                });
            }
            assert forall|k: int| 0 <= k < rest.len() implies self.state@[#[trigger] rest[k] as int]
                == NodeState::Linked by {
                assert(old(self).state@[chain[k] as int] == NodeState::Linked);
            }
            assert forall|i: int|
                0 <= i < self.nodes@.len() && #[trigger] self.linked(i) implies rest.contains(
                #[verifier::truncate] (i as usize)) by {
                assert(old(self).linked(i));
                let k = choose|k: int| 0 <= k < chain.len() && chain[k] == i;
                assert(rest[k] == i);
            }
            assert(self@ =~= old(self)@.drop_last());
        }
        Ok(())
    }

    /// Moves the payload out of the held node `idx`.
    pub fn take(&mut self, idx: usize) -> (r: Option<T>)
        requires
            old(self).wf(),
            idx < old(self).node_count(),
            old(self).states()[idx as int] == NodeState::Held,
        ensures
            final(self).wf(),
            r == old(self).payloads()[idx as int],
            final(self).node_count() == old(self).node_count(),
            final(self)@ == old(self)@,
            final(self).top_node() == old(self).top_node(),
            final(self).states() == old(self).states(),
            final(self).successors() == old(self).successors(),
            final(self).payloads() == old(self).payloads().update(idx as int, None),
    {
        let r = self.nodes[idx].data.take();
        proof {
            assert(self.successors() =~= old(self).successors());
            assert(self.payloads() =~= old(self).payloads().update(idx as int, None));
            assert forall|k: int| 0 <= k < self.chain@.len() implies self.chain@[k] != idx by {
                assert(old(self).state@[self.chain@[k] as int] == NodeState::Linked);
            }
            assert forall|i: int|
                0 <= i < self.nodes@.len() && #[trigger] self.linked(i)
                    implies self.chain@.contains(
                #[verifier::truncate] (i as usize)) by {
                assert(old(self).linked(i));
            }
            assert(self@ =~= old(self)@);
        }
        r
    }

    /// Lets go of the held node `idx`, which holds no payload: it is idle
    /// from now on, in the keeping of the caller.
    pub fn retire(&mut self, idx: usize)
        requires
            old(self).wf(),
            idx < old(self).node_count(),
            old(self).states()[idx as int] == NodeState::Held,
            old(self).payloads()[idx as int] is None,
        ensures
            final(self).wf(),
            final(self).node_count() == old(self).node_count(),
            final(self)@ == old(self)@,
            final(self).top_node() == old(self).top_node(),
            final(self).states() == old(self).states().update(idx as int, NodeState::Idle),
            final(self).successors() == old(self).successors(),
            final(self).payloads() == old(self).payloads(),
    {
        proof {
            self.state@ = self.state@.update(idx as int, NodeState::Idle);
            assert(self.successors() =~= old(self).successors());
            assert(self.payloads() =~= old(self).payloads());
            assert forall|i: int|
                0 <= i < self.nodes@.len() && #[trigger] self.linked(i)
                    implies self.chain@.contains(
                #[verifier::truncate] (i as usize)) by {
                assert(old(self).linked(i));
            }
            assert(self@ =~= old(self)@);
        }
    }
}

/// What a pop returns when the stack holds `s`.
pub open spec fn top_of<T>(s: Seq<T>) -> Option<T> {
    if s.len() > 0 {
        Some(s.last())
    } else {
        None
    }
}

/// What the stack holds after a pop when it held `s`.
pub open spec fn without_top<T>(s: Seq<T>) -> Seq<T> {
    if s.len() > 0 {
        s.drop_last()
    } else {
        s
    }
}

/// What the stack holds after the values of `xs` were pushed in order.
pub open spec fn push_all<T>(s: Seq<T>, xs: Seq<T>) -> Seq<T>
    decreases xs.len(),
{
    if xs.len() == 0 {
        s
    } else {
        push_all(s, xs.drop_last()).push(xs.last())
    }
}

/// What the stack holds after `n` pops.
pub open spec fn pop_n<T>(s: Seq<T>, n: nat) -> Seq<T>
    decreases n,
{
    if n == 0 {
        s
    } else {
        without_top(pop_n(s, (n - 1) as nat))
    }
}

/// The payloads that come out when the stack is popped until it is empty,
/// in the order in which they come out.
pub open spec fn drained<T>(s: Seq<T>) -> Seq<T>
    decreases s.len(),
{
    if s.len() == 0 {
        Seq::empty()
    } else {
        seq![s.last()].add(drained(s.drop_last()))
    }
}

/// Pushing keeps what was there and adds the pushed values on top: no
/// push is lost, whatever the order in which several participants push.
pub proof fn lemma_push_all<T>(s: Seq<T>, xs: Seq<T>)
    ensures
        push_all(s, xs) == s + xs,
        push_all(s, xs).len() == s.len() + xs.len(),
        push_all(s, xs).to_multiset() == s.to_multiset().add(xs.to_multiset()),
    decreases xs.len(),
{
    broadcast use vstd::seq_lib::group_to_multiset_ensures;

    if xs.len() == 0 {
        assert(s + xs =~= s);
        assert(xs.to_multiset() =~= Multiset::<T>::empty());
        assert(s.to_multiset().add(xs.to_multiset()) =~= s.to_multiset());
    } else {
        lemma_push_all(s, xs.drop_last());
        assert((s + xs.drop_last()).push(xs.last()) =~= s + xs);
        assert(xs.drop_last().push(xs.last()) =~= xs);
        assert(xs.to_multiset() =~= xs.drop_last().to_multiset().insert(xs.last()));
        assert((s + xs).to_multiset() =~= (s + xs.drop_last()).to_multiset().insert(xs.last()));
        assert((s + xs).to_multiset() =~= s.to_multiset().add(xs.to_multiset()));
    }
}

/// After `n` pops the stack holds what it held without its `n` topmost
/// payloads, and the pop that follows returns the payload that was `n`
/// places below the top: each pop takes exactly one payload away.
pub proof fn lemma_pop_n<T>(s: Seq<T>, n: nat)
    ensures
        pop_n(s, n) == if n <= s.len() {
            s.take(s.len() - n)
        } else {
            Seq::empty()
        },
        pop_n(s, n).len() == if n <= s.len() {
            s.len() - n
        } else {
            0
        },
        top_of(pop_n(s, n)) == if n < s.len() {
            Some(s[s.len() - 1 - n])
        } else {
            None
        },
    decreases n,
{
    if n == 0 {
        assert(s.take(s.len() as int) =~= s);
    } else {
        lemma_pop_n(s, (n - 1) as nat);
        if n <= s.len() {
            assert(s.take(s.len() - n + 1).drop_last() =~= s.take(s.len() - n));
        } else {
            assert(pop_n(s, n) =~= Seq::<T>::empty());
        }
    }
}

/// Popping until empty succeeds once for each payload held and hands out
/// exactly the payloads held, the one pushed last first: none is lost,
/// none comes out twice, and none is made up.
pub proof fn lemma_drained<T>(s: Seq<T>)
    ensures
        drained(s) == s.reverse(),
        drained(s).len() == s.len(),
        drained(s).to_multiset() == s.to_multiset(),
        forall|k: nat| k < s.len() ==> top_of(pop_n(s, k)) == Some(#[trigger] drained(s)[k as int]),
        top_of(pop_n(s, s.len())) is None,
    decreases s.len(),
{
    if s.len() == 0 {
        assert(drained(s) =~= s.reverse());
    } else {
        lemma_drained(s.drop_last());
        assert(drained(s) =~= s.reverse());
    }
    s.lemma_reverse_to_multiset();
    assert forall|k: nat| k < s.len() implies top_of(pop_n(s, k)) == Some(
        #[trigger] drained(s)[k as int],
    ) by {
        lemma_pop_n(s, k);
    }
    lemma_pop_n(s, s.len());
}

/// Last in, first out: payloads pushed one after another onto an empty
/// stack come out in exactly the reverse order, and then the stack is empty.
pub proof fn lemma_lifo<T>(xs: Seq<T>)
    ensures
        drained(push_all(Seq::<T>::empty(), xs)) == xs.reverse(),
        forall|k: nat|
            k < xs.len() ==> #[trigger] top_of(pop_n(push_all(Seq::<T>::empty(), xs), k)) == Some(
                xs[xs.len() - 1 - k],
            ),
        top_of(pop_n(push_all(Seq::<T>::empty(), xs), xs.len())) is None,
{
    let s = push_all(Seq::<T>::empty(), xs);
    lemma_push_all(Seq::<T>::empty(), xs);
    assert(Seq::<T>::empty() + xs =~= xs);
    lemma_drained(xs);
    assert forall|k: nat| k < xs.len() implies #[trigger] top_of(pop_n(s, k)) == Some(
        xs[xs.len() - 1 - k],
    ) by {
        lemma_pop_n(xs, k);
    }
    lemma_pop_n(xs, xs.len());
}

} // verus!
