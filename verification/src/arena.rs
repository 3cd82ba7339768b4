//! Slot storage for linked nodes.
//!
//! Nodes live in one growable vector and refer to each other by position.
//! A link is therefore a plain number: holding one keeps nothing alive, and a
//! second number naming the same slot (such as a list's tail) is harmless.
//! Slots whose element has been removed are threaded onto a free chain and
//! handed out again before the vector grows.

use crate::chain::{
    all_vacant, is_chain, lemma_chain_frame, lemma_chain_front_added, lemma_chain_suffix,
    lemma_replace_elem_elsewhere, linked_at, with_elem,
};
use vstd::prelude::*;

verus! {

/// One slot: an element (absent while the slot is vacant) and the position of
/// the slot that follows it in whichever chain the slot is on.
pub(crate) struct Node<T> {
    pub(crate) elem: Option<T>,
    pub(crate) next: Option<usize>,
}

/// The slot store together with the head of its free chain.
pub(crate) struct Arena<T> {
    pub(crate) slots: Vec<Node<T>>,
    pub(crate) free: Option<usize>,
    /// The vacant slots, in the order in which the free chain visits them.
    pub(crate) spare: Ghost<Seq<usize>>,
}

impl<T> Arena<T> {
    /// The free chain is a chain of vacant slots.
    pub(crate) open spec fn wf(&self) -> bool {
        &&& is_chain(self.slots@, self.free, self.spare@)
        &&& all_vacant(self.slots@, self.spare@)
    }

    /// A store without slots.
    pub(crate) fn new() -> (arena: Self)
        ensures
            arena.wf(),
            arena.slots@.len() == 0,
            arena.spare@.len() == 0,
    {
        Arena { slots: Vec::new(), free: None, spare: Ghost(Seq::empty()) }
    }

    /// Stores a node and returns its position. The first slot of the free
    /// chain is reused when there is one; otherwise the store grows by one
    /// slot.
    pub(crate) fn occupy(&mut self, elem: T, next: Option<usize>) -> (at: usize)
        requires
            old(self).wf(),
        ensures
            final(self).wf(),
            old(self).spare@.len() > 0 ==> {
                &&& at == old(self).spare@[0]
                &&& at < old(self).slots@.len()
                &&& final(self).spare@ == old(self).spare@.skip(1)
                &&& final(self).slots@ == old(self).slots@.update(
                    at as int,
                    Node { elem: Some(elem), next },
                )
            },
            old(self).spare@.len() == 0 ==> {
                &&& at == old(self).slots@.len()
                &&& final(self).spare@ == old(self).spare@
                &&& final(self).slots@ == old(self).slots@.push(Node { elem: Some(elem), next })
            },
    {
        match self.free {
            Some(at) => {
                let ghost before = self.slots@;
                let ghost path = self.spare@;
                proof {
                    assert(linked_at(before, path, 0));
                }
                let rest: Option<usize> = self.slots[at].next;
                self.slots[at] = Node { elem: Some(elem), next };
                self.free = rest;
                self.spare = Ghost(path.skip(1));
                proof {
                    let after = self.slots@;
                    assert forall|i: int| 1 <= i < path.len() implies
                        #[trigger] after[path[i] as int] == before[path[i] as int]
                    by {
                        assert(linked_at(before, path, i));
                        assert(path[i] != path[0]);
                    }
                    lemma_chain_suffix(before, after, Some(at), path, 1);
                    assert forall|i: int| 0 <= i < path.skip(1).len() implies (
                    #[trigger] after[path.skip(1)[i] as int]).elem is None by {
                        assert(path.skip(1)[i] == path[i + 1]);
                        assert(after[path[i + 1] as int] == before[path[i + 1] as int]);
                    }
                }
                at
            },
            None => {
                let at: usize = self.slots.len();
                self.slots.push(Node { elem: Some(elem), next });
                at
            },
        }
    }

    /// Empties the occupied slot `at`, puts it at the front of the free chain
    /// and returns the element it held.
    pub(crate) fn vacate(&mut self, at: usize) -> (elem: T)
        requires
            old(self).wf(),
            at < old(self).slots@.len(),
            old(self).slots@[at as int].elem is Some,
        ensures
            final(self).wf(),
            elem == old(self).slots@[at as int].elem.unwrap(),
            final(self).spare@ == seq![at] + old(self).spare@,
            final(self).slots@ == old(self).slots@.update(
                at as int,
                Node { elem: None, next: old(self).free },
            ),
    {
        let ghost before = self.slots@;
        let ghost path = self.spare@;
        let rest: Option<usize> = self.free;
        let elem: Option<T> = self.slots[at].elem.take();
        self.slots[at].next = rest;
        self.free = Some(at);
        self.spare = Ghost(seq![at] + path);
        proof {
            let after = self.slots@;
            let longer = seq![at] + path;
            assert(after =~= before.update(at as int, Node { elem: None, next: rest }));
            assert forall|i: int| 0 <= i < path.len() implies #[trigger] after[path[i] as int]
                == before[path[i] as int] && path[i] != at by {
                assert(linked_at(before, path, i));
                assert(before[path[i] as int].elem is None);
            }
            lemma_chain_frame(before, after, rest, path);
            lemma_chain_front_added(after, rest, path, at);
            assert forall|i: int| 0 <= i < longer.len() implies
                (#[trigger] after[longer[i] as int]).elem is None
            by {
                if i > 0 {
                    assert(longer[i] == path[i - 1]);
                    assert(after[path[i - 1] as int] == before[path[i - 1] as int]);
                }
            }
        }
        elem.unwrap()
    }

    /// The link stored in slot `at`.
    pub(crate) fn next_of(&self, at: usize) -> (next: Option<usize>)
        requires
            at < self.slots@.len(),
        ensures
            next == self.slots@[at as int].next,
    {
        self.slots[at].next
    }

    /// Replaces the link stored in the occupied slot `at`.
    pub(crate) fn set_next(&mut self, at: usize, next: Option<usize>)
        requires
            old(self).wf(),
            at < old(self).slots@.len(),
            old(self).slots@[at as int].elem is Some,
        ensures
            final(self).wf(),
            final(self).spare@ == old(self).spare@,
            final(self).slots@ == old(self).slots@.update(
                at as int,
                Node { elem: old(self).slots@[at as int].elem, next },
            ),
    {
        let ghost before = self.slots@;
        let ghost path = self.spare@;
        self.slots[at].next = next;
        proof {
            let after = self.slots@;
            assert(after =~= before.update(at as int, Node { elem: before[at as int].elem, next }));
            assert forall|i: int| 0 <= i < path.len() implies #[trigger] after[path[i] as int]
                == before[path[i] as int] by {
                assert(linked_at(before, path, i));
                assert(before[path[i] as int].elem is None);
            }
            lemma_chain_frame(before, after, self.free, path);
        }
    }

    /// The element held by the occupied slot `at`.
    pub(crate) fn elem_ref(&self, at: usize) -> (elem: &T)
        requires
            at < self.slots@.len(),
            self.slots@[at as int].elem is Some,
        ensures
            *elem == self.slots@[at as int].elem.unwrap(),
    {
        self.slots[at].elem.as_ref().unwrap()
    }

    /// Mutable access to the element held by the occupied slot `at`. Whatever
    /// is written through the reference, the slot stays occupied and keeps
    /// its link. The result is never `None`.
    pub(crate) fn elem_mut(&mut self, at: usize) -> (elem: Option<&mut T>)
        requires
            old(self).wf(),
            at < old(self).slots@.len(),
            old(self).slots@[at as int].elem is Some,
        ensures
            elem is Some,
            *elem.unwrap() == old(self).slots@[at as int].elem.unwrap(),
            final(self).wf(),
            final(self).free == old(self).free,
            final(self).spare@ == old(self).spare@,
            final(self).slots@ == with_elem(old(self).slots@, at, *final(elem.unwrap())),
        no_unwind
    {
        proof {
            assert forall|node: Node<T>|
                node.elem is Some && node.next == self.slots@[at as int].next implies is_chain(
                    #[trigger] self.slots@.update(at as int, node),
                    self.free,
                    self.spare@,
                ) && all_vacant(self.slots@.update(at as int, node), self.spare@) by {
                lemma_replace_elem_elsewhere(
                    self.slots@,
                    self.free,
                    self.spare@,
                    at,
                    node.elem.unwrap(),
                );
            }
        }
        let node = &mut self.slots[at];
        match &mut node.elem {
            Some(elem) => Some(elem),
            None => None,
        }
    }
}

} // verus!
