//! A singly linked list with constant-time insertion at both ends.
//!
//! The nodes are held in an [`Arena`]; the list owns the chain that starts at
//! `head` and remembers, as a bare position, the slot the chain ends at. That
//! remembered position is what makes `push_back` constant-time, and every
//! operation below re-establishes that it names the true last node.

use crate::arena::Arena;
use crate::chain::{
    all_occupied, chain_end, elements, follow, is_chain, lemma_beside, lemma_extend_back,
    lemma_extend_front, lemma_follow_chain, lemma_prefix, lemma_replace_elem, lemma_suffix,
    lemma_untouched, linked_at, with_elem,
};
use vstd::prelude::*;

mod collect;
mod compare;
mod iter;
mod replicate;

pub use compare::{lex_cmp, lex_partial_cmp, seq_eq};
pub use iter::{IntoIter, Iter, IterMut};
pub use replicate::is_copy_of;

verus! {

/// A sequence of elements, linked front to back.
///
/// Its view is the sequence of its elements in front-to-back order.
pub struct List<T> {
    arena: Arena<T>,
    head: Option<usize>,
    tail: Option<usize>,
    len: usize,
    /// The slot of each element, front to back.
    order: Ghost<Seq<usize>>,
}

impl<T> View for List<T> {
    type V = Seq<T>;

    closed spec fn view(&self) -> Seq<T> {
        elements(self.arena.slots@, self.order@)
    }
}

impl<T> List<T> {
    /// The structural invariant. `head` starts a chain of occupied slots in
    /// which no slot occurs twice and whose last link is empty; `tail` names
    /// the slot that chain ends at, and is empty exactly when `head` is;
    /// `len` counts the chain; every slot that is not on the chain is on the
    /// arena's free chain.
    #[verifier::type_invariant]
    pub closed spec fn wf(&self) -> bool {
        &&& self.arena.wf()
        &&& is_chain(self.arena.slots@, self.head, self.order@)
        &&& all_occupied(self.arena.slots@, self.order@)
        &&& self.tail == chain_end(self.order@)
        &&& self.len == self.order@.len()
        &&& self.order@.len() + self.arena.spare@.len() == self.arena.slots@.len()
    }

    /// The elements met when following links from the head until a link is
    /// empty.
    pub closed spec fn linked_elements(&self) -> Seq<T> {
        follow(self.arena.slots@, self.head, self.arena.slots@.len())
    }

    /// The view of a list is what a walk along its links meets: the list
    /// holds as many elements as are reachable from its head, and in that
    /// order.
    pub proof fn lemma_view_is_linked_elements(&self)
        requires
            self.wf(),
        ensures
            self@ == self.linked_elements(),
            self@.len() == self.linked_elements().len(),
    {
        lemma_follow_chain(self.arena.slots@, self.head, self.order@, self.arena.slots@.len());
    }

    /// An empty list.
    pub fn new() -> (list: Self)
        ensures
            list@ == Seq::<T>::empty(),
    {
        let list = List {
            arena: Arena::new(),
            head: None,
            tail: None,
            len: 0,
            order: Ghost(Seq::empty()),
        };
        assert(list@ =~= Seq::<T>::empty());
        list
    }

    /// The number of elements.
    pub fn len(&self) -> (n: usize)
        ensures
            n == self@.len(),
    {
        proof {
            use_type_invariant(self);
        }
        self.len
    }

    /// Whether the list has no elements.
    pub fn empty(&self) -> (r: bool)
        ensures
            r == (self@.len() == 0),
    {
        proof {
            use_type_invariant(self);
        }
        self.len == 0
    }

    /// Moves the list out of `self`, which is left empty. A list cannot be
    /// changed field by field, since each change alone would break what the
    /// fields promise of each other; the operations that relink take the list
    /// apart, work on the parts, and put a list together again.
    fn detach(&mut self) -> (this: Self)
        ensures
            this == *old(self),
            this.wf(),
            final(self)@ == Seq::<T>::empty(),
    {
        let mut this = List::new();
        std::mem::swap(self, &mut this);
        proof {
            use_type_invariant(&this);
        }
        this
    }

    /// Puts `elem` before all other elements.
    pub fn push_front(&mut self, elem: T)
        ensures
            final(self)@ == seq![elem] + old(self)@,
    {
        let List { mut arena, head, tail, len, order } = self.detach();
        let ghost before = arena.slots@;
        let at: usize = arena.occupy(elem, head);
        proof {
            vstd::std_specs::vec::axiom_spec_len(&arena.slots);
            lemma_beside(before, arena.slots@, head, order@, at);
            lemma_extend_front(arena.slots@, head, order@, at);
        }
        let tail: Option<usize> = if tail.is_none() {
            Some(at)
        } else {
            tail
        };
        *self = List { arena, head: Some(at), tail, len: len + 1, order: Ghost(seq![at] + order@) };
    }

    /// Puts `elem` after all other elements. The node that was last is found
    /// through the remembered tail position, without a walk.
    pub fn push_back(&mut self, elem: T)
        ensures
            final(self)@ == old(self)@.push(elem),
    {
        let List { mut arena, head, tail, len, order } = self.detach();
        let ghost before = arena.slots@;
        let at: usize = arena.occupy(elem, None);
        let ghost grown = arena.slots@;
        proof {
            vstd::std_specs::vec::axiom_spec_len(&arena.slots);
            lemma_beside(before, grown, head, order@, at);
        }
        let head: Option<usize> = match tail {
            None => {
                proof {
                    lemma_extend_front(grown, head, order@, at);
                    assert(seq![at] + order@ =~= order@.push(at));
                    assert(seq![elem] + elements(grown, order@) =~= elements(grown, order@).push(
                        elem,
                    ));
                }
                Some(at)
            },
            Some(last) => {
                proof {
                    assert(linked_at(grown, order@, len - 1));
                    assert(grown[order@[len - 1] as int].elem is Some);
                }
                arena.set_next(last, Some(at));
                proof {
                    assert forall|i: int| 0 <= i < len - 1 implies
                        #[trigger] arena.slots@[order@[i] as int] == grown[order@[i] as int]
                    by {
                        assert(linked_at(grown, order@, i));
                    }
                    lemma_extend_back(grown, arena.slots@, head, order@, at);
                }
                head
            },
        };
        *self = List { arena, head, tail: Some(at), len: len + 1, order: Ghost(order@.push(at)) };
    }

    /// Removes the first element and returns it; `None` when the list is
    /// empty.
    pub fn pop_front(&mut self) -> (r: Option<T>)
        ensures
            old(self)@.len() == 0 ==> r is None && final(self)@ == old(self)@,
            old(self)@.len() > 0 ==> r == Some(old(self)@[0]) && final(self)@ == old(self)@.skip(1),
    {
        proof {
            use_type_invariant(&*self);
        }
        match self.head {
            None => None,
            Some(at) => {
                let List { mut arena, head, tail, len, order } = self.detach();
                let ghost before = arena.slots@;
                proof {
                    assert(linked_at(before, order@, 0));
                    assert(before[order@[0] as int].elem is Some);
                }
                let next: Option<usize> = arena.next_of(at);
                let elem: T = arena.vacate(at);
                proof {
                    assert forall|i: int| 1 <= i < len implies
                        #[trigger] arena.slots@[order@[i] as int] == before[order@[i] as int]
                    by {
                        assert(linked_at(before, order@, i));
                    }
                    lemma_suffix(before, arena.slots@, head, order@, 1);
                }
                let tail: Option<usize> = if next.is_none() {
                    None
                } else {
                    tail
                };
                *self = List {
                    arena,
                    head: next,
                    tail,
                    len: len - 1,
                    order: Ghost(order@.skip(1)),
                };
                Some(elem)
            },
        }
    }

    /// The slot of the element at position `index`, found by following links
    /// from the head.
    fn slot_at(&self, index: usize) -> (at: usize)
        requires
            index < self.order@.len(),
        ensures
            at == self.order@[index as int],
    {
        proof {
            use_type_invariant(self);
            assert(linked_at(self.arena.slots@, self.order@, 0));
        }
        let mut at: usize = self.head.unwrap();
        let mut step: usize = 0;
        while step < index
            invariant
                self.wf(),
                step <= index < self.order@.len(),
                at == self.order@[step as int],
            decreases index - step,
        {
            proof {
                assert(linked_at(self.arena.slots@, self.order@, step as int));
            }
            at = self.arena.next_of(at).unwrap();
            step = step + 1;
        }
        at
    }

    /// Removes the last element and returns it; `None` when the list is
    /// empty. The slot before the last is reached by walking from the head.
    pub fn pop_back(&mut self) -> (r: Option<T>)
        ensures
            old(self)@.len() == 0 ==> r is None && final(self)@ == old(self)@,
            old(self)@.len() > 0 ==> r == Some(old(self)@.last()) && final(self)@ == old(
                self,
            )@.drop_last(),
    {
        proof {
            use_type_invariant(&*self);
        }
        match self.tail {
            None => None,
            Some(last) => {
                if self.len == 1 {
                    let r = self.pop_front();
                    proof {
                        assert(old(self)@.skip(1) =~= old(self)@.drop_last());
                    }
                    r
                } else {
                    let prev: usize = self.slot_at(self.len - 2);
                    let List { mut arena, head, tail, len, order } = self.detach();
                    let ghost before = arena.slots@;
                    proof {
                        assert(linked_at(before, order@, len - 2));
                        assert(linked_at(before, order@, len - 1));
                        assert(before[order@[len - 2] as int].elem is Some);
                        assert(before[order@[len - 1] as int].elem is Some);
                    }
                    arena.set_next(prev, None);
                    let elem: T = arena.vacate(last);
                    proof {
                        assert forall|i: int| 0 <= i < len - 2 implies
                            #[trigger] arena.slots@[order@[i] as int] == before[order@[i] as int]
                        by {
                            assert(linked_at(before, order@, i));
                        }
                        lemma_prefix(before, arena.slots@, head, order@, len - 1);
                        assert(order@.take(len - 1) =~= order@.drop_last());
                        assert(elements(before, order@).take(len - 1) =~= elements(
                            before,
                            order@,
                        ).drop_last());
                    }
                    *self = List {
                        arena,
                        head,
                        tail: Some(prev),
                        len: len - 1,
                        order: Ghost(order@.drop_last()),
                    };
                    Some(elem)
                }
            },
        }
    }

    /// The first element, if there is one.
    pub fn front(&self) -> (r: Option<&T>)
        ensures
            self@.len() == 0 ==> r is None,
            self@.len() > 0 ==> r == Some(&self@[0]),
    {
        proof {
            use_type_invariant(self);
        }
        match self.head {
            None => None,
            Some(at) => {
                proof {
                    assert(linked_at(self.arena.slots@, self.order@, 0));
                    assert(self.arena.slots@[self.order@[0] as int].elem is Some);
                }
                Some(self.arena.elem_ref(at))
            },
        }
    }

    /// The last element, if there is one, reached through the remembered
    /// tail position.
    pub fn back(&self) -> (r: Option<&T>)
        ensures
            self@.len() == 0 ==> r is None,
            self@.len() > 0 ==> r == Some(&self@.last()),
    {
        proof {
            use_type_invariant(self);
        }
        match self.tail {
            None => None,
            Some(at) => {
                proof {
                    let last = self.order@.len() - 1;
                    assert(linked_at(self.arena.slots@, self.order@, last));
                    assert(self.arena.slots@[self.order@[last] as int].elem is Some);
                }
                Some(self.arena.elem_ref(at))
            },
        }
    }

    /// Mutable access to the first element, if there is one.
    pub fn front_mut(&mut self) -> (r: Option<&mut T>)
        ensures
            old(self)@.len() == 0 ==> r is None && final(self)@ == old(self)@,
            old(self)@.len() > 0 ==> r is Some && *r.unwrap() == old(self)@[0] && final(self)@
                == old(self)@.update(0, *final(r.unwrap())),
    {
        proof {
            use_type_invariant(&*self);
        }
        match self.head {
            None => None,
            Some(at) => {
                proof {
                    self.lemma_any_elem(0);
                }
                self.arena.elem_mut(at)
            },
        }
    }

    /// Mutable access to the last element, if there is one.
    pub fn back_mut(&mut self) -> (r: Option<&mut T>)
        ensures
            old(self)@.len() == 0 ==> r is None && final(self)@ == old(self)@,
            old(self)@.len() > 0 ==> r is Some && *r.unwrap() == old(self)@.last() && final(self)@
                == old(self)@.update(old(self)@.len() - 1, *final(r.unwrap())),
    {
        proof {
            use_type_invariant(&*self);
        }
        match self.tail {
            None => None,
            Some(at) => {
                proof {
                    self.lemma_any_elem(self.order@.len() - 1);
                }
                self.arena.elem_mut(at)
            },
        }
    }

    /// Moves all elements of `other` to the end of this list, in order,
    /// leaving `other` empty.
    ///
    /// When this list is empty the two lists trade places; otherwise the
    /// elements are carried over one by one, since the two lists keep their
    /// nodes in separate arenas.
    pub fn append(&mut self, other: &mut Self)
        ensures
            final(self)@ == old(self)@ + old(other)@,
            final(other)@ == Seq::<T>::empty(),
    {
        if self.empty() {
            std::mem::swap(self, other);
            proof {
                assert(self@ =~= old(self)@ + old(other)@);
                assert(other@ =~= Seq::<T>::empty());
            }
            return ;
        }
        loop
            invariant
                self@ + other@ == old(self)@ + old(other)@,
            ensures
                self@ == old(self)@ + old(other)@,
                other@ == Seq::<T>::empty(),
            decreases other@.len(),
        {
            let ghost done = self@;
            let ghost left = other@;
            match other.pop_front() {
                None => {
                    proof {
                        assert(done + left =~= done);
                        assert(left =~= Seq::<T>::empty());
                    }
                    break ;
                },
                Some(elem) => {
                    self.push_back(elem);
                    proof {
                        assert(done.push(elem) + left.skip(1) =~= done + left);
                    }
                },
            }
        }
    }

    /// Moves all elements of `other` to the front of this list, in order,
    /// leaving `other` empty.
    pub fn prepend(&mut self, other: &mut Self)
        ensures
            final(self)@ == old(other)@ + old(self)@,
            final(other)@ == Seq::<T>::empty(),
    {
        other.append(self);
        std::mem::swap(self, other);
    }

    /// Splits the list in two at position `at`: the list keeps the first
    /// `at` elements and the elements from position `at` on are returned.
    ///
    /// The link after the element at position `at - 1`, reached by walking
    /// from the head, is cut, and that element becomes the last. The elements
    /// behind the cut move to the list that is returned, and their slots
    /// become vacant.
    pub fn split_off(&mut self, at: usize) -> (rest: Self)
        requires
            at <= old(self)@.len(),
        ensures
            final(self)@ == old(self)@.take(at as int),
            rest@ == old(self)@.skip(at as int),
    {
        if at == 0 {
            let rest = self.detach();
            proof {
                assert(self@ =~= old(self)@.take(0));
                assert(rest@ =~= old(self)@.skip(0));
            }
            return rest;
        }
        let mut rest = List::new();
        if at == self.len() {
            proof {
                assert(self@ =~= old(self)@.take(at as int));
                assert(rest@ =~= old(self)@.skip(at as int));
            }
            return rest;
        }
        let cut: usize = self.slot_at(at - 1);
        let List { mut arena, head, tail, len, order } = self.detach();
        let ghost before = arena.slots@;
        let ghost all = elements(before, order@);
        proof {
            assert(linked_at(before, order@, at - 1));
            assert(before[order@[at - 1] as int].elem is Some);
        }
        let mut cur: Option<usize> = arena.next_of(cut);
        arena.set_next(cut, None);
        proof {
            assert forall|i: int| 0 <= i < len && i != at - 1 implies
                #[trigger] arena.slots@[order@[i] as int] == before[order@[i] as int]
            by {
                assert(linked_at(before, order@, i));
            }
            lemma_prefix(before, arena.slots@, head, order@, at as int);
            lemma_suffix(before, arena.slots@, head, order@, at as int);
            assert(all.subrange(at as int, at as int) =~= Seq::<T>::empty());
        }
        let mut moved: usize = at;
        while moved < len
            invariant
                0 < at <= moved <= len == order@.len(),
                order@.no_duplicates(),
                arena.wf(),
                is_chain(arena.slots@, head, order@.take(at as int)),
                all_occupied(arena.slots@, order@.take(at as int)),
                elements(arena.slots@, order@.take(at as int)) == all.take(at as int),
                is_chain(arena.slots@, cur, order@.skip(moved as int)),
                all_occupied(arena.slots@, order@.skip(moved as int)),
                elements(arena.slots@, order@.skip(moved as int)) == all.skip(moved as int),
                all.len() == len,
                rest@ == all.subrange(at as int, moved as int),
                at + (len - moved) + arena.spare@.len() == arena.slots@.len(),
            decreases len - moved,
        {
            let ghost mid = arena.slots@;
            let ghost kept = order@.take(at as int);
            let ghost left = order@.skip(moved as int);
            proof {
                assert(linked_at(mid, left, 0));
                assert(mid[left[0] as int].elem is Some);
                assert(left[0] == order@[moved as int]);
            }
            let slot: usize = cur.unwrap();
            cur = arena.next_of(slot);
            let elem: T = arena.vacate(slot);
            rest.push_back(elem);
            proof {
                assert forall|i: int| 0 <= i < kept.len() implies
                    #[trigger] arena.slots@[kept[i] as int] == mid[kept[i] as int]
                by {
                    assert(linked_at(mid, kept, i));
                    assert(kept[i] == order@[i]);
                }
                lemma_untouched(mid, arena.slots@, head, kept);
                assert forall|i: int| 1 <= i < left.len() implies
                    #[trigger] arena.slots@[left[i] as int] == mid[left[i] as int]
                by {
                    assert(linked_at(mid, left, i));
                    assert(left[i] == order@[moved + i]);
                }
                lemma_suffix(mid, arena.slots@, Some(slot), left, 1);
                assert(left.skip(1) =~= order@.skip(moved + 1));
                assert(all.skip(moved as int).skip(1) =~= all.skip(moved + 1));
                assert(elem == all.skip(moved as int)[0]);
                assert(all.subrange(at as int, moved as int).push(elem) =~= all.subrange(
                    at as int,
                    moved + 1,
                ));
            }
            moved = moved + 1;
        }
        proof {
            assert(all.subrange(at as int, len as int) =~= all.skip(at as int));
        }
        *self = List {
            arena,
            head,
            tail: Some(cut),
            len: at,
            order: Ghost(order@.take(at as int)),
        };
        rest
    }

    /// Whatever is written into the slot of the `k`-th element, the chain
    /// stays as it is and only the `k`-th element changes.
    proof fn lemma_any_elem(&self, k: int)
        requires
            self.wf(),
            0 <= k < self.order@.len(),
        ensures
            self.order@[k] < self.arena.slots@.len(),
            self.arena.slots@[self.order@[k] as int].elem is Some,
            forall|v: T|
                {
                    let slots = #[trigger] with_elem(self.arena.slots@, self.order@[k], v);
                    &&& is_chain(slots, self.head, self.order@)
                    &&& all_occupied(slots, self.order@)
                    &&& elements(slots, self.order@) == self@.update(k, v)
                    &&& slots.len() == self.arena.slots@.len()
                },
    {
        assert(linked_at(self.arena.slots@, self.order@, k));
        assert(self.arena.slots@[self.order@[k] as int].elem is Some);
        assert forall|v: T|
            {
                let slots = #[trigger] with_elem(self.arena.slots@, self.order@[k], v);
                &&& is_chain(slots, self.head, self.order@)
                &&& all_occupied(slots, self.order@)
                &&& elements(slots, self.order@) == self@.update(k, v)
                &&& slots.len() == self.arena.slots@.len()
            } by {
            lemma_replace_elem(self.arena.slots@, self.head, self.order@, k, v);
        }
    }
}

} // verus!
