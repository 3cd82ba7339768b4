//! Front-to-back traversal of a list: by shared reference, by mutable
//! reference, and by value.

use crate::chain::{chain_start, linked_at};
use crate::single_list::List;
use vstd::prelude::*;

verus! {

/// Where a traversal stands: the slot of the next element, how many
/// elements are left, and how many have been passed.
struct Cursor {
    at: Option<usize>,
    len: usize,
    pos: Ghost<int>,
}

impl Cursor {
    /// The cursor stands in `list`, on the slot of the element at position
    /// `pos`, or past the end.
    spec fn fits<T>(&self, list: &List<T>) -> bool {
        &&& list.wf()
        &&& 0 <= self.pos@ <= list.order@.len()
        &&& self.len == list.order@.len() - self.pos@
        &&& self.at == chain_start(list.order@.skip(self.pos@))
    }

    /// The elements of `list` from the cursor on.
    spec fn rest<T>(&self, list: &List<T>) -> Seq<T> {
        list@.skip(self.pos@)
    }

    /// The cursor on the first element of `list`.
    fn start<T>(list: &List<T>) -> (cursor: Self)
        ensures
            cursor.fits(list),
            cursor.pos@ == 0,
            cursor.rest(list) == list@,
    {
        proof {
            use_type_invariant(list);
            assert(list.order@.skip(0) =~= list.order@);
            assert(list@.skip(0) =~= list@);
        }
        Cursor { at: list.head, len: list.len, pos: Ghost(0) }
    }

    /// The slot that the cursor stands on, with the cursor one step on; or
    /// `None` when the cursor is past the end.
    fn step<T>(&self, list: &List<T>) -> (r: Option<(usize, Self)>)
        requires
            self.fits(list),
        ensures
            self.rest(list).len() == 0 ==> r is None,
            self.rest(list).len() > 0 ==> {
                &&& r is Some
                &&& r.unwrap().0 == list.order@[self.pos@]
                &&& r.unwrap().0 < list.arena.slots@.len()
                &&& list.arena.slots@[r.unwrap().0 as int].elem == Some(self.rest(list)[0])
                &&& r.unwrap().1.fits(list)
                &&& r.unwrap().1.pos@ == self.pos@ + 1
                &&& r.unwrap().1.rest(list) == self.rest(list).skip(1)
            },
    {
        match self.at {
            None => None,
            Some(at) => {
                let ghost pos = self.pos@;
                proof {
                    assert(list.order@.skip(pos)[0] == list.order@[pos]);
                    assert(linked_at(list.arena.slots@, list.order@, pos));
                    assert(list.arena.slots@[list.order@[pos] as int].elem is Some);
                    if pos + 1 < list.order@.len() {
                        assert(list.order@.skip(pos + 1)[0] == list.order@[pos + 1]);
                    }
                    assert(list@.skip(pos + 1) =~= list@.skip(pos).skip(1));
                }
                let next: Option<usize> = list.arena.next_of(at);
                Some((at, Cursor { at: next, len: self.len - 1, pos: Ghost(pos + 1) }))
            },
        }
    }
}

/// A traversal that hands out shared references, front to back.
///
/// Its view is the sequence of elements still to come.
pub struct Iter<'a, T> {
    list: &'a List<T>,
    cursor: Cursor,
}

impl<'a, T> View for Iter<'a, T> {
    type V = Seq<T>;

    closed spec fn view(&self) -> Seq<T> {
        self.cursor.rest(self.list)
    }
}

impl<'a, T> Iter<'a, T> {
    #[verifier::type_invariant]
    closed spec fn wf(&self) -> bool {
        self.cursor.fits(self.list)
    }

    /// Whether no element is left.
    pub fn is_empty(&self) -> (r: bool)
        ensures
            r == (self@.len() == 0),
    {
        proof {
            use_type_invariant(self);
        }
        self.cursor.len == 0
    }

    /// Hands out the next element and steps past it; `None` once the
    /// traversal is over.
    pub fn next(&mut self) -> (r: Option<&'a T>)
        ensures
            old(self)@.len() == 0 ==> r is None && final(self)@ == old(self)@,
            old(self)@.len() > 0 ==> r == Some(&old(self)@[0]) && final(self)@ == old(self)@.skip(
                1,
            ),
    {
        proof {
            use_type_invariant(&*self);
        }
        let list: &'a List<T> = self.list;
        match self.cursor.step(list) {
            None => None,
            Some((at, next)) => {
                self.cursor = next;
                Some(list.arena.elem_ref(at))
            },
        }
    }
}

impl<T> List<T> {
    /// A traversal of the whole list by shared reference.
    pub fn iter(&self) -> (it: Iter<'_, T>)
        ensures
            it@ == self@,
    {
        Iter { list: self, cursor: Cursor::start(self) }
    }
}

/// A traversal that hands out mutable references, front to back.
///
/// Its view is the sequence of elements still to come. The traversal holds
/// the list borrowed; [`IterMut::whole`] is the list as the traversal
/// currently sees it, and once the traversal is done with, that is what the
/// list holds ([`IterMut::lemma_released`]).
pub struct IterMut<'a, T> {
    list: &'a mut List<T>,
    cursor: Cursor,
}

impl<'a, T> View for IterMut<'a, T> {
    type V = Seq<T>;

    closed spec fn view(&self) -> Seq<T> {
        self.cursor.rest(&*self.list)
    }
}

impl<'a, T> IterMut<'a, T> {
    #[verifier::type_invariant]
    closed spec fn wf(&self) -> bool {
        self.cursor.fits(&*self.list)
    }

    /// All elements of the list, those already passed included, with what
    /// has been written through the references handed out so far.
    pub closed spec fn whole(&self) -> Seq<T> {
        self.list@
    }

    /// The borrow of the list that the traversal holds.
    pub closed spec fn target(self) -> &'a mut List<T> {
        self.list
    }

    /// Once the traversal is no longer used, the list holds what the
    /// traversal last saw in it.
    pub proof fn lemma_released(self)
        requires
            has_resolved(self),
        ensures
            final(self.target())@ == self.whole(),
    {
    }

    /// Whether no element is left.
    pub fn is_empty(&self) -> (r: bool)
        ensures
            r == (self@.len() == 0),
    {
        proof {
            use_type_invariant(self);
        }
        self.cursor.len == 0
    }

    /// Hands out the next element and steps past it; `None` once the
    /// traversal is over. The reference is good until the next call.
    pub fn next(&mut self) -> (r: Option<&mut T>)
        ensures
            *final(final(self).target()) == *final(old(self).target()),
            old(self)@.len() == 0 ==> {
                &&& r is None
                &&& final(self)@ == old(self)@
                &&& final(self).whole() == old(self).whole()
            },
            old(self)@.len() > 0 ==> {
                &&& r is Some
                &&& *r.unwrap() == old(self)@[0]
                &&& final(self)@ == old(self)@.skip(1)
                &&& final(self).whole() == old(self).whole().update(
                    old(self).whole().len() - old(self)@.len(),
                    *final(r.unwrap()),
                )
            },
    {
        proof {
            use_type_invariant(&*self);
        }
        match self.cursor.step(&*self.list) {
            None => None,
            Some((at, next)) => {
                proof {
                    self.list.lemma_any_elem(self.cursor.pos@);
                }
                self.cursor = next;
                self.list.arena.elem_mut(at)
            },
        }
    }
}

impl<T> List<T> {
    /// A traversal of the whole list by mutable reference. What is written
    /// through the references it hands out is what the list holds afterwards.
    pub fn iter_mut(&mut self) -> (it: IterMut<'_, T>)
        ensures
            it@ == old(self)@,
            it.whole() == old(self)@,
            final(it.target())@ == final(self)@,
    {
        let cursor = Cursor::start(&*self);
        IterMut { list: self, cursor }
    }
}

/// A traversal that takes the list apart, front to back.
///
/// Its view is the sequence of elements still to come.
pub struct IntoIter<T>(List<T>);

impl<T> View for IntoIter<T> {
    type V = Seq<T>;

    closed spec fn view(&self) -> Seq<T> {
        self.0@
    }
}

impl<T> IntoIter<T> {
    /// Removes the next element from the list and hands it out; `None` once
    /// the list is used up.
    pub fn next(&mut self) -> (r: Option<T>)
        ensures
            old(self)@.len() == 0 ==> r is None && final(self)@ == old(self)@,
            old(self)@.len() > 0 ==> r == Some(old(self)@[0]) && final(self)@ == old(self)@.skip(1),
    {
        self.0.pop_front()
    }
}

impl<T> List<T> {
    /// Turns the list into a traversal that owns it.
    pub fn into_iter(self) -> (it: IntoIter<T>)
        ensures
            it@ == self@,
    {
        IntoIter(self)
    }
}

} // verus!
