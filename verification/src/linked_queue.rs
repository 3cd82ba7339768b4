//! A first-in, first-out queue: a list that grows at its back and shrinks at
//! its front.

use crate::single_list::List;
use vstd::prelude::*;

verus! {

/// A queue of elements.
///
/// Its view is the sequence of its elements, the one that has waited longest
/// first.
pub struct Queue<T>(List<T>);

impl<T> View for Queue<T> {
    type V = Seq<T>;

    closed spec fn view(&self) -> Seq<T> {
        self.0@
    }
}

impl<T> Queue<T> {
    /// An empty queue.
    pub fn new() -> (queue: Self)
        ensures
            queue@ == Seq::<T>::empty(),
    {
        Self(List::new())
    }

    /// Puts `elem` at the end of the queue.
    pub fn push(&mut self, elem: T)
        ensures
            final(self)@ == old(self)@.push(elem),
    {
        self.0.push_back(elem)
    }

    /// The element at the head of the queue, if there is one.
    pub fn top(&self) -> (r: Option<&T>)
        ensures
            self@.len() == 0 ==> r is None,
            self@.len() > 0 ==> r == Some(&self@[0]),
    {
        self.0.front()
    }

    /// Mutable access to the element at the head of the queue, if there is
    /// one.
    pub fn top_mut(&mut self) -> (r: Option<&mut T>)
        ensures
            old(self)@.len() == 0 ==> r is None && final(self)@ == old(self)@,
            old(self)@.len() > 0 ==> r is Some && *r.unwrap() == old(self)@[0] && final(self)@
                == old(self)@.update(0, *final(r.unwrap())),
    {
        self.0.front_mut()
    }

    /// Takes the element at the head of the queue and returns it; `None`
    /// when the queue is empty.
    pub fn pop(&mut self) -> (r: Option<T>)
        ensures
            old(self)@.len() == 0 ==> r is None && final(self)@ == old(self)@,
            old(self)@.len() > 0 ==> r == Some(old(self)@[0]) && final(self)@ == old(self)@.skip(1),
    {
        self.0.pop_front()
    }

    /// The number of elements.
    pub fn len(&self) -> (n: usize)
        ensures
            n == self@.len(),
    {
        self.0.len()
    }

    /// Whether the queue has no elements.
    pub fn empty(&self) -> (r: bool)
        ensures
            r == (self@.len() == 0),
    {
        self.0.empty()
    }
}

} // verus!
