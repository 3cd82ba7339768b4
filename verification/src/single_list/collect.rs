//! Building a list from a stream of elements.

use crate::single_list::List;
use vstd::prelude::*;
use vstd::std_specs::iter::IteratorSpec;

verus! {

impl<T> Default for List<T> {
    /// An empty list.
    fn default() -> (list: Self)
        ensures
            list@ == Seq::<T>::empty(),
    {
        List::new()
    }
}

impl<T> List<T> {
    /// Puts everything that `iter` yields at the end of the list, in the
    /// order in which it is yielded.
    pub fn extend<I: Iterator<Item = T>>(&mut self, iter: I)
        requires
            iter.obeys_prophetic_iter_laws(),
            iter.decrease() is Some,
        ensures
            final(self)@ == old(self)@ + iter.remaining(),
    {
        let mut iter = iter;
        let ghost all = iter.remaining();
        loop
            invariant
                iter.obeys_prophetic_iter_laws(),
                iter.decrease() is Some,
                self@ + iter.remaining() == old(self)@ + all,
            ensures
                self@ == old(self)@ + all,
            decreases iter.decrease()->0,
        {
            let ghost done = self@;
            let ghost left = iter.remaining();
            match iter.next() {
                None => {
                    proof {
                        assert(done + left =~= done);
                    }
                    break ;
                },
                Some(elem) => {
                    self.push_back(elem);
                    proof {
                        assert(done.push(elem) + left.drop_first() =~= done + left);
                    }
                },
            }
        }
    }

    /// The list of everything that `iter` yields, in the order in which it
    /// is yielded.
    pub fn from_iter<I: Iterator<Item = T>>(iter: I) -> (list: Self)
        requires
            iter.obeys_prophetic_iter_laws(),
            iter.decrease() is Some,
        ensures
            list@ == iter.remaining(),
    {
        let mut list = Self::new();
        list.extend(iter);
        proof {
            assert(Seq::<T>::empty() + iter.remaining() =~= iter.remaining());
        }
        list
    }
}

} // verus!
