//! Copies of a list.

use crate::single_list::{Iter, List};
use vstd::prelude::*;

verus! {

/// `copy` holds a clone of each element of `source`, in the same order,
/// and nothing else.
pub open spec fn is_copy_of<T: Clone>(copy: Seq<T>, source: Seq<T>) -> bool {
    &&& copy.len() == source.len()
    &&& forall|i: int| 0 <= i < source.len() ==> cloned::<T>(#[trigger] source[i], copy[i])
}

impl<T: Clone> Clone for List<T> {
    /// A list with nodes of its own that holds a clone of each element, in
    /// the same order.
    fn clone(&self) -> (copy: Self)
        ensures
            is_copy_of(copy@, self@),
    {
        let mut copy = List::new();
        copy.extend_cloned(self.iter());
        proof {
            assert(copy@.skip(0) =~= copy@);
        }
        copy
    }
}

impl<T: Clone> List<T> {
    /// Puts a clone of each element that `source` has left at the end of the
    /// list, in the same order.
    fn extend_cloned(&mut self, source: Iter<'_, T>)
        ensures
            final(self)@.len() == old(self)@.len() + source@.len(),
            final(self)@.take(old(self)@.len() as int) == old(self)@,
            is_copy_of(final(self)@.skip(old(self)@.len() as int), source@),
    {
        let ghost start = self@.len() as int;
        let ghost all = source@;
        let mut source = source;
        proof {
            assert(self@.take(start) =~= self@);
        }
        loop
            invariant
                start == old(self)@.len(),
                self@.len() == start + (all.len() - source@.len()),
                source@.len() <= all.len(),
                source@ == all.skip(all.len() - source@.len()),
                self@.take(start) == old(self)@,
                is_copy_of(self@.skip(start), all.take(all.len() - source@.len())),
            ensures
                source@.len() == 0,
            decreases source@.len(),
        {
            let ghost done = self@;
            let ghost n = all.len() - source@.len();
            match source.next() {
                None => {
                    break ;
                },
                Some(elem) => {
                    let fresh: T = elem.clone();
                    self.push_back(fresh);
                    proof {
                        assert(all[n] == *elem);
                        assert(source@ =~= all.skip(n + 1));
                        assert(self@.take(start) =~= done.take(start));
                        assert forall|i: int| 0 <= i < n + 1 implies cloned::<T>(
                            #[trigger] all.take(n + 1)[i],
                            self@.skip(start)[i],
                        ) by {
                            if i < n {
                                assert(all.take(n)[i] == all.take(n + 1)[i]);
                                assert(self@.skip(start)[i] == done.skip(start)[i]);
                            }
                        }
                    }
                },
            }
        }
        proof {
            assert(all.take(all.len() as int) =~= all);
        }
    }

    /// Makes this list a copy of `other`, keeping the nodes it already has:
    /// surplus elements are dropped, the elements that remain are
    /// overwritten in place, and clones of the elements that `other` has
    /// beyond them are added at the end.
    pub fn clone_from(&mut self, other: &Self)
        ensures
            is_copy_of(final(self)@, other@),
    {
        if self.len() > other.len() {
            let _ = self.split_off(other.len());
        }
        let ghost kept = self@.len() as int;
        let mut source = other.iter();
        let mut slots = self.iter_mut();
        loop
            invariant
                kept <= other@.len(),
                slots.whole().len() == kept,
                0 <= slots@.len() <= kept,
                source@ == other@.skip(kept - slots@.len()),
                is_copy_of(
                    slots.whole().take(kept - slots@.len()),
                    other@.take(kept - slots@.len()),
                ),
                final(slots.target())@ == after_borrow(*self)@,
            ensures
                slots@.len() == 0,
            decreases slots@.len(),
        {
            let ghost done = kept - slots@.len();
            let ghost before = slots.whole();
            match slots.next() {
                None => {
                    break ;
                },
                Some(slot) => {
                    let elem: &T = source.next().unwrap();
                    *slot = elem.clone();
                },
            }
            proof {
                assert(other@[done] == other@.skip(done)[0]);
                assert(source@ =~= other@.skip(done + 1));
                assert forall|i: int| 0 <= i < done + 1 implies cloned::<T>(
                    #[trigger] other@.take(done + 1)[i],
                    slots.whole().take(done + 1)[i],
                ) by {
                    if i < done {
                        assert(other@.take(done)[i] == other@.take(done + 1)[i]);
                        assert(before.take(done)[i] == slots.whole().take(done + 1)[i]);
                    }
                }
            }
        }
        proof {
            slots.lemma_released();
        }
        let ghost overwritten = self@;
        self.extend_cloned(source);
        proof {
            assert(overwritten.take(kept) =~= overwritten);
            assert forall|i: int| 0 <= i < other@.len() implies cloned::<T>(
                #[trigger] other@[i],
                self@[i],
            ) by {
                if i < kept {
                    assert(other@.take(kept)[i] == other@[i]);
                    assert(self@.take(kept)[i] == self@[i]);
                } else {
                    assert(other@.skip(kept)[i - kept] == other@[i]);
                    assert(self@.skip(kept)[i - kept] == self@[i]);
                }
            }
        }
    }
}

} // verus!
