//! Equality and ordering of lists, element by element.

use crate::single_list::List;
use std::cmp::Ordering;
use vstd::prelude::*;
use vstd::std_specs::cmp::{
    OrdSpec, PartialEqSpec, PartialEqSpecImpl, PartialOrdSpec, PartialOrdSpecImpl,
};

verus! {

/// Two sequences are equal when they are equally long and equal at every
/// position, by the elements' own equality.
pub open spec fn seq_eq<T: PartialEq>(a: Seq<T>, b: Seq<T>) -> bool {
    &&& a.len() == b.len()
    &&& forall|i: int| 0 <= i < a.len() ==> #[trigger] a[i].eq_spec(&b[i])
}

/// Lexicographic comparison by the elements' own partial order: the first
/// position at which the elements do not compare as equal decides; if there
/// is none, the shorter sequence is the lesser.
pub open spec fn lex_partial_cmp<T: PartialOrd>(a: Seq<T>, b: Seq<T>) -> Option<Ordering>
    decreases a.len(),
{
    if a.len() == 0 {
        if b.len() == 0 {
            Some(Ordering::Equal)
        } else {
            Some(Ordering::Less)
        }
    } else if b.len() == 0 {
        Some(Ordering::Greater)
    } else {
        match a[0].partial_cmp_spec(&b[0]) {
            Some(Ordering::Equal) => lex_partial_cmp(a.skip(1), b.skip(1)),
            decided => decided,
        }
    }
}

/// Lexicographic comparison by the elements' own total order.
pub open spec fn lex_cmp<T: Ord>(a: Seq<T>, b: Seq<T>) -> Ordering
    decreases a.len(),
{
    if a.len() == 0 {
        if b.len() == 0 {
            Ordering::Equal
        } else {
            Ordering::Less
        }
    } else if b.len() == 0 {
        Ordering::Greater
    } else {
        match a[0].cmp_spec(&b[0]) {
            Ordering::Equal => lex_cmp(a.skip(1), b.skip(1)),
            decided => decided,
        }
    }
}

impl<T: Eq> PartialEq for List<T> {
    /// Lists of different length are unequal without looking at any element.
    fn eq(&self, other: &Self) -> (r: bool) {
        if self.len() != other.len() {
            return false;
        }
        let mut ours = self.iter();
        let mut theirs = other.iter();
        loop
            invariant
                ours@.len() == theirs@.len(),
                ours@.len() <= self@.len(),
                self@.len() == other@.len(),
                ours@ == self@.skip(self@.len() - ours@.len()),
                theirs@ == other@.skip(self@.len() - ours@.len()),
                T::obeys_eq_spec() ==> forall|i: int|
                    0 <= i < self@.len() - ours@.len() ==> #[trigger] self@[i].eq_spec(&other@[i]),
            decreases ours@.len(),
        {
            let ghost done = self@.len() - ours@.len();
            match (ours.next(), theirs.next()) {
                (Some(a), Some(b)) => {
                    if !(*a == *b) {
                        proof {
                            assert(self@[done] == *a);
                            assert(other@[done] == *b);
                        }
                        return false;
                    }
                    proof {
                        assert(self@[done] == *a);
                        assert(other@[done] == *b);
                        assert(ours@ =~= self@.skip(done + 1));
                        assert(theirs@ =~= other@.skip(done + 1));
                    }
                },
                _ => {
                    return true;
                },
            }
        }
    }
}

impl<T: Eq> PartialEqSpecImpl for List<T> {
    open spec fn obeys_eq_spec() -> bool {
        T::obeys_eq_spec()
    }

    open spec fn eq_spec(&self, other: &Self) -> bool {
        seq_eq(self@, other@)
    }
}

impl<T: Eq> Eq for List<T> {

}

impl<T: Ord> PartialOrd for List<T> {
    /// Compares front to back and stops at the first pair of elements that
    /// do not compare as equal.
    fn partial_cmp(&self, other: &Self) -> (r: Option<Ordering>) {
        let mut ours = self.iter();
        let mut theirs = other.iter();
        loop
            invariant
                T::obeys_partial_cmp_spec() ==> lex_partial_cmp(self@, other@) == lex_partial_cmp(
                    ours@,
                    theirs@,
                ),
            decreases ours@.len(),
        {
            match ours.next() {
                None => {
                    return if theirs.is_empty() {
                        Some(Ordering::Equal)
                    } else {
                        Some(Ordering::Less)
                    };
                },
                Some(a) => match theirs.next() {
                    None => {
                        return Some(Ordering::Greater);
                    },
                    Some(b) => match a.partial_cmp(b) {
                        Some(Ordering::Equal) => {},
                        decided => {
                            return decided;
                        },
                    },
                },
            }
        }
    }
}

impl<T: Ord> PartialOrdSpecImpl for List<T> {
    open spec fn obeys_partial_cmp_spec() -> bool {
        T::obeys_partial_cmp_spec()
    }

    open spec fn partial_cmp_spec(&self, other: &Self) -> Option<Ordering> {
        lex_partial_cmp(self@, other@)
    }
}

impl<T: Ord> List<T> {
    /// The total order of two lists: lexicographic by the elements' total
    /// order, a proper prefix being less than the longer list.
    pub fn cmp(&self, other: &Self) -> (r: Ordering)
        ensures
            T::obeys_cmp_spec() ==> r == lex_cmp(self@, other@),
    {
        let mut ours = self.iter();
        let mut theirs = other.iter();
        loop
            invariant
                T::obeys_cmp_spec() ==> lex_cmp(self@, other@) == lex_cmp(ours@, theirs@),
            decreases ours@.len(),
        {
            match ours.next() {
                None => {
                    return if theirs.is_empty() {
                        Ordering::Equal
                    } else {
                        Ordering::Less
                    };
                },
                Some(a) => match theirs.next() {
                    None => {
                        return Ordering::Greater;
                    },
                    Some(b) => match a.cmp(b) {
                        Ordering::Equal => {},
                        decided => {
                            return decided;
                        },
                    },
                },
            }
        }
    }
}

} // verus!
