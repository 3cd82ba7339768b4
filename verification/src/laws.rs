//! What the operations of the list, the stack and the queue add up to.
//!
//! The operations are described by what they do to the sequence of elements.
//! The functions below chain those descriptions, and the lemmas state what
//! comes out of the chains.

use vstd::prelude::*;

verus! {

/// The contents after each element of `items`, first to last, has been put
/// at the front of `start`.
pub open spec fn after_push_front_all<T>(start: Seq<T>, items: Seq<T>) -> Seq<T>
    decreases items.len(),
{
    if items.len() == 0 {
        start
    } else {
        after_push_front_all(seq![items[0]] + start, items.skip(1))
    }
}

/// The contents after each element of `items`, first to last, has been put
/// at the back of `start`.
pub open spec fn after_push_back_all<T>(start: Seq<T>, items: Seq<T>) -> Seq<T>
    decreases items.len(),
{
    if items.len() == 0 {
        start
    } else {
        after_push_back_all(start.push(items[0]), items.skip(1))
    }
}

/// What `n` removals at the front of `s` hand out, in order: an element
/// while there is one, `None` from then on.
pub open spec fn popped_front<T>(s: Seq<T>, n: nat) -> Seq<Option<T>>
    decreases n,
{
    if n == 0 {
        Seq::empty()
    } else if s.len() == 0 {
        seq![None] + popped_front(s, (n - 1) as nat)
    } else {
        seq![Some(s[0])] + popped_front(s.skip(1), (n - 1) as nat)
    }
}

/// The contents that `n` removals at the front of `s` leave.
pub open spec fn after_pop_front<T>(s: Seq<T>, n: nat) -> Seq<T>
    decreases n,
{
    if n == 0 || s.len() == 0 {
        s
    } else {
        after_pop_front(s.skip(1), (n - 1) as nat)
    }
}

/// Each element of `s`, present.
pub open spec fn all_present<T>(s: Seq<T>) -> Seq<Option<T>> {
    Seq::new(s.len(), |i: int| Some(s[i]))
}

/// Pushing at the front one by one puts the elements before the old
/// contents in reverse order.
pub proof fn lemma_push_front_all<T>(start: Seq<T>, items: Seq<T>)
    ensures
        after_push_front_all(start, items) == items.reverse() + start,
    decreases items.len(),
{
    if items.len() == 0 {
        assert(items.reverse() + start =~= start);
    } else {
        let rest = items.skip(1);
        lemma_push_front_all(seq![items[0]] + start, rest);
        assert(rest.reverse() + (seq![items[0]] + start) =~= items.reverse() + start);
    }
}

/// Pushing at the back one by one puts the elements after the old contents
/// in the order in which they were pushed.
pub proof fn lemma_push_back_all<T>(start: Seq<T>, items: Seq<T>)
    ensures
        after_push_back_all(start, items) == start + items,
    decreases items.len(),
{
    if items.len() == 0 {
        assert(start + items =~= start);
    } else {
        let rest = items.skip(1);
        lemma_push_back_all(start.push(items[0]), rest);
        assert(start.push(items[0]) + rest =~= start + items);
    }
}

/// As long as elements are left, removals at the front hand out the
/// contents front to back and leave what they have not reached.
pub proof fn lemma_pop_front_n<T>(s: Seq<T>, n: nat)
    requires
        n <= s.len(),
    ensures
        popped_front(s, n) == all_present(s.take(n as int)),
        after_pop_front(s, n) == s.skip(n as int),
    decreases n,
{
    if n == 0 {
        assert(popped_front(s, n) =~= all_present(s.take(n as int)));
        assert(s.skip(0) =~= s);
    } else {
        lemma_pop_front_n(s.skip(1), (n - 1) as nat);
        assert(seq![Some(s[0])] + all_present(s.skip(1).take(n - 1)) =~= all_present(
            s.take(n as int),
        ));
        assert(s.skip(1).skip(n - 1) =~= s.skip(n as int));
    }
}

/// Last in, first out: after any number of pushes at the front, as many
/// removals at the front hand the pushed elements back in the reverse of the
/// order in which they were pushed, and leave what was there before.
pub proof fn lemma_last_in_first_out<T>(start: Seq<T>, items: Seq<T>)
    ensures
        popped_front(after_push_front_all(start, items), items.len()) == all_present(
            items.reverse(),
        ),
        after_pop_front(after_push_front_all(start, items), items.len()) == start,
{
    lemma_push_front_all(start, items);
    let full = items.reverse() + start;
    lemma_pop_front_n(full, items.len());
    assert(full.take(items.len() as int) =~= items.reverse());
    assert(full.skip(items.len() as int) =~= start);
}

/// First in, first out: after any number of pushes at the back of an empty
/// list, as many removals at the front hand the pushed elements back in the
/// order in which they were pushed, and leave the list empty.
pub proof fn lemma_first_in_first_out<T>(items: Seq<T>)
    ensures
        popped_front(after_push_back_all(Seq::empty(), items), items.len()) == all_present(items),
        after_pop_front(after_push_back_all(Seq::empty(), items), items.len()) == Seq::<T>::empty(),
{
    lemma_first_in_first_out_from(Seq::empty(), items);
    assert(Seq::<T>::empty() + items =~= items);
    assert(items.take(items.len() as int) =~= items);
    assert(items.skip(items.len() as int) =~= Seq::<T>::empty());
}

/// Pushes at the back of a list that already holds elements wait their
/// turn: removals at the front hand out the old contents first, then the
/// pushed elements in the order in which they were pushed.
pub proof fn lemma_first_in_first_out_from<T>(start: Seq<T>, items: Seq<T>)
    ensures
        popped_front(after_push_back_all(start, items), items.len()) == all_present(
            (start + items).take(items.len() as int),
        ),
        after_pop_front(after_push_back_all(start, items), items.len()) == (start + items).skip(
            items.len() as int,
        ),
{
    lemma_push_back_all(start, items);
    lemma_pop_front_n(start + items, items.len());
}

/// Handing out elements at the front until none is left hands out every
/// element once, front to back: a traversal yields as many elements as the
/// list holds.
pub proof fn lemma_traversal_yields_all<T>(s: Seq<T>)
    ensures
        popped_front(s, s.len()) == all_present(s),
        popped_front(s, s.len()).len() == s.len(),
        after_pop_front(s, s.len()) == Seq::<T>::empty(),
{
    lemma_pop_front_n(s, s.len());
    assert(s.take(s.len() as int) =~= s);
    assert(s.skip(s.len() as int) =~= Seq::<T>::empty());
}

/// Splitting a list anywhere and appending the part that was split off gives
/// back the list as it was, elements and length.
pub proof fn lemma_split_then_append<T>(s: Seq<T>, at: int)
    requires
        0 <= at <= s.len(),
    ensures
        s.take(at) + s.skip(at) == s,
        s.take(at).len() + s.skip(at).len() == s.len(),
{
    assert(s.take(at) + s.skip(at) =~= s);
}

/// Splitting at the front moves everything to the part split off; splitting
/// at the end moves nothing.
pub proof fn lemma_split_at_ends<T>(s: Seq<T>)
    ensures
        s.take(0) == Seq::<T>::empty(),
        s.skip(0) == s,
        s.take(s.len() as int) == s,
        s.skip(s.len() as int) == Seq::<T>::empty(),
{
    assert(s.take(0) =~= Seq::<T>::empty());
    assert(s.skip(0) =~= s);
    assert(s.take(s.len() as int) =~= s);
    assert(s.skip(s.len() as int) =~= Seq::<T>::empty());
}

} // verus!
