//! Chains of slots.
//!
//! A chain is what following `next` links from some slot visits, until a link
//! is empty. It is described by its path: the sequence of the positions
//! visited. The lemmas say how a chain changes when a slot is put in front of
//! it or behind it, when slots are taken from its front or its back, and that
//! it does not change when other slots do.

use crate::arena::Node;
use vstd::prelude::*;

verus! {

/// The slot that a chain visiting `path` starts at.
pub(crate) open spec fn chain_start(path: Seq<usize>) -> Option<usize> {
    if path.len() == 0 {
        None
    } else {
        Some(path[0])
    }
}

/// The slot that a chain visiting `path` ends at.
pub(crate) open spec fn chain_end(path: Seq<usize>) -> Option<usize> {
    if path.len() == 0 {
        None
    } else {
        Some(path[path.len() - 1])
    }
}

/// The link that the `i`-th slot of `path` must carry: the next slot of the
/// path, or nothing at the end.
pub(crate) open spec fn successor(path: Seq<usize>, i: int) -> Option<usize> {
    if i + 1 < path.len() {
        Some(path[i + 1])
    } else {
        None
    }
}

/// The `i`-th slot of `path` exists and links to the slot after it.
pub(crate) open spec fn linked_at<T>(slots: Seq<Node<T>>, path: Seq<usize>, i: int) -> bool {
    &&& path[i] < slots.len()
    &&& slots[path[i] as int].next == successor(path, i)
}

/// Following `next` from `first` visits exactly the slots of `path`, each
/// once, and then stops.
pub(crate) open spec fn is_chain<T>(
    slots: Seq<Node<T>>,
    first: Option<usize>,
    path: Seq<usize>,
) -> bool {
    &&& first == chain_start(path)
    &&& forall|i: int| 0 <= i < path.len() ==> #[trigger] linked_at(slots, path, i)
    &&& path.no_duplicates()
}

/// Every slot of `path` holds an element.
pub(crate) open spec fn all_occupied<T>(slots: Seq<Node<T>>, path: Seq<usize>) -> bool {
    forall|i: int| 0 <= i < path.len() ==> (#[trigger] slots[path[i] as int]).elem is Some
}

/// No slot of `path` holds an element.
pub(crate) open spec fn all_vacant<T>(slots: Seq<Node<T>>, path: Seq<usize>) -> bool {
    forall|i: int| 0 <= i < path.len() ==> (#[trigger] slots[path[i] as int]).elem is None
}

/// The elements held by the slots of `path`, in path order.
pub(crate) open spec fn elements<T>(slots: Seq<Node<T>>, path: Seq<usize>) -> Seq<T> {
    Seq::new(path.len(), |i: int| slots[path[i] as int].elem.unwrap())
}

/// The store in which slot `at` holds `elem` and everything else, the slot's
/// link included, is as in `slots`.
pub(crate) open spec fn with_elem<T>(slots: Seq<Node<T>>, at: usize, elem: T) -> Seq<Node<T>> {
    slots.update(at as int, Node { elem: Some(elem), next: slots[at as int].next })
}

/// The elements met when following links from `from`: the element of each
/// slot reached, until a link is empty, or leads outside the store or to a
/// vacant slot, or `limit` slots have been visited.
pub(crate) open spec fn follow<T>(slots: Seq<Node<T>>, from: Option<usize>, limit: nat) -> Seq<T>
    decreases limit,
{
    match from {
        Some(at) if limit > 0 && at < slots.len() && slots[at as int].elem is Some => seq![
            slots[at as int].elem.unwrap(),
        ] + follow(slots, slots[at as int].next, (limit - 1) as nat),
        _ => Seq::empty(),
    }
}

/// A chain stays a chain when the slots it visits keep their links.
pub(crate) proof fn lemma_chain_frame<T>(
    before: Seq<Node<T>>,
    after: Seq<Node<T>>,
    first: Option<usize>,
    path: Seq<usize>,
)
    requires
        is_chain(before, first, path),
        before.len() <= after.len(),
        forall|i: int|
            0 <= i < path.len() ==> (#[trigger] after[path[i] as int]).next
                == before[path[i] as int].next,
    ensures
        is_chain(after, first, path),
{
    assert forall|i: int| 0 <= i < path.len() implies #[trigger] linked_at(after, path, i) by {
        assert(linked_at(before, path, i));
    }
}

/// A slot that links to the start of a chain, and is not on it, starts a
/// chain that is longer by that slot.
pub(crate) proof fn lemma_chain_front_added<T>(
    slots: Seq<Node<T>>,
    first: Option<usize>,
    path: Seq<usize>,
    at: usize,
)
    requires
        is_chain(slots, first, path),
        at < slots.len(),
        slots[at as int].next == first,
        forall|i: int| 0 <= i < path.len() ==> path[i] != at,
    ensures
        is_chain(slots, Some(at), seq![at] + path),
{
    let longer = seq![at] + path;
    assert forall|i: int| 0 <= i < longer.len() implies #[trigger] linked_at(slots, longer, i) by {
        if i > 0 {
            assert(linked_at(slots, path, i - 1));
            assert(longer[i] == path[i - 1]);
            assert(successor(longer, i) == successor(path, i - 1));
        }
    }
    assert forall|i: int, j: int|
        0 <= i < longer.len() && 0 <= j < longer.len() && i != j implies longer[i] != longer[j] by {
        if i > 0 {
            assert(longer[i] == path[i - 1]);
        }
        if j > 0 {
            assert(longer[j] == path[j - 1]);
        }
    }
}

/// When the last slot of a chain is linked to a slot that is not on the
/// chain and whose own link is empty, the chain is longer by that slot.
pub(crate) proof fn lemma_chain_back_added<T>(
    before: Seq<Node<T>>,
    after: Seq<Node<T>>,
    first: Option<usize>,
    path: Seq<usize>,
    at: usize,
)
    requires
        is_chain(before, first, path),
        path.len() > 0,
        before.len() <= after.len(),
        at < after.len(),
        after[at as int].next is None,
        forall|i: int| 0 <= i < path.len() ==> path[i] != at,
        forall|i: int|
            0 <= i < path.len() - 1 ==> (#[trigger] after[path[i] as int]).next
                == before[path[i] as int].next,
        after[path.last() as int].next == Some(at),
    ensures
        is_chain(after, first, path.push(at)),
{
    let longer = path.push(at);
    assert forall|i: int| 0 <= i < longer.len() implies #[trigger] linked_at(after, longer, i) by {
        if i < path.len() {
            assert(linked_at(before, path, i));
            assert(longer[i] == path[i]);
            if i < path.len() - 1 {
                assert(after[path[i] as int].next == before[path[i] as int].next);
                assert(successor(longer, i) == successor(path, i));
            }
        }
    }
}

/// The slots of a chain from the `n`-th on form the chain that the link
/// before them leads to, as long as they keep their links.
pub(crate) proof fn lemma_chain_suffix<T>(
    before: Seq<Node<T>>,
    after: Seq<Node<T>>,
    first: Option<usize>,
    path: Seq<usize>,
    n: int,
)
    requires
        is_chain(before, first, path),
        0 < n <= path.len(),
        before.len() <= after.len(),
        forall|i: int|
            n <= i < path.len() ==> (#[trigger] after[path[i] as int]).next
                == before[path[i] as int].next,
    ensures
        before[path[n - 1] as int].next == chain_start(path.skip(n)),
        is_chain(after, chain_start(path.skip(n)), path.skip(n)),
{
    let shorter = path.skip(n);
    assert(linked_at(before, path, n - 1));
    assert forall|i: int| 0 <= i < shorter.len() implies #[trigger] linked_at(
        after,
        shorter,
        i,
    ) by {
        assert(linked_at(before, path, i + n));
        assert(shorter[i] == path[i + n]);
        assert(after[path[i + n] as int].next == before[path[i + n] as int].next);
        assert(successor(shorter, i) == successor(path, i + n));
    }
    assert forall|i: int, j: int|
        0 <= i < shorter.len() && 0 <= j < shorter.len() && i != j implies shorter[i]
        != shorter[j] by {
        assert(shorter[i] == path[i + n]);
        assert(shorter[j] == path[j + n]);
    }
}

/// The first `n` slots of a chain form a chain of their own once the link
/// of the last of them is empty, as long as the others keep their links.
pub(crate) proof fn lemma_chain_prefix<T>(
    before: Seq<Node<T>>,
    after: Seq<Node<T>>,
    first: Option<usize>,
    path: Seq<usize>,
    n: int,
)
    requires
        is_chain(before, first, path),
        0 < n <= path.len(),
        before.len() <= after.len(),
        forall|i: int|
            0 <= i < n - 1 ==> (#[trigger] after[path[i] as int]).next
                == before[path[i] as int].next,
        after[path[n - 1] as int].next is None,
    ensures
        is_chain(after, first, path.take(n)),
{
    let shorter = path.take(n);
    assert forall|i: int| 0 <= i < shorter.len() implies #[trigger] linked_at(
        after,
        shorter,
        i,
    ) by {
        assert(linked_at(before, path, i));
        assert(shorter[i] == path[i]);
        if i < n - 1 {
            assert(after[path[i] as int].next == before[path[i] as int].next);
            assert(successor(shorter, i) == successor(path, i));
        }
    }
    assert forall|i: int, j: int|
        0 <= i < shorter.len() && 0 <= j < shorter.len() && i != j implies shorter[i]
        != shorter[j] by {
        assert(shorter[i] == path[i]);
        assert(shorter[j] == path[j]);
    }
}

/// What holds of a chain of occupied slots carries over to a store in which
/// those slots are unchanged.
pub(crate) proof fn lemma_untouched<T>(
    before: Seq<Node<T>>,
    after: Seq<Node<T>>,
    first: Option<usize>,
    path: Seq<usize>,
)
    requires
        is_chain(before, first, path),
        all_occupied(before, path),
        before.len() <= after.len(),
        forall|i: int|
            0 <= i < path.len() ==> #[trigger] after[path[i] as int] == before[path[i] as int],
    ensures
        is_chain(after, first, path),
        all_occupied(after, path),
        elements(after, path) == elements(before, path),
{
    lemma_chain_frame(before, after, first, path);
    assert forall|i: int| 0 <= i < path.len() implies (#[trigger] after[path[i] as int]).elem
        is Some by {
        assert(before[path[i] as int].elem is Some);
    }
    assert(elements(after, path) =~= elements(before, path));
}

/// A chain of occupied slots is out of the way of a slot that was vacant or
/// did not exist yet: the slot is not on the chain, and the chain is as it
/// was whatever has become of the slot.
pub(crate) proof fn lemma_beside<T>(
    before: Seq<Node<T>>,
    after: Seq<Node<T>>,
    first: Option<usize>,
    path: Seq<usize>,
    at: usize,
)
    requires
        is_chain(before, first, path),
        all_occupied(before, path),
        before.len() <= after.len(),
        at >= before.len() || before[at as int].elem is None,
        forall|i: int| 0 <= i < before.len() && i != at ==> #[trigger] after[i] == before[i],
    ensures
        forall|i: int| 0 <= i < path.len() ==> path[i] != at,
        is_chain(after, first, path),
        all_occupied(after, path),
        elements(after, path) == elements(before, path),
{
    assert forall|i: int| 0 <= i < path.len() implies path[i] != at by {
        assert(linked_at(before, path, i));
        assert(before[path[i] as int].elem is Some);
    }
    assert forall|i: int| 0 <= i < path.len() implies #[trigger] after[path[i] as int]
        == before[path[i] as int] by {
        assert(linked_at(before, path, i));
    }
    lemma_untouched(before, after, first, path);
}

/// Replacing the element of the `k`-th slot of a chain of occupied slots
/// changes that element and nothing else.
pub(crate) proof fn lemma_replace_elem<T>(
    slots: Seq<Node<T>>,
    first: Option<usize>,
    path: Seq<usize>,
    k: int,
    elem: T,
)
    requires
        is_chain(slots, first, path),
        all_occupied(slots, path),
        0 <= k < path.len(),
    ensures
        is_chain(with_elem(slots, path[k], elem), first, path),
        all_occupied(with_elem(slots, path[k], elem), path),
        elements(with_elem(slots, path[k], elem), path) == elements(slots, path).update(k, elem),
{
    let after = with_elem(slots, path[k], elem);
    assert(linked_at(slots, path, k));
    assert forall|i: int| 0 <= i < path.len() implies (#[trigger] after[path[i] as int]).next
        == slots[path[i] as int].next by {
        assert(linked_at(slots, path, i));
    }
    lemma_chain_frame(slots, after, first, path);
    assert forall|i: int| 0 <= i < path.len() implies (#[trigger] after[path[i] as int]).elem
        is Some by {
        assert(linked_at(slots, path, i));
        assert(slots[path[i] as int].elem is Some);
    }
    assert forall|i: int| 0 <= i < path.len() implies elements(after, path)[i] == elements(
        slots,
        path,
    ).update(k, elem)[i] by {
        assert(linked_at(slots, path, i));
        if i != k {
            assert(path[i] != path[k]);
        }
    }
    assert(elements(after, path) =~= elements(slots, path).update(k, elem));
}

/// Replacing the element of an occupied slot leaves a chain of vacant slots
/// as it was.
pub(crate) proof fn lemma_replace_elem_elsewhere<T>(
    slots: Seq<Node<T>>,
    first: Option<usize>,
    path: Seq<usize>,
    at: usize,
    elem: T,
)
    requires
        is_chain(slots, first, path),
        all_vacant(slots, path),
        at < slots.len(),
        slots[at as int].elem is Some,
    ensures
        is_chain(with_elem(slots, at, elem), first, path),
        all_vacant(with_elem(slots, at, elem), path),
{
    let after = with_elem(slots, at, elem);
    assert forall|i: int| 0 <= i < path.len() implies (#[trigger] after[path[i] as int]).next
        == slots[path[i] as int].next by {
        assert(linked_at(slots, path, i));
    }
    lemma_chain_frame(slots, after, first, path);
    assert forall|i: int| 0 <= i < path.len() implies (#[trigger] after[path[i] as int]).elem
        is None by {
        assert(linked_at(slots, path, i));
        assert(slots[path[i] as int].elem is None);
    }
}

/// Putting an occupied slot that links to the start of a chain in front of
/// that chain puts the slot's element in front of the chain's elements.
pub(crate) proof fn lemma_extend_front<T>(
    slots: Seq<Node<T>>,
    first: Option<usize>,
    path: Seq<usize>,
    at: usize,
)
    requires
        is_chain(slots, first, path),
        all_occupied(slots, path),
        at < slots.len(),
        slots[at as int].next == first,
        slots[at as int].elem is Some,
        forall|i: int| 0 <= i < path.len() ==> path[i] != at,
    ensures
        is_chain(slots, Some(at), seq![at] + path),
        all_occupied(slots, seq![at] + path),
        elements(slots, seq![at] + path) == seq![slots[at as int].elem.unwrap()] + elements(
            slots,
            path,
        ),
{
    let longer = seq![at] + path;
    lemma_chain_front_added(slots, first, path, at);
    assert forall|i: int| 0 <= i < longer.len() implies (#[trigger] slots[longer[i] as int]).elem
        is Some by {
        if i > 0 {
            assert(longer[i] == path[i - 1]);
            assert(slots[path[i - 1] as int].elem is Some);
        }
    }
    assert forall|i: int| 0 <= i < longer.len() implies elements(slots, longer)[i] == (seq![
        slots[at as int].elem.unwrap(),
    ] + elements(slots, path))[i] by {
        if i > 0 {
            assert(longer[i] == path[i - 1]);
        }
    }
    assert(elements(slots, longer) =~= seq![slots[at as int].elem.unwrap()] + elements(
        slots,
        path,
    ));
}

/// Linking the last slot of a chain to a further occupied slot, whose own
/// link is empty, puts that slot's element behind the chain's elements.
pub(crate) proof fn lemma_extend_back<T>(
    before: Seq<Node<T>>,
    after: Seq<Node<T>>,
    first: Option<usize>,
    path: Seq<usize>,
    at: usize,
)
    requires
        is_chain(before, first, path),
        all_occupied(before, path),
        path.len() > 0,
        before.len() <= after.len(),
        at < after.len(),
        after[at as int].next is None,
        after[at as int].elem is Some,
        forall|i: int| 0 <= i < path.len() ==> path[i] != at,
        forall|i: int|
            0 <= i < path.len() - 1 ==> #[trigger] after[path[i] as int] == before[path[i] as int],
        after[path.last() as int] == (Node {
            elem: before[path.last() as int].elem,
            next: Some(at),
        }),
    ensures
        is_chain(after, first, path.push(at)),
        all_occupied(after, path.push(at)),
        elements(after, path.push(at)) == elements(before, path).push(
            after[at as int].elem.unwrap(),
        ),
{
    let longer = path.push(at);
    lemma_chain_back_added(before, after, first, path, at);
    assert forall|i: int| 0 <= i < longer.len() implies (#[trigger] after[longer[i] as int]).elem
        is Some by {
        if i < path.len() {
            assert(before[path[i] as int].elem is Some);
            if i < path.len() - 1 {
                assert(after[path[i] as int] == before[path[i] as int]);
            }
        }
    }
    assert forall|i: int| 0 <= i < longer.len() implies elements(after, longer)[i] == elements(
        before,
        path,
    ).push(after[at as int].elem.unwrap())[i] by {
        if i < path.len() - 1 {
            assert(after[path[i] as int] == before[path[i] as int]);
        }
    }
    assert(elements(after, longer) =~= elements(before, path).push(
        after[at as int].elem.unwrap(),
    ));
}

/// The slots of a chain of occupied slots from the `n`-th on, if unchanged,
/// form the chain that the link before them leads to, and hold the chain's
/// elements from the `n`-th on.
pub(crate) proof fn lemma_suffix<T>(
    before: Seq<Node<T>>,
    after: Seq<Node<T>>,
    first: Option<usize>,
    path: Seq<usize>,
    n: int,
)
    requires
        is_chain(before, first, path),
        all_occupied(before, path),
        0 < n <= path.len(),
        before.len() <= after.len(),
        forall|i: int|
            n <= i < path.len() ==> #[trigger] after[path[i] as int] == before[path[i] as int],
    ensures
        before[path[n - 1] as int].next == chain_start(path.skip(n)),
        is_chain(after, chain_start(path.skip(n)), path.skip(n)),
        all_occupied(after, path.skip(n)),
        elements(after, path.skip(n)) == elements(before, path).skip(n),
{
    let shorter = path.skip(n);
    lemma_chain_suffix(before, after, first, path, n);
    assert forall|i: int| 0 <= i < shorter.len() implies (#[trigger] after[shorter[i] as int]).elem
        is Some by {
        assert(shorter[i] == path[i + n]);
        assert(after[path[i + n] as int] == before[path[i + n] as int]);
        assert(before[path[i + n] as int].elem is Some);
    }
    assert forall|i: int| 0 <= i < shorter.len() implies elements(after, shorter)[i] == elements(
        before,
        path,
    ).skip(n)[i] by {
        assert(shorter[i] == path[i + n]);
        assert(after[path[i + n] as int] == before[path[i + n] as int]);
    }
    assert(elements(after, shorter) =~= elements(before, path).skip(n));
}

/// The first `n` slots of a chain of occupied slots, if unchanged but for
/// the link of the last of them, which is empty, form a chain of their own
/// and hold the chain's first `n` elements.
pub(crate) proof fn lemma_prefix<T>(
    before: Seq<Node<T>>,
    after: Seq<Node<T>>,
    first: Option<usize>,
    path: Seq<usize>,
    n: int,
)
    requires
        is_chain(before, first, path),
        all_occupied(before, path),
        0 < n <= path.len(),
        before.len() <= after.len(),
        forall|i: int|
            0 <= i < n - 1 ==> #[trigger] after[path[i] as int] == before[path[i] as int],
        after[path[n - 1] as int] == (Node { elem: before[path[n - 1] as int].elem, next: None }),
    ensures
        is_chain(after, first, path.take(n)),
        all_occupied(after, path.take(n)),
        elements(after, path.take(n)) == elements(before, path).take(n),
{
    let shorter = path.take(n);
    assert forall|i: int| 0 <= i < n - 1 implies (#[trigger] after[path[i] as int]).next
        == before[path[i] as int].next by {
        assert(after[path[i] as int] == before[path[i] as int]);
    }
    lemma_chain_prefix(before, after, first, path, n);
    assert forall|i: int| 0 <= i < shorter.len() implies (#[trigger] after[shorter[i] as int]).elem
        is Some by {
        assert(shorter[i] == path[i]);
        assert(before[path[i] as int].elem is Some);
        if i < n - 1 {
            assert(after[path[i] as int] == before[path[i] as int]);
        }
    }
    assert forall|i: int| 0 <= i < shorter.len() implies elements(after, shorter)[i] == elements(
        before,
        path,
    ).take(n)[i] by {
        assert(shorter[i] == path[i]);
        if i < n - 1 {
            assert(after[path[i] as int] == before[path[i] as int]);
        }
    }
    assert(elements(after, shorter) =~= elements(before, path).take(n));
}

/// Following links from the start of a chain of occupied slots meets exactly
/// the elements of the chain, in chain order.
pub(crate) proof fn lemma_follow_chain<T>(
    slots: Seq<Node<T>>,
    first: Option<usize>,
    path: Seq<usize>,
    limit: nat,
)
    requires
        is_chain(slots, first, path),
        all_occupied(slots, path),
        path.len() <= limit,
    ensures
        follow(slots, first, limit) == elements(slots, path),
    decreases path.len(),
{
    if path.len() == 0 {
        assert(elements(slots, path) =~= Seq::<T>::empty());
    } else {
        assert(linked_at(slots, path, 0));
        assert(slots[path[0] as int].elem is Some);
        lemma_suffix(slots, slots, first, path, 1);
        lemma_follow_chain(slots, chain_start(path.skip(1)), path.skip(1), (limit - 1) as nat);
        assert(elements(slots, path) =~= seq![slots[path[0] as int].elem.unwrap()] + elements(
            slots,
            path,
        ).skip(1));
    }
}

} // verus!
