use singly_linked_list::single_list::List;

fn list_of(items: &[i32]) -> List<i32> {
    let mut list = List::new();
    for item in items {
        list.push_back(*item);
    }
    list
}

fn contents(list: &List<i32>) -> Vec<i32> {
    let mut out = Vec::new();
    let mut iter = list.iter();
    while let Some(item) = iter.next() {
        out.push(*item);
    }
    out
}

#[test]
fn basic_back() {
    let mut list = List::new();

    // Check empty list behaves right
    assert_eq!(list.pop_back(), None);
    assert_eq!(list.empty(), true);

    // Populate list
    list.push_back(1);
    assert_eq!(list.back(), Some(&1));
    assert_eq!(list.back_mut(), Some(&mut 1));
    list.push_back(2);
    assert_eq!(list.back(), Some(&2));
    list.push_back(3);
    assert_eq!(list.back(), Some(&3));

    assert_eq!(list.len(), 3);

    // Check normal removal
    assert_eq!(list.pop_back(), Some(3));
    assert_eq!(list.pop_back(), Some(2));

    // Push some more just to make sure nothing's corrupted
    // 1 4 5
    list.push_back(4);
    list.push_back(5);

    // Check normal removal
    assert_eq!(list.pop_back(), Some(5));
    assert_eq!(list.pop_back(), Some(4));

    // Check exhaustion
    assert_eq!(list.pop_back(), Some(1));
    assert_eq!(list.pop_back(), None);
}

#[test]
fn basic_front() {
    let mut list = List::new();

    // Check empty list behaves right
    assert_eq!(list.pop_front(), None);

    // Populate list 3- 2 -1
    list.push_front(1);
    assert_eq!(list.front(), Some(&1));
    assert_eq!(list.front_mut(), Some(&mut 1));
    list.push_front(2);
    assert_eq!(list.front(), Some(&2));
    list.push_front(3);
    assert_eq!(list.front(), Some(&3));

    // Check normal removal
    assert_eq!(list.pop_front(), Some(3));
    assert_eq!(list.pop_front(), Some(2));

    // Push some more just to make sure nothing's corrupted
    // 5 - 4 - 1
    list.push_front(4);
    list.push_front(5);

    // Check normal removal
    assert_eq!(list.pop_front(), Some(5));
    assert_eq!(list.pop_front(), Some(4));

    // Check exhaustion
    assert_eq!(list.pop_front(), Some(1));
    assert_eq!(list.pop_front(), None);
}

#[test]
fn check_into_iter() {
    let mut list = List::new();
    list.push_back(1);
    list.push_back(2);
    list.push_back(3);
    let mut iter = list.into_iter();
    for n in 1..4 {
        assert_eq!(iter.next(), Some(n));
    }
}

#[test]
fn check_iter() {
    let mut list = List::new();
    list.push_back(1);
    list.push_back(2);
    list.push_back(3);
    let mut iter = list.iter();
    for n in 1..4 {
        assert_eq!(iter.next(), Some(&n));
    }
}

#[test]
fn check_iter_mut() {
    let mut list = List::new();
    list.push_back(1);
    list.push_back(2);
    list.push_back(3);
    let mut slots = list.iter_mut();
    while let Some(it) = slots.next() {
        *it *= 10;
    }
    let mut iter = list.iter();
    for n in 1..4 {
        let num = n * 10;
        assert_eq!(iter.next(), Some(&num));
    }
}

#[test]
fn check_split_off() {
    let mut list = List::new();
    for i in 0..10 {
        list.push_back(i);
    }
    let second = list.split_off(5);
    let second_vec = vec![5, 6, 7, 8, 9];
    let mut iter = second.iter();
    for val in second_vec {
        let it = iter.next().unwrap();
        assert_eq!(it, &val);
    }
    assert_eq!(iter.next(), None);
}

#[test]
fn split_off_leaves_the_front_part() {
    let mut list = list_of(&[0, 1, 2, 3, 4, 5, 6, 7, 8, 9]);
    let second = list.split_off(5);
    assert_eq!(contents(&list), vec![0, 1, 2, 3, 4]);
    assert_eq!(contents(&second), vec![5, 6, 7, 8, 9]);
    assert_eq!(list.len(), 5);
    assert_eq!(second.len(), 5);
    assert_eq!(list.back(), Some(&4));
    assert_eq!(second.front(), Some(&5));
    assert_eq!(second.back(), Some(&9));
}

#[test]
fn split_off_at_zero_moves_everything() {
    let mut list = list_of(&[1, 2, 3]);
    let second = list.split_off(0);
    assert!(list.empty());
    assert_eq!(list.len(), 0);
    assert_eq!(list.front(), None);
    assert_eq!(list.back(), None);
    assert_eq!(contents(&second), vec![1, 2, 3]);
    assert_eq!(second.back(), Some(&3));
}

#[test]
fn split_off_at_len_moves_nothing() {
    let mut list = list_of(&[1, 2, 3]);
    let second = list.split_off(3);
    assert_eq!(contents(&list), vec![1, 2, 3]);
    assert_eq!(list.back(), Some(&3));
    assert!(second.empty());
    assert_eq!(second.front(), None);
}

#[test]
fn split_off_of_an_empty_list() {
    let mut list: List<i32> = List::new();
    let second = list.split_off(0);
    assert!(list.empty());
    assert!(second.empty());
}

#[test]
fn split_then_append_restores_the_list_at_every_position() {
    let items = vec![10, 20, 30, 40, 50, 60];
    for at in 0..=items.len() {
        let mut list = list_of(&items);
        let mut second = list.split_off(at);
        assert_eq!(list.len(), at);
        assert_eq!(second.len(), items.len() - at);
        assert_eq!(contents(&list), items[..at].to_vec());
        assert_eq!(contents(&second), items[at..].to_vec());
        list.append(&mut second);
        assert!(second.empty());
        assert_eq!(list.len(), items.len());
        assert_eq!(contents(&list), items);
        assert_eq!(list.back(), items.last());
        list.push_back(70);
        assert_eq!(list.back(), Some(&70));
        assert_eq!(list.len(), items.len() + 1);
    }
}

#[test]
fn both_parts_of_a_split_stay_usable() {
    let mut list = list_of(&[1, 2, 3, 4]);
    let mut second = list.split_off(2);
    list.push_back(9);
    second.push_front(8);
    second.push_back(7);
    assert_eq!(contents(&list), vec![1, 2, 9]);
    assert_eq!(contents(&second), vec![8, 3, 4, 7]);
    assert_eq!(list.pop_back(), Some(9));
    assert_eq!(second.pop_back(), Some(7));
    assert_eq!(second.pop_front(), Some(8));
}

#[test]
fn front_pushes_come_back_in_reverse() {
    let pushed = vec![3, 1, 4, 1, 5, 9, 2, 6];
    let mut list = List::new();
    for item in &pushed {
        list.push_front(*item);
    }
    let mut popped = Vec::new();
    for _ in 0..pushed.len() {
        popped.push(list.pop_front().unwrap());
    }
    let mut reversed = pushed.clone();
    reversed.reverse();
    assert_eq!(popped, reversed);
    assert_eq!(list.pop_front(), None);
}

#[test]
fn back_pushes_come_back_in_order() {
    let pushed = vec![3, 1, 4, 1, 5, 9, 2, 6];
    let mut list = List::new();
    for item in &pushed {
        list.push_back(*item);
    }
    let mut popped = Vec::new();
    for _ in 0..pushed.len() {
        popped.push(list.pop_front().unwrap());
    }
    assert_eq!(popped, pushed);
    assert_eq!(list.pop_front(), None);
}

#[test]
fn len_counts_what_a_traversal_meets() {
    let mut list = List::new();
    assert_eq!(list.len(), 0);
    assert_eq!(contents(&list).len(), 0);
    for i in 0..7 {
        list.push_back(i);
        list.push_front(-i);
        assert_eq!(list.len(), contents(&list).len());
    }
    assert_eq!(list.len(), 14);
    list.pop_back();
    list.pop_front();
    list.pop_front();
    assert_eq!(list.len(), 11);
    assert_eq!(contents(&list).len(), 11);
    let rest = list.split_off(4);
    assert_eq!(list.len(), contents(&list).len());
    assert_eq!(rest.len(), contents(&rest).len());
    assert_eq!(list.len() + rest.len(), 11);
}

#[test]
fn three_back_pushes_then_one_back_pop() {
    let mut list = List::new();
    list.push_back(1);
    list.push_back(2);
    list.push_back(3);
    assert_eq!(list.front(), Some(&1));
    assert_eq!(list.back(), Some(&3));
    assert_eq!(list.len(), 3);
    assert_eq!(list.pop_back(), Some(3));
    assert_eq!(list.back(), Some(&2));
    assert_eq!(list.len(), 2);
}

#[test]
fn empty_list_has_nothing_to_pop() {
    let mut list: List<i32> = List::new();
    assert_eq!(list.pop_front(), None);
    assert_eq!(list.pop_back(), None);
    assert_eq!(list.len(), 0);
    assert!(list.empty());
    assert_eq!(list.front(), None);
    assert_eq!(list.back(), None);
    assert_eq!(list.front_mut(), None);
    assert_eq!(list.back_mut(), None);
}

#[test]
fn default_is_empty() {
    let list: List<i32> = List::default();
    assert!(list.empty());
    assert_eq!(list.len(), 0);
}

#[test]
fn popping_the_only_element_clears_both_ends() {
    let mut list = List::new();
    list.push_back(1);
    assert_eq!(list.pop_front(), Some(1));
    assert_eq!(list.back(), None);
    assert_eq!(list.front(), None);
    list.push_back(2);
    assert_eq!(list.front(), Some(&2));
    assert_eq!(list.back(), Some(&2));
    assert_eq!(list.pop_back(), Some(2));
    assert_eq!(list.front(), None);
    assert_eq!(list.back(), None);
    list.push_front(3);
    list.push_back(4);
    assert_eq!(contents(&list), vec![3, 4]);
}

#[test]
fn one_element_is_both_front_and_back() {
    let mut list = List::new();
    list.push_front(7);
    assert_eq!(list.front(), Some(&7));
    assert_eq!(list.back(), Some(&7));
    *list.back_mut().unwrap() = 8;
    assert_eq!(list.front(), Some(&8));
}

#[test]
fn writes_through_front_mut_and_back_mut_stay() {
    let mut list = list_of(&[1, 2, 3]);
    *list.front_mut().unwrap() = 10;
    *list.back_mut().unwrap() += 30;
    assert_eq!(contents(&list), vec![10, 2, 33]);
    assert_eq!(list.len(), 3);
}

#[test]
fn mixed_pushes_and_pops_keep_the_order() {
    let mut list = List::new();
    list.push_back(2);
    list.push_front(1);
    list.push_back(3);
    list.push_front(0);
    assert_eq!(contents(&list), vec![0, 1, 2, 3]);
    assert_eq!(list.pop_back(), Some(3));
    assert_eq!(list.pop_front(), Some(0));
    list.push_back(9);
    assert_eq!(contents(&list), vec![1, 2, 9]);
    assert_eq!(list.pop_back(), Some(9));
    assert_eq!(list.pop_back(), Some(2));
    assert_eq!(list.pop_back(), Some(1));
    assert_eq!(list.pop_back(), None);
}

#[test]
fn emptied_places_are_used_again() {
    let mut list = List::new();
    for round in 0..50 {
        for i in 0..10 {
            list.push_back(round * 10 + i);
        }
        for i in 0..5 {
            assert_eq!(list.pop_front(), Some(round * 10 + i));
        }
        for i in (5..10).rev() {
            assert_eq!(list.pop_back(), Some(round * 10 + i));
        }
        assert!(list.empty());
    }
    list.push_front(1);
    assert_eq!(contents(&list), vec![1]);
}

#[test]
fn append_moves_everything_over() {
    let mut list = list_of(&[1, 2]);
    let mut other = list_of(&[3, 4, 5]);
    list.append(&mut other);
    assert_eq!(contents(&list), vec![1, 2, 3, 4, 5]);
    assert_eq!(list.len(), 5);
    assert_eq!(list.back(), Some(&5));
    assert!(other.empty());
    assert_eq!(other.front(), None);
    assert_eq!(other.back(), None);
    other.push_back(6);
    assert_eq!(contents(&other), vec![6]);
    list.push_back(7);
    assert_eq!(contents(&list), vec![1, 2, 3, 4, 5, 7]);
}

#[test]
fn append_onto_an_empty_list() {
    let mut list: List<i32> = List::new();
    let mut other = list_of(&[3, 4]);
    list.append(&mut other);
    assert_eq!(contents(&list), vec![3, 4]);
    assert_eq!(list.back(), Some(&4));
    assert!(other.empty());
}

#[test]
fn append_of_an_empty_list() {
    let mut list = list_of(&[1, 2]);
    let mut other: List<i32> = List::new();
    list.append(&mut other);
    assert_eq!(contents(&list), vec![1, 2]);
    assert_eq!(list.back(), Some(&2));
    assert!(other.empty());
}

#[test]
fn prepend_puts_the_other_list_first() {
    let mut list = list_of(&[4, 5]);
    let mut other = list_of(&[1, 2, 3]);
    list.prepend(&mut other);
    assert_eq!(contents(&list), vec![1, 2, 3, 4, 5]);
    assert_eq!(list.len(), 5);
    assert_eq!(list.front(), Some(&1));
    assert_eq!(list.back(), Some(&5));
    assert!(other.empty());
    list.push_back(6);
    list.push_front(0);
    assert_eq!(contents(&list), vec![0, 1, 2, 3, 4, 5, 6]);
}

#[test]
fn prepend_with_an_empty_side() {
    let mut list: List<i32> = List::new();
    let mut other = list_of(&[1, 2]);
    list.prepend(&mut other);
    assert_eq!(contents(&list), vec![1, 2]);
    assert!(other.empty());
    list.prepend(&mut other);
    assert_eq!(contents(&list), vec![1, 2]);
    assert_eq!(list.back(), Some(&2));
}

#[test]
fn iter_can_be_started_again() {
    let list = list_of(&[1, 2, 3]);
    assert_eq!(contents(&list), vec![1, 2, 3]);
    assert_eq!(contents(&list), vec![1, 2, 3]);
    let mut iter = list.iter();
    assert!(!iter.is_empty());
    iter.next();
    iter.next();
    assert!(!iter.is_empty());
    assert_eq!(iter.next(), Some(&3));
    assert!(iter.is_empty());
    assert_eq!(iter.next(), None);
    assert_eq!(iter.next(), None);
    assert_eq!(list.len(), 3);
}

#[test]
fn iter_mut_reaches_every_element_once() {
    let mut list = list_of(&[1, 2, 3, 4]);
    let mut count = 0;
    let mut slots = list.iter_mut();
    assert!(!slots.is_empty());
    while let Some(item) = slots.next() {
        *item += 100;
        count += 1;
    }
    assert!(slots.is_empty());
    assert!(slots.next().is_none());
    assert_eq!(count, 4);
    assert_eq!(contents(&list), vec![101, 102, 103, 104]);
    assert_eq!(list.back(), Some(&104));
}

#[test]
fn into_iter_hands_out_everything_and_then_nothing() {
    let list = list_of(&[1, 2]);
    let mut iter = list.into_iter();
    assert_eq!(iter.next(), Some(1));
    assert_eq!(iter.next(), Some(2));
    assert_eq!(iter.next(), None);
    assert_eq!(iter.next(), None);
}

#[test]
fn extend_adds_at_the_back() {
    let mut list = list_of(&[1]);
    list.extend(vec![2, 3].into_iter());
    assert_eq!(contents(&list), vec![1, 2, 3]);
    assert_eq!(list.back(), Some(&3));
    list.extend(Vec::new().into_iter());
    assert_eq!(list.len(), 3);
}

#[test]
fn from_iter_keeps_the_order() {
    let list = List::from_iter(vec![4, 5, 6].into_iter());
    assert_eq!(contents(&list), vec![4, 5, 6]);
    assert_eq!(list.front(), Some(&4));
    assert_eq!(list.back(), Some(&6));
}

#[test]
fn a_long_list_is_dropped_without_deep_recursion() {
    let mut list = List::new();
    for i in 0..100_000 {
        list.push_back(i);
    }
    assert_eq!(list.len(), 100_000);
    assert_eq!(list.back(), Some(&99_999));
    drop(list);
}

#[test]
fn lists_hold_elements_that_are_not_copy() {
    let mut list = List::new();
    list.push_back(String::from("b"));
    list.push_front(String::from("a"));
    list.back_mut().unwrap().push('!');
    assert_eq!(list.pop_front(), Some(String::from("a")));
    assert_eq!(list.pop_back(), Some(String::from("b!")));
    assert_eq!(list.pop_back(), None);
}

#[test]
fn a_traversal_of_an_empty_list_is_over_at_once() {
    let mut list: List<i32> = List::new();
    let mut iter = list.iter();
    assert!(iter.is_empty());
    assert_eq!(iter.next(), None);
    let mut slots = list.iter_mut();
    assert!(slots.is_empty());
    assert!(slots.next().is_none());
    let mut taken = list.into_iter();
    assert_eq!(taken.next(), None);
}

#[test]
fn writes_of_an_unfinished_traversal_stay() {
    let mut list = list_of(&[1, 2, 3]);
    let mut slots = list.iter_mut();
    *slots.next().unwrap() = 7;
    *slots.next().unwrap() *= 4;
    assert!(!slots.is_empty());
    assert_eq!(contents(&list), vec![7, 8, 3]);
    assert_eq!(list.len(), 3);
    assert_eq!(list.pop_back(), Some(3));
    assert_eq!(list.pop_front(), Some(7));
}

#[test]
fn pop_back_walks_to_the_new_last_element() {
    let mut list = list_of(&[1, 2, 3, 4, 5]);
    for expected in (1..=5).rev() {
        assert_eq!(list.back(), Some(&expected));
        assert_eq!(list.pop_back(), Some(expected));
        assert_eq!(list.len(), expected as usize - 1);
        if expected > 1 {
            assert_eq!(list.back(), Some(&(expected - 1)));
            assert_eq!(list.front(), Some(&1));
        }
    }
    assert!(list.empty());
    list.push_back(6);
    assert_eq!(contents(&list), vec![6]);
}
