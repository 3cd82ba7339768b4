use singly_linked_list::{Queue, Stack};

#[test]
fn it_works() {
    let result = 2 + 2;
    assert_eq!(result, 4);
}

#[test]
fn hello() {
    assert_eq!(1, 1);
    println!("hello world");
}

#[test]
fn stack_is_last_in_first_out() {
    let mut stack = Stack::new();
    assert!(stack.empty());
    assert_eq!(stack.len(), 0);
    assert_eq!(stack.top(), None);
    assert_eq!(stack.pop(), None);
    for i in 0..10 {
        stack.push(i);
        assert_eq!(stack.top(), Some(&i));
        assert_eq!(stack.len(), i as usize + 1);
    }
    assert!(!stack.empty());
    for i in (0..10).rev() {
        assert_eq!(stack.pop(), Some(i));
    }
    assert_eq!(stack.pop(), None);
    assert!(stack.empty());
}

#[test]
fn stack_top_mut_changes_the_top_only() {
    let mut stack = Stack::new();
    assert_eq!(stack.top_mut(), None);
    stack.push(1);
    stack.push(2);
    *stack.top_mut().unwrap() = 20;
    assert_eq!(stack.len(), 2);
    assert_eq!(stack.pop(), Some(20));
    assert_eq!(stack.pop(), Some(1));
}

#[test]
fn queue_is_first_in_first_out() {
    let mut queue = Queue::new();
    assert!(queue.empty());
    assert_eq!(queue.len(), 0);
    assert_eq!(queue.top(), None);
    assert_eq!(queue.pop(), None);
    for i in 0..10 {
        queue.push(i);
        assert_eq!(queue.top(), Some(&0));
        assert_eq!(queue.len(), i as usize + 1);
    }
    assert!(!queue.empty());
    for i in 0..10 {
        assert_eq!(queue.top(), Some(&i));
        assert_eq!(queue.pop(), Some(i));
    }
    assert_eq!(queue.pop(), None);
    assert!(queue.empty());
}

#[test]
fn queue_top_mut_changes_the_head_only() {
    let mut queue = Queue::new();
    assert_eq!(queue.top_mut(), None);
    queue.push(1);
    queue.push(2);
    *queue.top_mut().unwrap() = 10;
    assert_eq!(queue.len(), 2);
    assert_eq!(queue.pop(), Some(10));
    assert_eq!(queue.pop(), Some(2));
}

#[test]
fn queue_takes_pushes_between_pops() {
    let mut queue = Queue::new();
    queue.push('a');
    queue.push('b');
    assert_eq!(queue.pop(), Some('a'));
    queue.push('c');
    assert_eq!(queue.pop(), Some('b'));
    assert_eq!(queue.pop(), Some('c'));
    assert_eq!(queue.pop(), None);
    queue.push('d');
    assert_eq!(queue.top(), Some(&'d'));
}
