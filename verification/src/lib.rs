//! A singly linked list with constant-time insertion at both ends, and the
//! stack and the queue that are built on it.

mod arena;
mod chain;
pub mod laws;
mod linked_queue;
mod linked_stack;
pub mod single_list;

pub use linked_queue::Queue;
pub use linked_stack::Stack;
pub use single_list::{IntoIter, Iter, IterMut, List};
