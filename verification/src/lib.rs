//! A doubly-linked deque: constant-time insertion, removal and borrowed
//! access at both ends, with the element order fully specified.

pub mod deque;

pub use deque::List;
