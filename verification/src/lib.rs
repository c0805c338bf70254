//! A fixed-capacity double-ended queue stored as a ring buffer of `N` slots.
//!
//! The deque keeps its elements in a physical buffer of exactly `N` slots.
//! `head` is the physical slot of the front element; the element at logical
//! index `k` lives in slot `(head + k) mod N`. Every public operation is
//! specified over the logical contents (`deque@`, a `Seq<T>`) and, where the
//! layout is observable (for example through `as_slices`), over the physical
//! head as well.
pub mod ring;
pub mod range;
pub mod slots;
pub mod deque;
pub mod iter;
pub mod iter_mut;
pub mod laws;

pub use deque::{ArrayDeque, Drain, ExtractIf};
pub use range::{Bound, IndexRange};
pub use iter::Iter;
pub use iter_mut::IterMut;
