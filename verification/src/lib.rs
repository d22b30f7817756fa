//! Linked lists under several ownership disciplines, each with a verified
//! contract over the sequence of elements it holds.
//!
//! - [`first`]: a stack of `i32` whose links own their nodes.
//! - [`second`]: the same stack for any element type, with iterators by
//!   value, by shared reference and by mutable reference.
//! - [`third`]: a persistent list whose nodes are shared by reference
//!   counting.
//! - [`fourth`]: a doubly linked deque whose nodes live in an arena.
//! - [`fifth`]: a queue that borrows its own last node.
//! - [`fifth_noref`]: a queue that names its last node by its slot in an
//!   arena.
//! - [`model`]: what the operations do to the sequence of elements, and the
//!   laws that follow.

mod arena;
pub mod fifth;
pub mod fifth_noref;
pub mod first;
pub mod fourth;
pub mod model;
pub mod second;
pub mod third;
