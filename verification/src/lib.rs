//! A doubly-linked list over an append-only arena, with split-ownership
//! handles: every forward or backward link carries half of a node's
//! ownership unit, and a value can only be extracted once both halves of
//! its node have been collected and rejoined.

pub mod list;

pub use list::Arena;
pub use list::Cursor;
pub use list::CursorMut;
pub use list::FullHandle;
pub use list::HalfHandle;
pub use list::Iter;
pub use list::LinkedList;
pub use list::Node;
pub use list::fifo_order;
pub use list::rebuild;
