//! An identity-keyed relation graph over shared, heap-pinned handles.
//!
//! A [`PinNode`] wraps a value in a reference-counted heap slot that never
//! moves, and takes the slot's address as its identity: two handles are
//! equal exactly when they share a slot, never because the wrapped values
//! happen to be equal. A [`PinTree`] tracks single-parent / multi-child
//! edges over such handles, tolerating arbitrary cycles and self-loops.

mod handle;
mod tree;

pub use handle::lemma_eq_is_identity;
pub use handle::lemma_wraps_functional;
pub use handle::PinNode;
pub use tree::PinTree;
