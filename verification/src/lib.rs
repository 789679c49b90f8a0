//! An array-backed doubly linked list with stable integer handles.
//!
//! Values live in the slots of one array.  Each value is known to callers
//! by the index of its slot, which stays the same until the value is
//! removed; a freed slot is reused by a later insertion.

mod chain;
pub mod laws;
mod listor;
mod slot;
pub mod view;

pub use crate::listor::{Iter, Listor};
pub use crate::view::ListorView;
