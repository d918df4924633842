//! Shared ownership of one value by many handles, run-time checked borrowing, and their
//! thread-safe forms.

pub mod arena;
pub mod cell;
pub mod copy_cell;
pub mod sync;
pub mod interface;
pub mod messenger;
