//! Going through the elements of an array: on one PE, or on all PEs at once.

pub mod copied_chunks;
pub mod count;
