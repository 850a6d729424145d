//! Looking at all objects of a pack.
pub mod with_index;
