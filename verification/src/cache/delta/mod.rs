//! The tree of deltas in a pack.
use vstd::prelude::*;

use crate::budget::OutOfBudget;

pub mod edge_spool;
pub mod item_store;
pub mod traverse;
pub mod tree;

pub use tree::Tree;

verus! {

/// Why an item could not be added to a [`Tree`].
#[derive(Debug, Clone, Copy)]
pub enum Error {
    /// Pack offsets must only increment.
    InvariantIncreasingPackOffset {
        /// The last seen pack offset.
        last_pack_offset: u64,
        /// The offset that is not beyond it.
        pack_offset: u64,
    },
    /// The store behind the tree failed.
    SpoolIo { message: &'static str },
    /// The budget has no room.
    OutOfBudget(OutOfBudget),
}

} // verus!
