//! The pack index.
use vstd::prelude::*;

pub mod encode;
pub mod traverse;
pub mod write;

verus! {

/// The versions of the pack index format.
#[derive(Clone, Copy, Debug, PartialEq, Eq, PartialOrd, Ord, Hash, Structural)]
pub enum Version {
    V1,
    V2,
}

impl Default for Version {
    /// The version that indices are written in.
    fn default() -> (version: Self)
        ensures
            version == Version::V2,
    {
        Version::V2
    }
}

} // verus!
