//! The entries of a pack.
use vstd::prelude::*;

use crate::object::{Kind, ObjectId};

verus! {

/// What an entry holds.
#[derive(Clone, Copy, Debug)]
pub enum Header {
    Commit,
    Tree,
    Blob,
    Tag,
    /// A delta of the object of that name.
    RefDelta { base_id: ObjectId },
    /// A delta of the entry that begins that many bytes before this one.
    OfsDelta { base_distance: u64 },
}

impl Header {
    /// The kind of object that an entry with this header holds, unless it is a delta.
    pub open spec fn kind(self) -> Option<Kind> {
        match self {
            Header::Commit => Some(Kind::Commit),
            Header::Tree => Some(Kind::Tree),
            Header::Blob => Some(Kind::Blob),
            Header::Tag => Some(Kind::Tag),
            _ => None,
        }
    }

    /// The kind of object that an entry with this header holds, unless it is a delta.
    pub fn as_kind(&self) -> (kind: Option<Kind>)
        ensures
            kind == self.kind(),
    {
        match self {
            Header::Commit => Some(Kind::Commit),
            Header::Tree => Some(Kind::Tree),
            Header::Blob => Some(Kind::Blob),
            Header::Tag => Some(Kind::Tag),
            _ => None,
        }
    }

    /// Where the base of a delta at `pack_offset` begins, unless it would be
    /// the delta itself or lie before the pack.
    pub fn verified_base_pack_offset(pack_offset: u64, distance: u64) -> (base: Option<u64>)
        ensures
            base is Some <==> 0 < distance <= pack_offset,
            base matches Some(offset) ==> offset == pack_offset - distance,
    {
        if distance == 0 {
            None
        } else {
            pack_offset.checked_sub(distance)
        }
    }
}

/// An entry holds an object of the kind that its header has the name of, and a
/// delta holds none.
pub proof fn law_headers_name_kinds(header: Header)
    ensures
        header.kind() == Some(Kind::Commit) <==> header is Commit,
        header.kind() == Some(Kind::Tree) <==> header is Tree,
        header.kind() == Some(Kind::Blob) <==> header is Blob,
        header.kind() == Some(Kind::Tag) <==> header is Tag,
        header.kind() is None <==> header is RefDelta || header is OfsDelta,
{
}

/// An entry as its header describes it.
#[derive(Clone, Copy, Debug)]
pub struct Entry {
    pub header: Header,
    /// The size of the data once it is decompressed.
    pub decompressed_size: u64,
    /// Where the compressed data begins in the pack.
    pub data_offset: u64,
}

/// Where an entry begins and ends in the pack.
#[derive(Clone, Copy, Debug, PartialEq, Eq, Structural)]
pub struct EntryRange {
    pub start: u64,
    pub end: u64,
}

} // verus!
