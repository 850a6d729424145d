//! Writing a pack index.
//!
//! The entries of a pack are read once, in order, to build the delta tree. The
//! tree is then traversed to learn the name of every object, the names are
//! sorted, and the index is encoded from them.
use vstd::prelude::*;

use super::encode::write_to;
use super::Version;
use crate::budget::MemoryBudget;
use crate::bytes::put_be;
use crate::cache::delta;
use crate::cache::delta::tree::{Tree, Writes};
use crate::cache::delta::traverse;
use crate::data::Header;
use crate::hash::{compute_hash, digest};
use crate::object::ObjectId;
use crate::sort::Record;

pub mod external_sort;

verus! {

/// How many entries are handed to the sorter at a time.
pub const SORT_BATCH_SIZE: usize = 1024;

/// What the index records of one object.
#[derive(Clone, Copy, Debug)]
pub struct IndexEntry {
    pub id: ObjectId,
    pub crc32: u32,
    /// Where the object's entry begins in the pack.
    pub offset: u64,
}

/// What was gathered while an index was written.
#[derive(Clone, Debug, PartialEq, Eq, PartialOrd, Ord, Hash)]
pub struct Outcome {
    /// The version of the index.
    pub index_version: Version,
    /// The hash that closes the index.
    pub index_hash: ObjectId,
    /// The hash that closes the pack.
    pub data_hash: ObjectId,
    /// How many objects the pack holds.
    pub num_objects: u32,
}

/// The steps of writing an index that report progress.
#[derive(Debug, Copy, Clone)]
pub enum ProgressId {
    /// The amount of objects that were indexed thus far.
    IndexObjects,
    /// The amount of bytes that were decompressed to find where entries end.
    DecompressedBytes,
    /// The amount of objects whose names were computed.
    ResolveObjects,
    /// The amount of bytes of all objects whose names were computed.
    DecodedBytes,
    /// The amount of bytes written to the index.
    IndexBytesWritten,
}

/// The four letters that a step is known by.
pub open spec fn id_of(step: ProgressId) -> Seq<u8> {
    match step {
        ProgressId::IndexObjects => seq![0x49u8, 0x57, 0x49, 0x4f],
        ProgressId::DecompressedBytes => seq![0x49u8, 0x57, 0x44, 0x42],
        ProgressId::ResolveObjects => seq![0x49u8, 0x57, 0x52, 0x4f],
        ProgressId::DecodedBytes => seq![0x49u8, 0x57, 0x52, 0x42],
        ProgressId::IndexBytesWritten => seq![0x49u8, 0x57, 0x42, 0x57],
    }
}

/// No two steps are known by the same letters, so that the progress of interest
/// can be picked out by them.
pub proof fn law_steps_have_ids_of_their_own()
    ensures
        forall|a: ProgressId, b: ProgressId| a != b ==> #[trigger] id_of(a) != #[trigger] id_of(b),
{
    assert forall|a: ProgressId, b: ProgressId| a != b implies #[trigger] id_of(a)
        != #[trigger] id_of(b) by {
        assert(id_of(a)[2] != id_of(b)[2] || id_of(a)[3] != id_of(b)[3]);
    }
}

impl ProgressId {
    /// The four letters that a step is known by.
    pub fn id(self) -> (id: [u8; 4])
        ensures
            id@ == id_of(self),
    {
        let id: [u8; 4] = match self {
            ProgressId::IndexObjects => [0x49, 0x57, 0x49, 0x4f],
            ProgressId::DecompressedBytes => [0x49, 0x57, 0x44, 0x42],
            ProgressId::ResolveObjects => [0x49, 0x57, 0x52, 0x4f],
            ProgressId::DecodedBytes => [0x49, 0x57, 0x52, 0x42],
            ProgressId::IndexBytesWritten => [0x49, 0x57, 0x42, 0x57],
        };
        assert(id@ =~= id_of(self));
        id
    }
}

/// Why an index could not be written.
#[derive(Debug, Clone, Copy)]
pub enum Error {
    /// Indices are not written in that version.
    Unsupported(Version),
    /// Deltas of objects by name must have been resolved before.
    IteratorInvariantNoRefDelta,
    /// The base of a delta would lie outside of the pack.
    IteratorInvariantBaseOffset { pack_offset: u64, distance: u64 },
    /// There are more objects than an index can hold.
    IteratorInvariantTooManyObjects(usize),
    /// The last entry came without the hash that closes the pack.
    IteratorInvariantTrailer,
    /// The delta tree could not be built.
    Tree(delta::Error),
    /// The delta tree could not be traversed.
    TreeTraversal(traverse::Error),
    /// The entries could not be sorted.
    ExternalSort(external_sort::Error),
    /// A hash could not be computed.
    Hash,
}

/// An entry of a pack as it is read.
#[derive(Clone, Copy, Debug)]
pub struct InputEntry {
    pub header: Header,
    /// Where the entry begins in the pack.
    pub pack_offset: u64,
    /// The size of the entry's header in the pack.
    pub header_size: u16,
    /// The size of the entry's data in the pack.
    pub compressed_size: u64,
    /// The size of the entry's data once it is decompressed.
    pub decompressed_size: u64,
    /// The hash that closes the pack, if this is the last entry.
    pub trailer: Option<ObjectId>,
}

/// What an entry becomes in the tree, if it can stand there.
pub open spec fn tree_item_of(entry: InputEntry) -> Option<delta::tree::TreeItem> {
    match entry.header {
        Header::RefDelta { .. } => None,
        Header::OfsDelta { base_distance } => if 0 < base_distance <= entry.pack_offset {
            Some(
                delta::tree::TreeItem {
                    offset: entry.pack_offset,
                    base: Some((entry.pack_offset - base_distance) as u64),
                },
            )
        } else {
            None
        },
        _ => Some(delta::tree::TreeItem { offset: entry.pack_offset, base: None }),
    }
}

/// An entry stands in the tree at its own offset. A delta of an earlier entry has
/// as its base the entry that begins that many bytes before it, however far that
/// is, and cannot stand there if no byte of the pack is that far before it or if
/// it would be its own base. A delta of an object by name cannot stand there, and
/// every other entry has no base.
pub proof fn law_deltas_stand_behind_their_bases(entry: InputEntry)
    ensures
        tree_item_of(entry) is Some <==> match entry.header {
            Header::RefDelta { .. } => false,
            Header::OfsDelta { base_distance } => 1 <= base_distance && base_distance
                <= entry.pack_offset,
            _ => true,
        },
        tree_item_of(entry) matches Some(item) ==> {
            &&& item.offset == entry.pack_offset
            &&& match entry.header {
                Header::OfsDelta { base_distance } => item.base matches Some(base) && base
                    + base_distance == entry.pack_offset,
                _ => item.base is None,
            }
        },
{
}

/// Builds the delta tree from the entries of a pack.
pub struct Indexer {
    tree: Tree,
    num_objects: usize,
    last_seen_trailer: Option<ObjectId>,
    pack_entries_end: u64,
}

impl Indexer {
    pub closed spec fn wf(self) -> bool {
        &&& self.tree.wf()
        &&& self.num_objects == self.tree.items().len()
        &&& forall|k: int|
            0 <= k < self.tree.items().len() && (#[trigger] self.tree.items()[k]).base is Some
                ==> self.tree.items()[k].base->0 < self.tree.items()[k].offset
    }

    pub closed spec fn tree(self) -> Tree {
        self.tree
    }

    /// The hash that came with the last entry.
    pub closed spec fn trailer(self) -> Option<ObjectId> {
        self.last_seen_trailer
    }

    /// Where the last entry ends.
    pub closed spec fn end(self) -> u64 {
        self.pack_entries_end
    }

    /// Every delta comes after its base.
    pub proof fn law_bases_come_first(self)
        requires
            self.wf(),
        ensures
            forall|k: int|
                0 <= k < self.tree().items().len() && (
                #[trigger] self.tree().items()[k]).base is Some ==> self.tree().items()[k].base->0
                    < self.tree().items()[k].offset,
    {
    }

    /// Begin to index a pack of about `num_objects` entries.
    pub fn new(version: Version, num_objects: usize, memory_budget: MemoryBudget) -> (r: Result<
        Self,
        Error,
    >)
        ensures
            r is Ok <==> version == Version::V2,
            match r {
                Ok(indexer) => {
                    &&& indexer.wf()
                    &&& indexer.tree().items() == Seq::<delta::tree::TreeItem>::empty()
                    &&& indexer.tree().items_image() == Seq::<u8>::empty()
                    &&& indexer.tree().edges_image() == Seq::<u8>::empty()
                    &&& indexer.tree().pending_edges() == Seq::<delta::edge_spool::Edge>::empty()
                    &&& exists|refusals: nat|
                        indexer.tree().run_len() == #[trigger] crate::sort::chunk::target_after(
                            delta::edge_spool::initial_target(num_objects as nat),
                            128,
                            refusals,
                        )
                    &&& delta::edge_spool::is_accounted(
                        indexer.tree().reservation(),
                        indexer.tree().run_len(),
                        memory_budget,
                    )
                    &&& indexer.trailer() is None
                    &&& indexer.end() == 0
                },
                Err(e) => e == Error::Unsupported(version),
            },
    {
        if version != Version::V2 {
            return Err(Error::Unsupported(version));
        }
        Ok(
            Indexer {
                tree: Tree::with_capacity(num_objects, memory_budget),
                num_objects: 0,
                last_seen_trailer: None,
                pack_entries_end: 0,
            },
        )
    }

    /// Take in the next entry of the pack.
    pub fn add(&mut self, entry: InputEntry) -> (r: Result<Writes, Error>)
        requires
            old(self).wf(),
            entry.pack_offset + entry.header_size + entry.compressed_size <= u64::MAX,
        ensures
            final(self).wf(),
            final(self).end() == entry.pack_offset + entry.header_size + entry.compressed_size,
            entry.header is RefDelta ==> r is Err,
            r is Ok ==> {
                let items = final(self).tree().items();
                &&& items.len() == old(self).tree().items().len() + 1
                &&& items.last().offset == entry.pack_offset
                &&& match entry.header {
                    Header::OfsDelta { base_distance } => items.last().base matches Some(base)
                        && base + base_distance == entry.pack_offset,
                    _ => items.last().base is None,
                }
            },
            r is Ok <==> tree_item_of(entry) is Some && old(self).tree().is_beyond(
                entry.pack_offset,
            ) && old(self).tree().items().len() < u32::MAX,
            match r {
                Ok(writes) => {
                    &&& final(self).tree().items() == old(self).tree().items().push(
                        tree_item_of(entry)->0,
                    )
                    &&& final(self).tree().items_image() == old(self).tree().items_image()
                        + writes.record@
                    &&& match tree_item_of(entry)->0.base {
                        None => delta::tree::takes_in_no_edge(
                            old(self).tree(),
                            final(self).tree(),
                            writes.edges,
                        ),
                        Some(base_offset) => delta::tree::takes_in_edge(
                            old(self).tree(),
                            final(self).tree(),
                            (delta::edge_spool::Edge {
                                base_offset,
                                child_idx: old(self).tree().items().len() as u32,
                            }),
                            writes.edges,
                        ),
                    }
                    &&& final(self).trailer() == entry.trailer
                },
                Err(e) => {
                    &&& final(self).tree() == old(self).tree()
                    &&& final(self).trailer() == old(self).trailer()
                    &&& match entry.header {
                        Header::RefDelta { .. } => e is IteratorInvariantNoRefDelta,
                        Header::OfsDelta { base_distance } => if tree_item_of(entry) is None {
                            e == (Error::IteratorInvariantBaseOffset {
                                pack_offset: entry.pack_offset,
                                distance: base_distance,
                            })
                        } else {
                            is_tree_error(e, old(self).tree(), entry.pack_offset, "push child item"@)
                        },
                        _ => is_tree_error(
                            e,
                            old(self).tree(),
                            entry.pack_offset,
                            "push root item"@,
                        ),
                    }
                },
            },
    {
        let entry_len: u64 = entry.header_size as u64 + entry.compressed_size;
        self.pack_entries_end = entry.pack_offset + entry_len;
        let ghost before = self.tree;
        let added = match entry.header {
            Header::RefDelta { .. } => {
                return Err(Error::IteratorInvariantNoRefDelta);
            },
            Header::OfsDelta { base_distance } => {
                match Header::verified_base_pack_offset(entry.pack_offset, base_distance) {
                    None => {
                        return Err(
                            Error::IteratorInvariantBaseOffset {
                                pack_offset: entry.pack_offset,
                                distance: base_distance,
                            },
                        );
                    },
                    Some(base_pack_offset) => self.tree.add_child(
                        base_pack_offset,
                        entry.pack_offset,
                    ),
                }
            },
            _ => self.tree.add_root(entry.pack_offset),
        };
        match added {
            Err(e) => Err(Error::Tree(e)),
            Ok(writes) => {
                self.last_seen_trailer = entry.trailer;
                proof {
                    before.lemma_pack_order();
                }
                self.num_objects = self.num_objects + 1;
                Ok(writes)
            },
        }
    }

    /// How many objects there are, if an index can hold them.
    pub fn num_objects(&self) -> (r: Result<u32, Error>)
        requires
            self.wf(),
        ensures
            r is Ok <==> self.tree().items().len() <= u32::MAX,
            match r {
                Ok(n) => n == self.tree().items().len(),
                Err(e) => e matches Error::IteratorInvariantTooManyObjects(n) && n
                    == self.tree().items().len(),
            },
    {
        let n: usize = self.num_objects;
        if n as u64 <= u32::MAX as u64 {
            Ok(n as u32)
        } else {
            Err(Error::IteratorInvariantTooManyObjects(n))
        }
    }

    /// The hash that came with the last entry.
    pub fn last_seen_trailer(&self) -> (trailer: Option<ObjectId>)
        ensures
            trailer == self.trailer(),
    {
        self.last_seen_trailer
    }

    /// Where the last entry ends.
    pub fn pack_entries_end(&self) -> (end: u64)
        ensures
            end == self.end(),
    {
        self.pack_entries_end
    }

    /// The tree of all entries taken in.
    pub fn into_tree(self) -> (tree: Tree)
        requires
            self.wf(),
        ensures
            tree == self.tree(),
            tree.wf(),
    {
        self.tree
    }
}

/// `e` is what adding an item at `offset` to `tree` fails with.
pub open spec fn is_tree_error(e: Error, tree: Tree, offset: u64, message: Seq<char>) -> bool {
    if tree.is_beyond(offset) {
        e matches Error::Tree(delta::Error::SpoolIo { message: m }) && m@ == message
    } else {
        e == Error::Tree(
            delta::Error::InvariantIncreasingPackOffset {
                last_pack_offset: tree.items().last().offset,
                pack_offset: offset,
            },
        )
    }
}

/// The header of a pack of version 2 or 3 with that many objects.
pub open spec fn pack_header(version: u32, num_objects: u32) -> Seq<u8> {
    seq![0x50u8, 0x41u8, 0x43u8, 0x4bu8] + crate::bytes::be_bytes(version as nat, 4)
        + crate::bytes::be_bytes(num_objects as nat, 4)
}

/// The header of a pack is its signature, its version and the number of its
/// objects, the numbers with their most significant byte first.
pub proof fn law_pack_header_tells_version_and_count(version: u32, num_objects: u32)
    ensures
        ({
            let header = pack_header(version, num_objects);
            &&& header.len() == 12
            &&& header.subrange(0, 4) == seq![0x50u8, 0x41u8, 0x43u8, 0x4bu8]
            &&& crate::bytes::be_value(header.subrange(4, 8)) == version
            &&& crate::bytes::be_value(header.subrange(8, 12)) == num_objects
        }),
{
    let header = pack_header(version, num_objects);
    crate::bytes::lemma_range_of();
    crate::bytes::lemma_be_roundtrip(version as nat, 4);
    crate::bytes::lemma_be_roundtrip(num_objects as nat, 4);
    assert(header.subrange(0, 4) =~= seq![0x50u8, 0x41u8, 0x43u8, 0x4bu8]);
    assert(header.subrange(4, 8) =~= crate::bytes::be_bytes(version as nat, 4));
    assert(header.subrange(8, 12) =~= crate::bytes::be_bytes(num_objects as nat, 4));
}

/// The header of a pack.
pub fn encode_pack_header(version: u32, num_objects: u32) -> (header: Vec<u8>)
    ensures
        header@ == pack_header(version, num_objects),
{
    let mut header: Vec<u8> = Vec::new();
    header.push(0x50);
    header.push(0x41);
    header.push(0x43);
    header.push(0x4b);
    put_be(&mut header, version as u64, 4);
    put_be(&mut header, num_objects as u64, 4);
    assert(header@ =~= pack_header(version, num_objects));
    header
}

/// The hash that closes the pack: the one that came with the last entry. For a
/// pack without entries it is that of the header alone.
pub open spec fn expected_pack_hash(
    last_seen_trailer: Option<ObjectId>,
    num_objects: u32,
    pack_version: u32,
) -> Result<ObjectId, Error> {
    match last_seen_trailer {
        Some(trailer) => Ok(trailer),
        None => if num_objects == 0 {
            match crate::hash::digest_of(pack_header(pack_version, 0)) {
                Some(id) => Ok(id),
                None => Err(Error::Hash),
            }
        } else {
            Err(Error::IteratorInvariantTrailer)
        },
    }
}

/// A hash that came with the last entry closes the pack, however many objects
/// there are. Without one there must be no objects, and the header alone is what
/// is hashed.
pub proof fn law_pack_is_closed_by_its_trailer(
    last_seen_trailer: Option<ObjectId>,
    num_objects: u32,
    pack_version: u32,
)
    ensures
        ({
            let hash = expected_pack_hash(last_seen_trailer, num_objects, pack_version);
            &&& last_seen_trailer is Some ==> hash == Ok::<ObjectId, Error>(last_seen_trailer->0)
            &&& last_seen_trailer is None && num_objects > 0 ==> hash
                == Err::<ObjectId, Error>(Error::IteratorInvariantTrailer)
            &&& last_seen_trailer is None && num_objects == 0 ==> {
                &&& hash is Ok ==> Some(hash->Ok_0) == crate::hash::digest_of(
                    pack_header(pack_version, num_objects),
                )
                &&& hash is Err ==> hash->Err_0 == Error::Hash && crate::hash::digest_of(
                    pack_header(pack_version, num_objects),
                ) is None
            }
        }),
{
}

/// The hash that closes the pack.
pub fn pack_hash(
    last_seen_trailer: Option<ObjectId>,
    num_objects: u32,
    pack_version: u32,
) -> (r: Result<ObjectId, Error>)
    ensures
        r == expected_pack_hash(last_seen_trailer, num_objects, pack_version),
{
    match last_seen_trailer {
        Some(trailer) => Ok(trailer),
        None => if num_objects == 0 {
            let header = encode_pack_header(pack_version, 0);
            or_hash_error(digest(header.as_slice()))
        } else {
            Err(Error::IteratorInvariantTrailer)
        },
    }
}

/// Write the index of a pack behind what is in `out`. `sorted` are the entries of
/// all its objects in name order, and `last_seen_trailer` is the hash that came
/// with the last entry.
pub fn write_index(
    out: &mut Vec<u8>,
    sorted: &Vec<IndexEntry>,
    last_seen_trailer: Option<ObjectId>,
    num_objects: u32,
    pack_version: u32,
) -> (r: Result<Outcome, Error>)
    requires
        sorted@.len() == num_objects,
        super::encode::large_count(sorted@) <= 0x7fff_ffff,
    ensures
        match expected_pack_hash(last_seen_trailer, num_objects, pack_version) {
            Err(e) => r == Err::<Outcome, Error>(e) && final(out)@ == old(out)@,
            Ok(data_hash) => {
                let body = super::encode::index_body(sorted@, data_hash);
                match crate::hash::digest_of(body) {
                    None => r == Err::<Outcome, Error>(Error::Hash) && final(out)@ == old(out)@
                        + body,
                    Some(index_hash) => {
                        &&& r == Ok::<Outcome, Error>(
                            Outcome {
                                index_version: Version::V2,
                                index_hash,
                                data_hash,
                                num_objects,
                            },
                        )
                        &&& final(out)@ == old(out)@ + body + index_hash.bytes@
                    },
                }
            },
        },
{
    let data_hash = match pack_hash(last_seen_trailer, num_objects, pack_version) {
        Ok(id) => id,
        Err(e) => {
            return Err(e);
        },
    };
    match or_hash_error(write_to(out, sorted, &data_hash)) {
        Ok(index_hash) => Ok(outcome_of(index_hash, data_hash, num_objects)),
        Err(e) => Err(e),
    }
}

/// What is told of an index that was written.
pub fn outcome_of(index_hash: ObjectId, data_hash: ObjectId, num_objects: u32) -> (outcome: Outcome)
    ensures
        outcome == (Outcome { index_version: Version::V2, index_hash, data_hash, num_objects }),
{
    Outcome { index_version: Version::V2, index_hash, data_hash, num_objects }
}

/// A hash, or the error that there is none.
pub fn or_hash_error(hash: Option<ObjectId>) -> (r: Result<ObjectId, Error>)
    ensures
        r == match hash {
            Some(id) => Ok::<ObjectId, Error>(id),
            None => Err::<ObjectId, Error>(Error::Hash),
        },
{
    match hash {
        Some(id) => Ok(id),
        None => Err(Error::Hash),
    }
}

/// What the index records of a resolved object: `header` tells its kind, `data`
/// is the object itself, `crc32` that of its entry, and `offset` where the entry
/// begins.
pub fn index_entry(header: &Header, data: &[u8], crc32: u32, offset: u64) -> (r: Result<
    IndexEntry,
    Error,
>)
    requires
        header.kind() is Some,
    ensures
        match crate::hash::digest_of(
            crate::hash::loose_header(header.kind()->0, data@.len()) + data@,
        ) {
            Some(id) => r == Ok::<IndexEntry, Error>(IndexEntry { id, crc32, offset }),
            None => r == Err::<IndexEntry, Error>(Error::Hash),
        },
{
    match header.as_kind() {
        Some(kind) => index_entry_of(compute_hash(kind, data), crc32, offset),
        None => Err(Error::Hash),
    }
}

/// What the index records of an object whose name is `id`, if it has one.
pub fn index_entry_of(id: Option<ObjectId>, crc32: u32, offset: u64) -> (r: Result<
    IndexEntry,
    Error,
>)
    ensures
        r == match id {
            Some(id) => Ok::<IndexEntry, Error>(IndexEntry { id, crc32, offset }),
            None => Err::<IndexEntry, Error>(Error::Hash),
        },
{
    match or_hash_error(id) {
        Ok(id) => Ok(IndexEntry { id, crc32, offset }),
        Err(e) => Err(e),
    }
}

/// Collects entries until there are enough to hand them to the sorter together.
pub struct Batch {
    entries: Vec<IndexEntry>,
}

impl Batch {
    /// The entries collected.
    pub closed spec fn entries(self) -> Seq<IndexEntry> {
        self.entries@
    }

    pub closed spec fn wf(self) -> bool {
        self.entries@.len() < 1024
    }

    /// An empty batch.
    pub fn new() -> (batch: Self)
        ensures
            batch.wf(),
            batch.entries() == Seq::<IndexEntry>::empty(),
    {
        Batch { entries: Vec::with_capacity(SORT_BATCH_SIZE) }
    }

    /// Add an entry. If that makes the batch full, all of its entries are
    /// handed out.
    pub fn push(&mut self, entry: IndexEntry) -> (full: Option<Vec<IndexEntry>>)
        requires
            old(self).wf(),
        ensures
            final(self).wf(),
            match full {
                None => {
                    &&& old(self).entries().len() + 1 < 1024
                    &&& final(self).entries() == old(self).entries().push(entry)
                },
                Some(all) => {
                    &&& old(self).entries().len() + 1 == 1024
                    &&& all@ == old(self).entries().push(entry)
                    &&& final(self).entries() == Seq::<IndexEntry>::empty()
                },
            },
    {
        self.entries.push(entry);
        if self.entries.len() >= SORT_BATCH_SIZE {
            let mut full: Vec<IndexEntry> = Vec::with_capacity(SORT_BATCH_SIZE);
            full.append(&mut self.entries);
            assert(full@ =~= old(self).entries().push(entry));
            Some(full)
        } else {
            None
        }
    }

    /// The entries that never made a full batch.
    pub fn into_rest(self) -> (rest: Vec<IndexEntry>)
        ensures
            rest@ == self.entries(),
    {
        self.entries
    }
}

/// Whether an entry is handed out at once or waits in the batch, none is lost
/// and none is handed out twice: what was handed out before, what this push hands
/// out, and what then waits are together what was there and the new entry.
pub proof fn law_batches_lose_nothing(
    handed_out: Seq<IndexEntry>,
    before: Batch,
    entry: IndexEntry,
    full: Option<Vec<IndexEntry>>,
    after: Batch,
)
    requires
        match full {
            None => after.entries() == before.entries().push(entry),
            Some(all) => all@ == before.entries().push(entry) && after.entries() == Seq::<
                IndexEntry,
            >::empty(),
        },
    ensures
        match full {
            None => handed_out + after.entries() == (handed_out + before.entries()).push(entry),
            Some(all) => handed_out + all@ + after.entries() == (handed_out
                + before.entries()).push(entry),
        },
{
    match full {
        None => {
            assert(handed_out + after.entries() =~= (handed_out + before.entries()).push(entry));
        },
        Some(all) => {
            assert(handed_out + all@ + after.entries() =~= (handed_out + before.entries()).push(
                entry,
            ));
        },
    }
}

/// There is an entry for the object at `offset`.
pub open spec fn is_listed(entries: Seq<IndexEntry>, offset: u64) -> bool {
    exists|k: int| 0 <= k < entries.len() && (#[trigger] entries[k]).offset == offset
}

/// The index of a pack lists every object once: `handed_out` are the items in the
/// order in which they were handed out, all of them and none twice, and `objects`
/// are their entries.
pub proof fn law_index_lists_every_object_once(
    items: Seq<delta::tree::TreeItem>,
    handed_out: Seq<u32>,
    objects: Seq<IndexEntry>,
    sorted: Seq<IndexEntry>,
)
    requires
        delta::tree::is_pack_order(items),
        handed_out.no_duplicates(),
        handed_out.len() == items.len(),
        forall|x: u32| #[trigger] handed_out.contains(x) <==> x < items.len(),
        objects.len() == handed_out.len(),
        forall|k: int|
            0 <= k < objects.len() ==> (#[trigger] objects[k]).offset
                == items[handed_out[k] as int].offset,
        crate::sort::stably_sorted(sorted, objects),
    ensures
        sorted.len() == items.len(),
        forall|a: int, b: int|
            0 <= a < b < sorted.len() ==> (#[trigger] sorted[a]).offset != (
            #[trigger] sorted[b]).offset,
        forall|i: int| 0 <= i < items.len() ==> is_listed(sorted, (#[trigger] items[i]).offset),
{
    crate::sort::law_stable_order_keeps_all(sorted, objects);
    assert forall|a: int, b: int| 0 <= a < b < objects.len() implies (#[trigger] objects[a]).offset
        != (#[trigger] objects[b]).offset by {
        let (x, y) = (handed_out[a], handed_out[b]);
        assert(x != y);
        assert(handed_out.contains(x) && handed_out.contains(y));
        if x < y {
            assert(items[x as int].offset < items[y as int].offset);
        } else {
            assert(items[y as int].offset < items[x as int].offset);
        }
    }
    assert(objects.no_duplicates());
    objects.unique_seq_to_set();
    assert(sorted.to_set() =~= objects.to_set());
    sorted.lemma_no_dup_set_cardinality();
    assert forall|a: int, b: int| 0 <= a < b < sorted.len() implies (#[trigger] sorted[a]).offset
        != (#[trigger] sorted[b]).offset by {
        assert(sorted.contains(sorted[a]) && sorted.contains(sorted[b]));
        let i = objects.index_of(sorted[a]);
        let j = objects.index_of(sorted[b]);
        assert(objects[i] == sorted[a] && objects[j] == sorted[b]);
        assert(i != j);
    }
    assert forall|i: int| 0 <= i < items.len() implies is_listed(
        sorted,
        (#[trigger] items[i]).offset,
    ) by {
        assert(handed_out.contains(i as u32));
        let m = handed_out.index_of(i as u32);
        assert(objects.contains(objects[m]));
        assert(sorted.contains(objects[m]));
        assert(sorted[sorted.index_of(objects[m])].offset == items[i].offset);
    }
}

/// Item `x` is resolved to what its entry holds, or, if it is a delta, to what its
/// entry makes of its base.
pub open spec fn is_made<T>(
    items: Seq<delta::tree::TreeItem>,
    objects: Map<u32, T>,
    root_at: spec_fn(u64) -> T,
    made_from: spec_fn(T, u64) -> T,
    x: u32,
) -> bool {
    match items[x as int].base {
        None => objects[x] == root_at(items[x as int].offset),
        Some(base) => forall|p: u32|
            p < items.len() && (#[trigger] items[p as int]).offset == base ==> objects[x]
                == made_from(objects[p], items[x as int].offset),
    }
}

/// Every item is resolved.
pub open spec fn are_made<T>(
    items: Seq<delta::tree::TreeItem>,
    objects: Map<u32, T>,
    root_at: spec_fn(u64) -> T,
    made_from: spec_fn(T, u64) -> T,
) -> bool {
    forall|x: u32| x < items.len() ==> #[trigger] is_made(items, objects, root_at, made_from, x)
}

/// What an item is resolved to is settled by the pack: `root_at` is what decoding
/// an entry gives, and `made_from` what applying a delta to a base gives. Where
/// bases were kept meanwhile makes no difference.
pub proof fn law_objects_are_settled_by_the_pack<T>(
    items: Seq<delta::tree::TreeItem>,
    a: Map<u32, T>,
    b: Map<u32, T>,
    root_at: spec_fn(u64) -> T,
    made_from: spec_fn(T, u64) -> T,
    x: u32,
    steps: nat,
)
    requires
        delta::tree::leads_to_root(items, x, steps),
        are_made(items, a, root_at, made_from),
        are_made(items, b, root_at, made_from),
    ensures
        a[x] == b[x],
    decreases steps,
{
    assert(is_made(items, a, root_at, made_from, x));
    assert(is_made(items, b, root_at, made_from, x));
    match items[x as int].base {
        None => {},
        Some(base) => {
            let p = choose|p: u32|
                p < items.len() && (#[trigger] items[p as int]).offset == base
                    && delta::tree::leads_to_root(items, p, (steps - 1) as nat);
            law_objects_are_settled_by_the_pack(
                items,
                a,
                b,
                root_at,
                made_from,
                p,
                (steps - 1) as nat,
            );
        },
    }
}

/// `order` names every item once.
pub open spec fn is_order_of(order: Seq<u32>, items: Seq<delta::tree::TreeItem>) -> bool {
    &&& order.no_duplicates()
    &&& forall|x: u32| #[trigger] order.contains(x) <==> x < items.len()
}

/// The index of a pack in which no two objects have one name is the same whatever
/// the order in which objects were handed out: `x` and `y` are two such orders,
/// `object_at` is what the index records of the object at an offset, and `a` and
/// `b` are what sorting gives in each case.
pub proof fn law_index_depends_on_the_pack_only(
    items: Seq<delta::tree::TreeItem>,
    x: Seq<u32>,
    y: Seq<u32>,
    object_at: spec_fn(u64) -> IndexEntry,
    a: Seq<IndexEntry>,
    b: Seq<IndexEntry>,
    pack_hash: ObjectId,
)
    requires
        delta::tree::is_pack_order(items),
        is_order_of(x, items),
        is_order_of(y, items),
        forall|i: int, j: int|
            0 <= i < j < items.len() ==> object_at((#[trigger] items[i]).offset).key() != object_at(
                (#[trigger] items[j]).offset,
            ).key(),
        crate::sort::stably_sorted(
            a,
            Seq::new(x.len(), |k: int| object_at(items[x[k] as int].offset)),
        ),
        crate::sort::stably_sorted(
            b,
            Seq::new(y.len(), |k: int| object_at(items[y[k] as int].offset)),
        ),
    ensures
        a == b,
        super::encode::index_body(a, pack_hash) == super::encode::index_body(b, pack_hash),
{
    let s = Seq::new(x.len(), |k: int| object_at(items[x[k] as int].offset));
    let t = Seq::new(y.len(), |k: int| object_at(items[y[k] as int].offset));
    lemma_keys_distinct(items, x, object_at);
    lemma_keys_distinct(items, y, object_at);
    assert forall|e: IndexEntry| #[trigger] s.contains(e) <==> t.contains(e) by {
        if s.contains(e) {
            lemma_reordered(items, x, y, object_at, e);
        }
        if t.contains(e) {
            lemma_reordered(items, y, x, object_at, e);
        }
    }
    crate::sort::law_distinct_keys_have_one_order(a, s, b, t);
}

proof fn lemma_keys_distinct(
    items: Seq<delta::tree::TreeItem>,
    x: Seq<u32>,
    object_at: spec_fn(u64) -> IndexEntry,
)
    requires
        is_order_of(x, items),
        forall|i: int, j: int|
            0 <= i < j < items.len() ==> object_at((#[trigger] items[i]).offset).key() != object_at(
                (#[trigger] items[j]).offset,
            ).key(),
    ensures
        crate::sort::keys_distinct(
            Seq::new(x.len(), |k: int| object_at(items[x[k] as int].offset)),
        ),
{
    let s = Seq::new(x.len(), |k: int| object_at(items[x[k] as int].offset));
    assert forall|i: int, j: int| 0 <= i < j < s.len() implies (#[trigger] s[i]).key() != (
    #[trigger] s[j]).key() by {
        let (p, q) = (x[i], x[j]);
        assert(p != q);
        assert(x.contains(p) && x.contains(q));
        if p < q {
            assert(object_at(items[p as int].offset).key() != object_at(
                items[q as int].offset,
            ).key());
        } else {
            assert(object_at(items[q as int].offset).key() != object_at(
                items[p as int].offset,
            ).key());
        }
    }
}

/// What is there in one order of the items is there in any other.
proof fn lemma_reordered(
    items: Seq<delta::tree::TreeItem>,
    x: Seq<u32>,
    y: Seq<u32>,
    object_at: spec_fn(u64) -> IndexEntry,
    e: IndexEntry,
)
    requires
        is_order_of(x, items),
        is_order_of(y, items),
        Seq::new(x.len(), |k: int| object_at(items[x[k] as int].offset)).contains(e),
    ensures
        Seq::new(y.len(), |k: int| object_at(items[y[k] as int].offset)).contains(e),
{
    let s = Seq::new(x.len(), |k: int| object_at(items[x[k] as int].offset));
    let t = Seq::new(y.len(), |k: int| object_at(items[y[k] as int].offset));
    let i = s.index_of(e);
    assert(s[i] == e);
    assert(x.contains(x[i]));
    assert(y.contains(x[i]));
    let j = y.index_of(x[i]);
    assert(y[j] == x[i]);
    assert(t[j] == e);
}

/// One way in which a pack may come to be indexed.
pub struct Run<T> {
    /// What each item was resolved to.
    pub objects: Map<u32, T>,
    /// The items in the order in which the sorter got to know them.
    pub order: Seq<u32>,
    /// What sorting gave.
    pub sorted: Seq<IndexEntry>,
}

/// In `run`, the sorter got to know what `traversals` handed out, once and in some
/// order, and each entry is what `entry_for` makes of what the item was resolved
/// to.
pub open spec fn is_run<T>(
    items: Seq<delta::tree::TreeItem>,
    traversals: Seq<traverse::resolve::Traversal>,
    run: Run<T>,
    root_at: spec_fn(u64) -> T,
    made_from: spec_fn(T, u64) -> T,
    entry_for: spec_fn(T, u64) -> IndexEntry,
) -> bool {
    &&& are_made(items, run.objects, root_at, made_from)
    &&& run.order.no_duplicates()
    &&& forall|x: u32| #[trigger]
        run.order.contains(x) <==> traverse::resolve::handed_out(traversals).contains(x)
    &&& crate::sort::stably_sorted(
        run.sorted,
        Seq::new(
            run.order.len(),
            |k: int| entry_for(run.objects[run.order[k]], items[run.order[k] as int].offset),
        ),
    )
}

/// Budget and threads change only where intermediate data is kept and in which
/// order objects are resolved: two runs over one pack in which no two objects have
/// one name sort the same entries into the same index, byte for byte.
pub proof fn law_index_is_the_same_under_every_budget<T>(
    items: Seq<delta::tree::TreeItem>,
    is_root: Seq<bool>,
    metadata_a: delta::item_store::ItemMetadata,
    traversals_a: Seq<traverse::resolve::Traversal>,
    a: Run<T>,
    metadata_b: delta::item_store::ItemMetadata,
    traversals_b: Seq<traverse::resolve::Traversal>,
    b: Run<T>,
    root_at: spec_fn(u64) -> T,
    made_from: spec_fn(T, u64) -> T,
    entry_for: spec_fn(T, u64) -> IndexEntry,
    pack_hash: ObjectId,
)
    requires
        delta::tree::is_pack_order(items),
        delta::tree::all_have_roots(items),
        traverse::resolve::are_traversed(items, metadata_a, is_root, traversals_a),
        traverse::resolve::are_traversed(items, metadata_b, is_root, traversals_b),
        is_run(items, traversals_a, a, root_at, made_from, entry_for),
        is_run(items, traversals_b, b, root_at, made_from, entry_for),
        forall|x: u32, y: u32|
            x < y < items.len() ==> entry_for(
                #[trigger] a.objects[x],
                items[x as int].offset,
            ).key() != entry_for(#[trigger] a.objects[y], items[y as int].offset).key(),
    ensures
        a.sorted == b.sorted,
        a.sorted.len() == items.len(),
        super::encode::index_body(a.sorted, pack_hash) == super::encode::index_body(
            b.sorted,
            pack_hash,
        ),
{
    traverse::resolve::law_traversals_hand_out_all_items(items, metadata_a, is_root, traversals_a);
    traverse::resolve::law_traversals_hand_out_all_items(items, metadata_b, is_root, traversals_b);
    let item_at = |offset: u64|
        choose|x: u32| x < items.len() && (#[trigger] items[x as int]).offset == offset;
    let object_at = |offset: u64| entry_for(a.objects[item_at(offset)], offset);
    assert forall|x: u32| x < items.len() implies item_at((#[trigger] items[x as int]).offset)
        == x by {
        let found = item_at(items[x as int].offset);
        assert(found < items.len() && items[found as int].offset == items[x as int].offset);
        if found < x {
            assert(items[found as int].offset < items[x as int].offset);
        } else if x < found {
            assert(items[x as int].offset < items[found as int].offset);
        }
    }
    assert forall|i: int, j: int| 0 <= i < j < items.len() implies object_at(
        (#[trigger] items[i]).offset,
    ).key() != object_at((#[trigger] items[j]).offset).key() by {
        let (x, y) = (i as u32, j as u32);
        assert(item_at(items[x as int].offset) == x);
        assert(item_at(items[y as int].offset) == y);
        assert(entry_for(a.objects[x], items[x as int].offset).key() != entry_for(
            a.objects[y],
            items[y as int].offset,
        ).key());
    }
    let in_a = Seq::new(
        a.order.len(),
        |k: int| entry_for(a.objects[a.order[k]], items[a.order[k] as int].offset),
    );
    let in_b = Seq::new(
        b.order.len(),
        |k: int| entry_for(b.objects[b.order[k]], items[b.order[k] as int].offset),
    );
    assert(in_a =~= Seq::new(a.order.len(), |k: int| object_at(items[a.order[k] as int].offset)))
        by {
        assert forall|k: int| 0 <= k < a.order.len() implies object_at(
            items[(#[trigger] a.order[k]) as int].offset,
        ) == in_a[k] by {
            assert(a.order.contains(a.order[k]));
        }
    }
    assert(in_b =~= Seq::new(b.order.len(), |k: int| object_at(items[b.order[k] as int].offset)))
        by {
        assert forall|k: int| 0 <= k < b.order.len() implies object_at(
            items[(#[trigger] b.order[k]) as int].offset,
        ) == in_b[k] by {
            let x = b.order[k];
            assert(b.order.contains(x));
            assert(delta::tree::has_root(items, x));
            let steps = choose|steps: nat| #[trigger] delta::tree::leads_to_root(items, x, steps);
            law_objects_are_settled_by_the_pack(
                items,
                a.objects,
                b.objects,
                root_at,
                made_from,
                x,
                steps,
            );
        }
    }
    law_index_depends_on_the_pack_only(
        items,
        a.order,
        b.order,
        object_at,
        a.sorted,
        b.sorted,
        pack_hash,
    );
    crate::sort::law_stable_order_keeps_all(a.sorted, in_a);
    let all = traverse::resolve::handed_out(traversals_a);
    a.order.unique_seq_to_set();
    all.unique_seq_to_set();
    assert(a.order.to_set() =~= all.to_set());
}

} // verus!
