//! Turning deltas into objects, one base at a time.
//!
//! The traversal decides which object comes next and where its base is: in the
//! pack, in memory, or on the spool. Reading the pack, decompressing, applying
//! deltas and moving bytes to and from the spool are left to the caller.
use std::collections::BTreeMap;

use vstd::prelude::*;

use super::spool::SpoolHandle;
use crate::budget::{MemoryBudget, OutOfBudget, Reservation};
use crate::cache::delta::item_store::{ItemMetadata, ItemRecord};
use crate::data::{Entry, EntryRange, Header};
use crate::sort::spill::{ReadRequest, Spill};

verus! {

/// Where the bytes of a resolved base are kept until its children need them.
pub enum DeltaStorage {
    InMemory { bytes: Vec<u8>, _reservation: Reservation },
    Spilled { offset: u64, len: usize },
}

/// A resolved object that has children.
pub struct DecodedDelta {
    entry: Entry,
    entry_end: u64,
    storage: DeltaStorage,
    content: Ghost<Seq<u8>>,
}

/// A resolved object, or how to get hold of its bytes.
pub enum Parts {
    Ready { entry: Entry, entry_end: u64, bytes: Vec<u8> },
    /// The bytes have to be read back.
    OnSpool { entry: Entry, entry_end: u64, read: ReadRequest },
}

impl DecodedDelta {
    pub closed spec fn entry(self) -> Entry {
        self.entry
    }

    pub closed spec fn entry_end(self) -> u64 {
        self.entry_end
    }

    /// The bytes of the object.
    pub closed spec fn content(self) -> Seq<u8> {
        self.content@
    }

    /// The bytes are held against `budget` in memory.
    pub closed spec fn is_held_by(self, budget: MemoryBudget) -> bool {
        self.storage matches DeltaStorage::InMemory { bytes, _reservation } && bytes@ == self.content@
            && _reservation.held() == bytes@.len() && _reservation.is_of(budget)
    }

    /// The bytes stand in `image`, the contents of the spool, where the record says.
    pub closed spec fn is_within(self, image: Seq<u8>) -> bool {
        self.storage matches DeltaStorage::Spilled { offset, len } && offset + len <= image.len()
            && image.subrange(offset as int, offset + len) == self.content@
    }

    /// In memory the bytes are what they were.
    pub closed spec fn wf(self) -> bool {
        match self.storage {
            DeltaStorage::InMemory { bytes, .. } => bytes@ == self.content@,
            DeltaStorage::Spilled { len, .. } => len == self.content@.len(),
        }
    }

    /// Keep a resolved object: in memory if the budget has room for it, else on
    /// the spool, in which case its bytes are handed out to be written. What the
    /// budget answers decides, as [`store_reserved`](Self::store_reserved) has it.
    pub fn store(
        entry: Entry,
        entry_end: u64,
        bytes: Vec<u8>,
        budget: &MemoryBudget,
        spool_handle: &mut SpoolHandle,
    ) -> (r: (Self, Option<Spill>))
        requires
            old(spool_handle).wf(),
            old(spool_handle).contents().len() + bytes@.len() <= u64::MAX,
        ensures
            r.0.wf(),
            final(spool_handle).wf(),
            r.0.entry() == entry,
            r.0.entry_end() == entry_end,
            r.0.content() == bytes@,
            match r.1 {
                None => {
                    &&& r.0.is_held_by(*budget)
                    &&& bytes@.len() <= budget.limit()
                    &&& *final(spool_handle) == *old(spool_handle)
                },
                Some(spill) => {
                    &&& spill.offset == old(spool_handle).contents().len()
                    &&& spill.bytes@ == bytes@
                    &&& final(spool_handle).contents() == old(spool_handle).contents() + bytes@
                    &&& r.0.is_within(final(spool_handle).contents())
                },
            },
            bytes@.len() > budget.limit() ==> r.1 is Some,
            bytes@.len() == 0 ==> r.1 is None,
    {
        let answer = budget.reserve(bytes.len());
        Self::store_reserved(entry, entry_end, bytes, answer, spool_handle)
    }

    /// Keep a resolved object after `answer` came back from a budget for its
    /// bytes: in memory if they were granted, else on the spool.
    pub fn store_reserved(
        entry: Entry,
        entry_end: u64,
        bytes: Vec<u8>,
        answer: Result<Reservation, OutOfBudget>,
        spool_handle: &mut SpoolHandle,
    ) -> (r: (Self, Option<Spill>))
        requires
            old(spool_handle).wf(),
            old(spool_handle).contents().len() + bytes@.len() <= u64::MAX,
            answer matches Ok(granted) ==> granted.held() == bytes@.len(),
        ensures
            r.0.wf(),
            final(spool_handle).wf(),
            r.0.entry() == entry,
            r.0.entry_end() == entry_end,
            r.0.content() == bytes@,
            r.1 is Some <==> answer is Err,
            match r.1 {
                None => {
                    &&& forall|budget: MemoryBudget| #[trigger]
                        r.0.is_held_by(budget) <==> answer->Ok_0.is_of(budget)
                    &&& *final(spool_handle) == *old(spool_handle)
                },
                Some(spill) => {
                    &&& spill.offset == old(spool_handle).contents().len()
                    &&& spill.bytes@ == bytes@
                    &&& final(spool_handle).contents() == old(spool_handle).contents() + bytes@
                    &&& r.0.is_within(final(spool_handle).contents())
                },
            },
    {
        let ghost content = bytes@;
        match answer {
            Ok(reservation) => (
                DecodedDelta {
                    entry,
                    entry_end,
                    storage: DeltaStorage::InMemory { bytes, _reservation: reservation },
                    content: Ghost(content),
                },
                None,
            ),
            Err(_) => {
                let len: usize = bytes.len();
                let spool = spool_handle.get_or_create();
                let offset: u64 = spool.append(bytes.as_slice());
                let ghost before = old(spool_handle).contents();
                let delta = DecodedDelta {
                    entry,
                    entry_end,
                    storage: DeltaStorage::Spilled { offset, len },
                    content: Ghost(content),
                };
                assert((before + content).subrange(offset as int, offset + len) =~= content);
                (delta, Some(Spill { offset, bytes }))
            },
        }
    }

    /// Take the object out again.
    pub fn into_parts(self) -> (parts: Parts)
        requires
            self.wf(),
        ensures
            match parts {
                Parts::Ready { entry, entry_end, bytes } => {
                    &&& entry == self.entry()
                    &&& entry_end == self.entry_end()
                    &&& bytes@ == self.content()
                },
                Parts::OnSpool { entry, entry_end, read } => {
                    &&& entry == self.entry()
                    &&& entry_end == self.entry_end()
                    &&& read.len == self.content().len()
                    &&& forall|image: Seq<u8>| #[trigger]
                        self.is_within(image) ==> read.offset + read.len <= image.len()
                            && image.subrange(read.offset as int, read.offset + read.len)
                            == self.content()
                },
            },
            forall|budget: MemoryBudget| #[trigger] self.is_held_by(budget) ==> parts is Ready,
            forall|image: Seq<u8>| #[trigger] self.is_within(image) ==> parts is OnSpool,
    {
        match self.storage {
            DeltaStorage::InMemory { bytes, _reservation } => Parts::Ready {
                entry: self.entry,
                entry_end: self.entry_end,
                bytes,
            },
            DeltaStorage::Spilled { offset, len } => Parts::OnSpool {
                entry: self.entry,
                entry_end: self.entry_end,
                read: ReadRequest { offset, len },
            },
        }
    }
}

impl DecodedDelta {
    /// How many bytes the budget accounts for on behalf of this object.
    pub closed spec fn accounted(self) -> nat {
        match self.storage {
            DeltaStorage::InMemory { _reservation, .. } => _reservation.held(),
            DeltaStorage::Spilled { .. } => 0,
        }
    }
}

/// An object that is held in memory is accounted for with all of its bytes, and
/// one on the spool with none. It is never both.
pub proof fn law_objects_in_memory_are_accounted_for(
    delta: DecodedDelta,
    budget: MemoryBudget,
    image: Seq<u8>,
)
    ensures
        delta.is_held_by(budget) ==> delta.accounted() == delta.content().len()
            && !delta.is_within(image),
        delta.is_within(image) ==> delta.accounted() == 0 && delta.content().len() <= image.len(),
{
}

/// What was put on the spool stays readable whatever is appended behind it.
pub proof fn law_spilled_object_stays_readable(delta: DecodedDelta, image: Seq<u8>, more: Seq<u8>)
    requires
        delta.is_within(image),
    ensures
        delta.is_within(image + more),
{
    match delta.storage {
        DeltaStorage::Spilled { offset, len } => {
            assert((image + more).subrange(offset as int, offset + len) =~= image.subrange(
                offset as int,
                offset + len,
            ));
        },
        _ => {},
    }
}

/// Every object can be had: it is held in memory, or it stands in `image`, the
/// contents of the spool.
pub open spec fn all_readable(
    kept: Map<u64, DecodedDelta>,
    budget: MemoryBudget,
    image: Seq<u8>,
) -> bool {
    forall|offset: u64| #[trigger]
        kept.dom().contains(offset) ==> kept[offset].is_held_by(budget) || kept[offset].is_within(
            image,
        )
}

/// The objects that wait for their turn can all be had, whatever else is put on
/// the spool, by this traversal or by others.
pub proof fn law_waiting_objects_stay_readable(
    kept: Map<u64, DecodedDelta>,
    budget: MemoryBudget,
    image: Seq<u8>,
    more: Seq<u8>,
)
    requires
        all_readable(kept, budget, image),
    ensures
        all_readable(kept, budget, image + more),
{
    assert forall|offset: u64| #[trigger]
        kept.dom().contains(offset) implies kept[offset].is_held_by(budget)
        || kept[offset].is_within(image + more) by {
        if kept[offset].is_within(image) {
            law_spilled_object_stays_readable(kept[offset], image, more);
        }
    }
}

/// What is kept of an item is what it was resolved to.
pub open spec fn kept_as_resolved(
    kept: Map<u64, DecodedDelta>,
    metadata: ItemMetadata,
    contents: Map<u32, Seq<u8>>,
) -> bool {
    forall|x: u32|
        #![trigger metadata.records()[x as int]]
        x < metadata.records().len() && kept.dom().contains(metadata.records()[x as int].offset)
            ==> kept[metadata.records()[x as int].offset].content() == contents[x]
}

/// Wherever there was room for it, a base comes back as it was resolved: queueing
/// `delta` for item `child`, and taking any base out again, leaves every other
/// base what it was.
pub proof fn law_bases_come_back_as_resolved(
    kept: Map<u64, DecodedDelta>,
    metadata: ItemMetadata,
    contents: Map<u32, Seq<u8>>,
    child: u32,
    delta: DecodedDelta,
    taken: u64,
)
    requires
        crate::cache::delta::item_store::offsets_increase(metadata.records()),
        kept_as_resolved(kept, metadata, contents),
        child < metadata.records().len(),
        delta.content() == contents[child],
    ensures
        kept_as_resolved(
            kept.insert(metadata.records()[child as int].offset, delta),
            metadata,
            contents,
        ),
        kept_as_resolved(kept.remove(taken), metadata, contents),
{
    let recs = metadata.records();
    let now = kept.insert(recs[child as int].offset, delta);
    assert forall|x: u32|
        #![trigger metadata.records()[x as int]]
        x < recs.len() && now.dom().contains(recs[x as int].offset) implies now[recs[x as int].offset].content()
        == contents[x] by {
        if x < child {
            assert(recs[x as int].offset < recs[child as int].offset);
        } else if child < x {
            assert(recs[child as int].offset < recs[x as int].offset);
        }
    }
}

/// An item of the tree.
#[derive(Clone, Copy)]
pub struct Node<'a> {
    idx: u32,
    metadata: &'a ItemMetadata<'a>,
}

impl<'a> Node<'a> {
    pub closed spec fn wf(self) -> bool {
        self.metadata.wf() && self.idx < self.metadata.records().len()
    }

    pub closed spec fn idx(self) -> u32 {
        self.idx
    }

    pub closed spec fn metadata(self) -> ItemMetadata<'a> {
        *self.metadata
    }

    pub fn new(idx: u32, metadata: &'a ItemMetadata<'a>) -> (node: Self)
        requires
            metadata.wf(),
            idx < metadata.records().len(),
        ensures
            node.wf(),
            node.idx() == idx,
            node.metadata() == *metadata,
    {
        Node { idx, metadata }
    }

    /// Where the item begins in the pack.
    pub fn offset(&self) -> (offset: u64)
        requires
            self.wf(),
        ensures
            offset == self.metadata().records()[self.idx() as int].offset,
    {
        self.metadata.offset(self.idx)
    }

    /// Where the item begins and ends in the pack.
    pub fn entry_slice(&self) -> (range: EntryRange)
        requires
            self.wf(),
        ensures
            range.start == self.metadata().records()[self.idx() as int].offset,
            range.end == self.metadata().records()[self.idx() as int].next_offset,
    {
        EntryRange {
            start: self.metadata.offset(self.idx),
            end: self.metadata.next_offset(self.idx),
        }
    }

    /// Whether any item is a delta of this one.
    pub fn has_children(&self) -> (r: bool)
        requires
            self.wf(),
        ensures
            r == (self.metadata().child_seq(self.idx() as int).len() > 0),
    {
        self.metadata.num_children(self.idx) > 0
    }

    /// The items that are deltas of this one.
    pub fn into_child_iter(self) -> (children: Vec<u32>)
        requires
            self.wf(),
        ensures
            children@ == self.metadata().child_seq(self.idx() as int),
    {
        self.metadata.children(self.idx)
    }
}

/// A base whose turn it is.
pub struct Base {
    /// How many bases lie above it.
    pub level: u16,
    pub idx: u32,
    pub source: BaseSource,
}

/// Where the bytes of a base come from.
pub enum BaseSource {
    /// It is no delta: its entry in the pack is decompressed.
    Pack(EntryRange),
    /// It was resolved before.
    Stored(DecodedDelta),
}

/// What to do with a resolved child.
pub enum ChildStep {
    /// It has no children of its own: hand it out.
    Leaf { offset: u64, level: u16, entry: Entry, entry_end: u64, bytes: Vec<u8> },
    /// It waits for its turn as a base, and its bytes may have to be written.
    Queued(Option<Spill>),
}

/// The children of every item.
pub open spec fn all_children(metadata: ItemMetadata) -> super::walk::Children {
    Seq::new(metadata.records().len(), |i: int| metadata.child_seq(i))
}

/// `metadata` describes a forest, as [`super::walk`] needs it.
pub open spec fn is_forest_of(metadata: ItemMetadata) -> bool {
    &&& metadata.wf()
    &&& crate::cache::delta::item_store::offsets_increase(metadata.records())
    &&& super::walk::is_forest(all_children(metadata))
    &&& super::walk::links_in_range(all_children(metadata))
}

/// `nodes` are the items on the stack, with their levels.
spec fn on_stack(nodes: Seq<(u16, u32)>, w: super::walk::Walk) -> bool {
    &&& nodes.len() == w.nodes.len()
    &&& forall|k: int|
        0 <= k < nodes.len() ==> (#[trigger] nodes[k]).1 == w.nodes[k] && nodes[k].0
            == w.levels[nodes[k].1]
}

/// Some delta in `nodes` begins at `offset` and ends at `end`.
spec fn is_waiting(nodes: Seq<(u16, u32)>, recs: Seq<ItemRecord>, offset: u64, end: u64) -> bool {
    exists|k: int|
        0 <= k < nodes.len() && (#[trigger] nodes[k]).0 > 0 && recs[nodes[k].1 as int].offset
            == offset && recs[nodes[k].1 as int].next_offset == end
}

/// Of every delta in `nodes`, and of nothing else, it is kept what it was
/// resolved to.
spec fn are_kept(
    nodes: Seq<(u16, u32)>,
    recs: Seq<ItemRecord>,
    kept: Map<u64, DecodedDelta>,
) -> bool {
    &&& forall|k: int|
        0 <= k < nodes.len() && (#[trigger] nodes[k]).0 > 0 ==> kept.dom().contains(
            recs[nodes[k].1 as int].offset,
        )
    &&& forall|offset: u64| #[trigger]
        kept.dom().contains(offset) ==> kept[offset].wf() && is_waiting(
            nodes,
            recs,
            offset,
            kept[offset].entry_end(),
        )
}

/// What taking the last base off the stack leaves.
proof fn lemma_popped(
    nodes: Seq<(u16, u32)>,
    w: super::walk::Walk,
    metadata: ItemMetadata,
    root: u32,
    kept: Map<u64, DecodedDelta>,
)
    requires
        is_forest_of(metadata),
        w.inv(all_children(metadata), root),
        on_stack(nodes, w),
        are_kept(nodes, metadata.records(), kept),
        nodes.len() > 0,
    ensures
        ({
            let (level, idx) = nodes.last();
            let rec = metadata.records()[idx as int];
            &&& w.knows(idx)
            &&& w.pop().inv(all_children(metadata), root)
            &&& on_stack(nodes.drop_last(), w.pop())
            &&& level == 0 <==> idx == root
            &&& level == 0 ==> are_kept(nodes.drop_last(), metadata.records(), kept)
            &&& level > 0 ==> {
                &&& kept.dom().contains(rec.offset)
                &&& kept[rec.offset].wf()
                &&& kept[rec.offset].entry_end() == rec.next_offset
                &&& are_kept(nodes.drop_last(), metadata.records(), kept.remove(rec.offset))
            }
        }),
{
    let children = all_children(metadata);
    let recs = metadata.records();
    let (level, idx) = nodes.last();
    let last = nodes.len() - 1;
    let rest = nodes.drop_last();
    let offset = recs[idx as int].offset;
    assert(nodes[last] == (level, idx));
    super::walk::lemma_pop(w, children, root);
    lemma_level_zero(w, children, root, idx);
    // Every other base has another offset.
    assert forall|k: int| 0 <= k < last implies recs[(#[trigger] nodes[k]).1 as int].offset
        != offset by {
        let other = nodes[k].1;
        let all = w.emitted + w.nodes;
        let m = w.emitted.len() as int;
        assert(all[m + k] == other);
        assert(all[m + last] == idx);
        assert(w.nodes.contains(other));
        assert(w.knows(other));
        if other < idx {
            assert(recs[other as int].offset < offset);
        } else {
            assert(offset < recs[other as int].offset);
        }
    }
    assert forall|k: int| 0 <= k < rest.len() implies (#[trigger] rest[k]).1 == w.pop().nodes[k]
        && rest[k].0 == w.pop().levels[rest[k].1] by {
        assert(nodes[k] == rest[k]);
    }
    let left = if level == 0 {
        kept
    } else {
        kept.remove(offset)
    };
    assert forall|k: int| 0 <= k < rest.len() && (
    #[trigger] rest[k]).0 > 0 implies left.dom().contains(recs[rest[k].1 as int].offset) by {
        assert(nodes[k] == rest[k]);
    }
    assert forall|o: u64| #[trigger] left.dom().contains(o) implies left[o].wf() && is_waiting(
        rest,
        recs,
        o,
        left[o].entry_end(),
    ) by {
        assert(kept.dom().contains(o));
        let k = choose|k: int|
            0 <= k < nodes.len() && (#[trigger] nodes[k]).0 > 0 && recs[nodes[k].1 as int].offset
                == o && recs[nodes[k].1 as int].next_offset == kept[o].entry_end();
        assert(k != last);
        assert(rest[k] == nodes[k]);
    }
}

/// The next child of a base is an item that the traversal did not come to yet,
/// and going through it keeps the stack in order.
proof fn lemma_next_child(
    nodes: Seq<(u16, u32)>,
    w: super::walk::Walk,
    metadata: ItemMetadata,
    root: u32,
    base: u32,
)
    requires
        is_forest_of(metadata),
        w.inv(all_children(metadata), root),
        super::walk::is_root_of(all_children(metadata), root),
        w.can_step(all_children(metadata), base),
        w.levels[base] < u16::MAX,
        on_stack(nodes, w),
    ensures
        ({
            let children = all_children(metadata);
            let child = w.next_child(children, base);
            let next = w.step(children, base);
            &&& child < metadata.records().len()
            &&& next.inv(children, root)
            &&& if metadata.child_seq(child as int).len() == 0 {
                on_stack(nodes, next)
            } else {
                on_stack(nodes.push(((w.levels[base] + 1) as u16, child)), next)
            }
        }),
{
    let children = all_children(metadata);
    let child = w.next_child(children, base);
    super::walk::lemma_child_is_new(w, children, root, base);
    super::walk::lemma_step(w, children, root, base);
    assert(children[base as int][w.handled[base] as int] == child);
    assert(w.emitted.contains(base));
    assert(w.knows(base));
    assert forall|k: int| 0 <= k < nodes.len() implies (#[trigger] nodes[k]).1 != child by {
        assert(w.nodes[k] == nodes[k].1);
        assert(w.nodes.contains(nodes[k].1));
        assert(w.knows(nodes[k].1));
    }
}

/// The traversal of everything below one root.
pub struct Traversal {
    /// Bases whose turn has not come, with their levels.
    nodes: Vec<(u16, u32)>,
    /// What was resolved of them, by pack offset.
    decompressed_bytes_by_pack_offset: BTreeMap<u64, DecodedDelta>,
    root: Ghost<u32>,
    walk: Ghost<super::walk::Walk>,
}

impl Traversal {
    pub closed spec fn wf(self, metadata: ItemMetadata) -> bool {
        &&& self.walk@.inv(all_children(metadata), self.root@)
        &&& super::walk::is_root_of(all_children(metadata), self.root@)
        &&& on_stack(self.nodes@, self.walk@)
        &&& are_kept(self.nodes@, metadata.records(), self.decompressed_bytes_by_pack_offset@)
    }

    pub closed spec fn root(self) -> u32 {
        self.root@
    }

    /// How far the traversal has come.
    pub closed spec fn walk(self) -> super::walk::Walk {
        self.walk@
    }

    /// The resolved bases that wait for their turn, by pack offset.
    pub closed spec fn kept(self) -> Map<u64, DecodedDelta> {
        self.decompressed_bytes_by_pack_offset@
    }

    /// The traversal of everything below `root_idx`.
    pub fn new(root_idx: u32, metadata: &ItemMetadata) -> (traversal: Self)
        requires
            is_forest_of(*metadata),
            super::walk::is_root_of(all_children(*metadata), root_idx),
        ensures
            traversal.wf(*metadata),
            traversal.root() == root_idx,
            traversal.walk() == super::walk::Walk::begun(root_idx),
            traversal.kept() == Map::<u64, DecodedDelta>::empty(),
    {
        let mut nodes: Vec<(u16, u32)> = Vec::new();
        nodes.push((0, root_idx));
        let traversal = Traversal {
            nodes,
            decompressed_bytes_by_pack_offset: BTreeMap::new(),
            root: Ghost(root_idx),
            walk: Ghost(super::walk::Walk::begun(root_idx)),
        };
        proof {
            super::walk::lemma_begun(all_children(*metadata), root_idx);
        }
        traversal
    }

    /// How many bases wait for their turn.
    pub fn num_waiting(&self, metadata: &ItemMetadata) -> (n: usize)
        requires
            self.wf(*metadata),
        ensures
            n == self.walk().nodes.len(),
    {
        self.nodes.len()
    }

    /// The next base, if any waits for its turn.
    pub fn pop(&mut self, metadata: &ItemMetadata) -> (base: Option<Base>)
        requires
            is_forest_of(*metadata),
            old(self).wf(*metadata),
        ensures
            final(self).wf(*metadata),
            final(self).root() == old(self).root(),
            base is Some <==> old(self).walk().can_pop(),
            forall|offset: u64| #[trigger]
                final(self).kept().dom().contains(offset) ==> old(self).kept().dom().contains(offset)
                    && final(self).kept()[offset] == old(self).kept()[offset],
            match base {
                None => final(self).walk() == old(self).walk() && final(self).kept() == old(
                    self,
                ).kept(),
                Some(base) => {
                    let rec = metadata.records()[base.idx as int];
                    &&& base.idx == old(self).walk().nodes.last()
                    &&& base.level == old(self).walk().levels[base.idx]
                    &&& final(self).walk() == old(self).walk().pop()
                    &&& base.level == 0 <==> base.source is Pack
                    &&& match base.source {
                        BaseSource::Pack(range) => {
                            &&& base.idx == old(self).root()
                            &&& range.start == rec.offset
                            &&& range.end == rec.next_offset
                            &&& final(self).kept() == old(self).kept()
                        },
                        BaseSource::Stored(delta) => {
                            &&& old(self).kept().dom().contains(rec.offset)
                            &&& delta == old(self).kept()[rec.offset]
                            &&& delta.wf()
                            &&& delta.entry_end() == rec.next_offset
                            &&& final(self).kept() == old(self).kept().remove(rec.offset)
                        },
                    }
                },
            },
    {
        let ghost before = *self;
        match self.nodes.pop() {
            None => None,
            Some((level, idx)) => {
                proof {
                    lemma_popped(
                        before.nodes@,
                        before.walk@,
                        *metadata,
                        before.root@,
                        before.decompressed_bytes_by_pack_offset@,
                    );
                    self.walk = Ghost(before.walk@.pop());
                }
                let offset: u64 = metadata.offset(idx);
                if level == 0 {
                    let range = EntryRange { start: offset, end: metadata.next_offset(idx) };
                    Some(Base { level, idx, source: BaseSource::Pack(range) })
                } else {
                    match self.decompressed_bytes_by_pack_offset.remove(&offset) {
                        Some(delta) => Some(
                            Base { level, idx, source: BaseSource::Stored(delta) },
                        ),
                        None => {
                            assert(false);
                            None
                        },
                    }
                }
            },
        }
    }
}

impl Traversal {
    /// Put the next child of `base_idx`, which has children of its own, on the
    /// stack, after `answer` came back from a budget for its bytes. They are kept
    /// in memory if they were granted, else they are handed out to be written.
    pub fn queue(
        &mut self,
        metadata: &ItemMetadata,
        base_idx: u32,
        base_level: u16,
        child_idx: u32,
        entry: Entry,
        entry_end: u64,
        bytes: Vec<u8>,
        answer: Result<Reservation, OutOfBudget>,
        spool: &mut SpoolHandle,
    ) -> (spill: Option<Spill>)
        requires
            is_forest_of(*metadata),
            old(self).wf(*metadata),
            old(self).walk().can_step(all_children(*metadata), base_idx),
            base_level == old(self).walk().levels[base_idx],
            base_level < u16::MAX,
            child_idx == old(self).walk().next_child(all_children(*metadata), base_idx),
            metadata.child_seq(child_idx as int).len() > 0,
            entry_end == metadata.records()[child_idx as int].next_offset,
            old(spool).wf(),
            old(spool).contents().len() + bytes@.len() <= u64::MAX,
            answer matches Ok(granted) ==> granted.held() == bytes@.len(),
        ensures
            final(self).wf(*metadata),
            final(spool).wf(),
            final(self).root() == old(self).root(),
            final(self).walk() == old(self).walk().step(all_children(*metadata), base_idx),
            spill is Some <==> answer is Err,
            ({
                let offset = metadata.records()[child_idx as int].offset;
                let delta = final(self).kept()[offset];
                &&& final(self).kept() == old(self).kept().insert(offset, delta)
                &&& delta.entry() == entry
                &&& delta.entry_end() == entry_end
                &&& delta.content() == bytes@
                &&& match spill {
                    None => {
                        &&& forall|budget: MemoryBudget| #[trigger]
                            delta.is_held_by(budget) <==> answer->Ok_0.is_of(budget)
                        &&& *final(spool) == *old(spool)
                    },
                    Some(s) => {
                        &&& s.offset == old(spool).contents().len()
                        &&& s.bytes@ == bytes@
                        &&& final(spool).contents() == old(spool).contents() + bytes@
                        &&& delta.is_within(final(spool).contents())
                    },
                }
            }),
    {
        let ghost before = *self;
        let ghost next = before.walk@.step(all_children(*metadata), base_idx);
        let ghost recs = metadata.records();
        proof {
            lemma_next_child(before.nodes@, before.walk@, *metadata, before.root@, base_idx);
        }
        let level: u16 = base_level + 1;
        let offset: u64 = metadata.offset(child_idx);
        let (delta, spill) = DecodedDelta::store_reserved(
            entry,
            entry_end,
            bytes,
            answer,
            spool,
        );
        self.decompressed_bytes_by_pack_offset.insert(offset, delta);
        self.nodes.push((level, child_idx));
        proof {
            self.walk = Ghost(next);
            let nodes = self.nodes@;
            let kept = self.decompressed_bytes_by_pack_offset@;
            let was = before.decompressed_bytes_by_pack_offset@;
            assert(kept == was.insert(offset, delta));
            assert(nodes == before.nodes@.push((level, child_idx)));
            assert forall|k: int| 0 <= k < nodes.len() && (
            #[trigger] nodes[k]).0 > 0 implies kept.dom().contains(
                recs[nodes[k].1 as int].offset,
            ) by {
                if k < before.nodes@.len() {
                    assert(before.nodes@[k] == nodes[k]);
                }
            }
            assert forall|o: u64| #[trigger] kept.dom().contains(o) implies kept[o].wf()
                && is_waiting(nodes, recs, o, kept[o].entry_end()) by {
                if o == offset {
                    assert(nodes[before.nodes@.len() as int] == (level, child_idx));
                } else {
                    assert(was.dom().contains(o));
                    let k = choose|k: int|
                        0 <= k < before.nodes@.len() && (#[trigger] before.nodes@[k]).0 > 0
                            && recs[before.nodes@[k].1 as int].offset == o
                            && recs[before.nodes@[k].1 as int].next_offset == was[o].entry_end();
                    assert(nodes[k] == before.nodes@[k]);
                }
            }
        }
        spill
    }

    /// Go on with the next child of `base_idx`, a base that was popped before:
    /// its bytes are resolved to `bytes`. The child takes over the header of its
    /// base. Whether one that has children stays in memory is up to the budget, as
    /// [`queue`](Self::queue) has it.
    pub fn child(
        &mut self,
        metadata: &ItemMetadata,
        base_idx: u32,
        base_level: u16,
        base_header: Header,
        child_idx: u32,
        entry: Entry,
        entry_end: u64,
        bytes: Vec<u8>,
        budget: &MemoryBudget,
        spool: &mut SpoolHandle,
    ) -> (step: ChildStep)
        requires
            is_forest_of(*metadata),
            old(self).wf(*metadata),
            old(self).walk().can_step(all_children(*metadata), base_idx),
            base_level == old(self).walk().levels[base_idx],
            base_level < u16::MAX,
            child_idx == old(self).walk().next_child(all_children(*metadata), base_idx),
            entry_end == metadata.records()[child_idx as int].next_offset,
            old(spool).wf(),
            old(spool).contents().len() + bytes@.len() <= u64::MAX,
        ensures
            final(self).wf(*metadata),
            final(spool).wf(),
            final(self).root() == old(self).root(),
            final(self).walk() == old(self).walk().step(all_children(*metadata), base_idx),
            all_readable(old(self).kept(), *budget, old(spool).contents()) ==> all_readable(
                final(self).kept(),
                *budget,
                final(spool).contents(),
            ),
            step is Leaf <==> metadata.child_seq(child_idx as int).len() == 0,
            match step {
                ChildStep::Leaf { offset, level, entry: e, entry_end: end, bytes: b } => {
                    &&& offset == metadata.records()[child_idx as int].offset
                    &&& level == base_level + 1
                    &&& e == (Entry { header: base_header, ..entry })
                    &&& end == entry_end
                    &&& b == bytes
                    &&& final(self).kept() == old(self).kept()
                    &&& *final(spool) == *old(spool)
                },
                ChildStep::Queued(spill) => {
                    let offset = metadata.records()[child_idx as int].offset;
                    let delta = final(self).kept()[offset];
                    &&& final(self).kept() == old(self).kept().insert(offset, delta)
                    &&& delta.entry() == (Entry { header: base_header, ..entry })
                    &&& delta.entry_end() == entry_end
                    &&& delta.content() == bytes@
                    &&& bytes@.len() == 0 ==> spill is None
                    &&& bytes@.len() > budget.limit() ==> spill is Some
                    &&& match spill {
                        None => delta.is_held_by(*budget) && *final(spool) == *old(spool),
                        Some(s) => {
                            &&& s.offset == old(spool).contents().len()
                            &&& s.bytes@ == bytes@
                            &&& final(spool).contents() == old(spool).contents() + bytes@
                            &&& delta.is_within(final(spool).contents())
                        },
                    }
                },
            },
    {
        let ghost before = *self;
        let ghost next = before.walk@.step(all_children(*metadata), base_idx);
        proof {
            lemma_next_child(before.nodes@, before.walk@, *metadata, before.root@, base_idx);
        }
        let ghost content = bytes@;
        let entry = Entry { header: base_header, ..entry };
        let level: u16 = base_level + 1;
        let offset: u64 = metadata.offset(child_idx);
        if metadata.num_children(child_idx) > 0 {
            let answer = budget.reserve(bytes.len());
            let spill = self.queue(
                metadata,
                base_idx,
                base_level,
                child_idx,
                entry,
                entry_end,
                bytes,
                answer,
                spool,
            );
            proof {
                let kept = self.decompressed_bytes_by_pack_offset@;
                let was = before.decompressed_bytes_by_pack_offset@;
                if all_readable(was, *budget, old(spool).contents()) {
                    law_waiting_objects_stay_readable(
                        was,
                        *budget,
                        old(spool).contents(),
                        content,
                    );
                    assert forall|o: u64| #[trigger] kept.dom().contains(o) implies kept[o].is_held_by(
                        *budget,
                    ) || kept[o].is_within(spool.contents()) by {
                        if o != offset {
                            assert(was.dom().contains(o));
                        }
                    }
                }
            }
            ChildStep::Queued(spill)
        } else {
            proof {
                self.walk = Ghost(next);
            }
            ChildStep::Leaf { offset, level, entry, entry_end, bytes }
        }
    }
}

/// Only the root has level zero.
proof fn lemma_level_zero(
    w: super::walk::Walk,
    children: super::walk::Children,
    root: u32,
    x: u32,
)
    requires
        w.inv(children, root),
        w.knows(x),
    ensures
        w.levels[x] == 0 <==> x == root,
{
    if x != root {
        let (p, c) = choose|p: u32, c: int|
            #![trigger children[p as int][c]]
            w.came_through(children, x, p, c);
        assert(w.came_through(children, x, p, c));
    }
}

/// `metadata` describes `items`: where each of them is, and as its children those
/// that name it as their base.
pub open spec fn is_metadata_of(
    metadata: ItemMetadata,
    items: Seq<crate::cache::delta::tree::TreeItem>,
) -> bool {
    &&& metadata.wf()
    &&& metadata.records().len() == items.len()
    &&& forall|i: int|
        0 <= i < items.len() ==> {
            &&& (#[trigger] metadata.records()[i]).offset == items[i].offset
            &&& metadata.child_seq(i) == crate::cache::delta::tree::children_at(
                items,
                items[i].offset,
            )
        }
}

/// The items of a resolved tree can be traversed from each of its roots: where
/// every item has as its children those that name it as their base, items form a
/// forest, and items that name no base are its roots.
pub proof fn law_resolved_tree_can_be_traversed(items: Seq<crate::cache::delta::tree::TreeItem>, metadata: ItemMetadata)
    requires
        crate::cache::delta::tree::is_pack_order(items),
        is_metadata_of(metadata, items),
    ensures
        is_forest_of(metadata),
        all_children(metadata) == crate::cache::delta::tree::tree_children(items),
        forall|r: u32|
            r < items.len() && (#[trigger] items[r as int]).base is None
                ==> super::walk::is_root_of(all_children(metadata), r),
{
    let recs = metadata.records();
    assert forall|i: int| 0 <= i < items.len() implies (#[trigger] all_children(metadata)[i])
        == crate::cache::delta::tree::tree_children(items)[i] by {
        assert(recs[i].offset == items[i].offset);
    }
    assert(all_children(metadata) =~= crate::cache::delta::tree::tree_children(items));
    crate::cache::delta::tree::law_items_form_a_forest(items);
    assert forall|i: int, j: int| 0 <= i < j < recs.len() implies (#[trigger] recs[i]).offset < (
    #[trigger] recs[j]).offset by {
        assert(items[i].offset < items[j].offset);
    }
}

/// Traversing a resolved tree from all of its roots hands out every item that has
/// a root, by the traversal of exactly one root, and exactly once there.
pub proof fn law_all_items_are_handed_out_once(
    items: Seq<crate::cache::delta::tree::TreeItem>,
    metadata: ItemMetadata,
    traversals: Map<u32, Traversal>,
    x: u32,
)
    requires
        crate::cache::delta::tree::is_pack_order(items),
        crate::cache::delta::tree::has_root(items, x),
        is_metadata_of(metadata, items),
        forall|r: u32|
            r < items.len() && (#[trigger] items[r as int]).base is None
                ==> traversals.dom().contains(r),
        forall|r: u32| #[trigger]
            traversals.dom().contains(r) ==> {
                &&& r < items.len()
                &&& items[r as int].base is None
                &&& traversals[r].wf(metadata)
                &&& traversals[r].root() == r
                &&& traversals[r].walk().is_over(all_children(metadata))
            },
        x < items.len(),
    ensures
        exists|r: u32|
            {
                &&& #[trigger] traversals.dom().contains(r)
                &&& traversals[r].walk().emitted.contains(x)
                &&& traversals[r].walk().emitted.no_duplicates()
                &&& forall|other: u32| #[trigger]
                    traversals.dom().contains(other) && other != r
                        ==> !traversals[other].walk().emitted.contains(x)
            },
{
    let children = all_children(metadata);
    law_resolved_tree_can_be_traversed(items, metadata);
    let depth = choose|steps: nat| #[trigger]
        crate::cache::delta::tree::leads_to_root(items, x, steps);
    crate::cache::delta::tree::law_every_item_lies_below_a_root(items, x, depth);
    let r = choose|r: u32|
        r < items.len() && items[r as int].base is None && #[trigger] super::walk::is_below(
            crate::cache::delta::tree::tree_children(items),
            r,
            x,
            depth,
        );
    assert(traversals.dom().contains(r));
    super::walk::law_every_item_is_handed_out_once(
        traversals[r].walk(),
        children,
        r,
        x,
        depth,
    );
    assert forall|other: u32| #[trigger]
        traversals.dom().contains(other) && other != r implies !traversals[other].walk().emitted.contains(
        x,
    ) by {
        let w = traversals[other].walk();
        if w.emitted.contains(x) {
            assert(w.knows(x));
            super::walk::law_only_items_below_are_handed_out(w, children, other, x);
            assert(super::walk::is_root_of(children, r));
            assert(super::walk::is_root_of(children, other));
            super::walk::law_roots_share_nothing(children, r, other, x, depth, w.levels[x]);
        }
    }
}

/// What all traversals hand out, one after the other.
pub open spec fn handed_out(traversals: Seq<Traversal>) -> Seq<u32> {
    crate::sort::concat(Seq::new(traversals.len(), |i: int| traversals[i].walk().emitted))
}

/// What runs hold together, some run holds.
proof fn lemma_concat_contains(runs: Seq<Seq<u32>>, x: u32)
    ensures
        crate::sort::concat(runs).contains(x) <==> exists|i: int|
            0 <= i < runs.len() && (#[trigger] runs[i]).contains(x),
    decreases runs.len(),
{
    if runs.len() > 0 {
        let init = runs.drop_last();
        let front = crate::sort::concat(init);
        let all = crate::sort::concat(runs);
        lemma_concat_contains(init, x);
        if all.contains(x) {
            let k = all.index_of(x);
            if k < front.len() {
                assert(front[k] == x);
                assert(front.contains(x));
                let i = choose|i: int| 0 <= i < init.len() && (#[trigger] init[i]).contains(x);
                assert(runs[i].contains(x));
            } else {
                assert(runs.last()[k - front.len()] == x);
                assert(runs[runs.len() - 1].contains(x));
            }
        }
        if exists|i: int| 0 <= i < runs.len() && (#[trigger] runs[i]).contains(x) {
            let i = choose|i: int| 0 <= i < runs.len() && (#[trigger] runs[i]).contains(x);
            if i < init.len() {
                assert(init[i].contains(x));
                assert(all[front.index_of(x)] == x);
            } else {
                assert(all[front.len() + runs[i].index_of(x)] == x);
            }
        }
    }
}

/// Runs that share nothing and repeat nothing repeat nothing together.
proof fn lemma_concat_no_duplicates(runs: Seq<Seq<u32>>)
    requires
        forall|i: int| 0 <= i < runs.len() ==> (#[trigger] runs[i]).no_duplicates(),
        forall|i: int, j: int, x: u32|
            0 <= i < j < runs.len() && #[trigger] runs[i].contains(x) ==> !(
            #[trigger] runs[j].contains(x)),
    ensures
        crate::sort::concat(runs).no_duplicates(),
    decreases runs.len(),
{
    if runs.len() > 0 {
        let init = runs.drop_last();
        assert forall|i: int| 0 <= i < init.len() implies (#[trigger] init[i]).no_duplicates() by {
            assert(runs[i].no_duplicates());
        }
        assert forall|i: int, j: int, x: u32|
            0 <= i < j < init.len() && #[trigger] init[i].contains(x) implies !(
        #[trigger] init[j].contains(x)) by {
            assert(runs[i].contains(x));
            assert(!runs[j].contains(x));
        }
        lemma_concat_no_duplicates(init);
        let front = crate::sort::concat(init);
        let last = runs.last();
        let all = crate::sort::concat(runs);
        assert(runs[runs.len() - 1].no_duplicates());
        assert forall|a: int, b: int| 0 <= a < b < all.len() implies all[a] != all[b] by {
            if b < front.len() {
                assert(front[a] != front[b]);
            } else if a >= front.len() {
                assert(last[a - front.len()] != last[b - front.len()]);
            } else {
                let x = all[a];
                assert(front[a] == x);
                assert(front.contains(x));
                lemma_concat_contains(init, x);
                let i = choose|i: int| 0 <= i < init.len() && (#[trigger] init[i]).contains(x);
                assert(runs[i].contains(x));
                if all[b] == x {
                    assert(last[b - front.len()] == x);
                    assert(runs[runs.len() - 1].contains(x));
                }
            }
        }
    }
}

/// Numbers without repetition that are exactly those below `n` are `n` in number.
proof fn lemma_count_below(s: Seq<u32>, n: nat)
    requires
        n <= u32::MAX,
        s.no_duplicates(),
        forall|x: u32| #[trigger] s.contains(x) <==> x < n,
    ensures
        s.len() == n,
    decreases n,
{
    if n == 0 {
        if s.len() > 0 {
            assert(s.contains(s[0]));
        }
    } else {
        let last = (n - 1) as u32;
        assert(s.contains(last));
        let i = s.index_of(last);
        let rest = s.remove(i);
        assert forall|a: int, b: int| 0 <= a < b < rest.len() implies rest[a] != rest[b] by {
            let a0 = if a < i {
                a
            } else {
                a + 1
            };
            let b0 = if b < i {
                b
            } else {
                b + 1
            };
            assert(s[a0] != s[b0]);
        }
        assert forall|x: u32| #[trigger] rest.contains(x) <==> x < n - 1 by {
            if rest.contains(x) {
                let k = rest.index_of(x);
                let k0 = if k < i {
                    k
                } else {
                    k + 1
                };
                assert(s[k0] == x);
                assert(s.contains(x));
                assert(s[k0] != s[i]);
            }
            if x < n - 1 {
                assert(s.contains(x));
                let k = s.index_of(x);
                if k < i {
                    assert(rest[k] == x);
                } else {
                    assert(rest[k - 1] == x);
                }
            }
        }
        lemma_count_below(rest, (n - 1) as nat);
    }
}

/// `items` were traversed from each of their roots to the end.
pub open spec fn are_traversed(
    items: Seq<crate::cache::delta::tree::TreeItem>,
    metadata: ItemMetadata,
    is_root: Seq<bool>,
    traversals: Seq<Traversal>,
) -> bool {
    &&& is_metadata_of(metadata, items)
    &&& is_root.len() == items.len()
    &&& forall|i: int| 0 <= i < items.len() ==> #[trigger] is_root[i] == (items[i].base is None)
    &&& traversals.len() == super::roots_of(is_root).len()
    &&& forall|i: int|
        0 <= i < traversals.len() ==> {
            &&& (#[trigger] traversals[i]).wf(metadata)
            &&& traversals[i].root() == super::roots_of(is_root)[i]
            &&& traversals[i].walk().is_over(all_children(metadata))
        }
}

/// Once a resolved tree was traversed from each of its roots, every item was
/// handed out, and none was handed out twice.
pub proof fn law_traversals_hand_out_all_items(
    items: Seq<crate::cache::delta::tree::TreeItem>,
    metadata: ItemMetadata,
    is_root: Seq<bool>,
    traversals: Seq<Traversal>,
)
    requires
        crate::cache::delta::tree::is_pack_order(items),
        crate::cache::delta::tree::all_have_roots(items),
        are_traversed(items, metadata, is_root, traversals),
    ensures
        handed_out(traversals).no_duplicates(),
        forall|x: u32| #[trigger] handed_out(traversals).contains(x) <==> x < items.len(),
        handed_out(traversals).len() == items.len(),
{
    let roots = super::roots_of(is_root);
    super::law_roots_are_listed_once(is_root);
    let by_root = Map::new(
        |r: u32| roots.contains(r),
        |r: u32| traversals[roots.index_of(r)],
    );
    assert forall|i: int| 0 <= i < roots.len() implies #[trigger] by_root[roots[i]]
        == traversals[i] by {
        assert(roots.contains(roots[i]));
        let k = roots.index_of(roots[i]);
        if k < i {
            assert(roots[k] < roots[i]);
        } else if i < k {
            assert(roots[i] < roots[k]);
        }
    }
    assert forall|r: u32| r < items.len() && (
    #[trigger] items[r as int]).base is None implies by_root.dom().contains(r) by {
        assert(is_root[r as int]);
        assert(roots.contains(r));
    }
    assert forall|r: u32| #[trigger] by_root.dom().contains(r) implies {
        &&& r < items.len()
        &&& items[r as int].base is None
        &&& by_root[r].wf(metadata)
        &&& by_root[r].root() == r
        &&& by_root[r].walk().is_over(all_children(metadata))
    } by {
        assert(roots.contains(r));
        let i = roots.index_of(r);
        assert(by_root[roots[i]] == traversals[i]);
        assert(is_root[r as int]);
    }
    let runs = Seq::new(traversals.len(), |i: int| traversals[i].walk().emitted);
    let children = all_children(metadata);
    law_resolved_tree_can_be_traversed(items, metadata);
    assert forall|x: u32| x < items.len() implies #[trigger] handed_out(traversals).contains(x) by {
        law_all_items_are_handed_out_once(items, metadata, by_root, x);
        let r = choose|r: u32|
            {
                &&& #[trigger] by_root.dom().contains(r)
                &&& by_root[r].walk().emitted.contains(x)
                &&& by_root[r].walk().emitted.no_duplicates()
                &&& forall|other: u32| #[trigger]
                    by_root.dom().contains(other) && other != r
                        ==> !by_root[other].walk().emitted.contains(x)
            };
        let i = roots.index_of(r);
        assert(by_root[roots[i]] == traversals[i]);
        assert(runs[i].contains(x));
        lemma_concat_contains(runs, x);
    }
    assert forall|x: u32| #[trigger] handed_out(traversals).contains(x) implies x < items.len() by {
        lemma_concat_contains(runs, x);
        let i = choose|i: int| 0 <= i < runs.len() && (#[trigger] runs[i]).contains(x);
        let w = traversals[i].walk();
        assert(traversals[i].wf(metadata));
        assert(w.emitted.contains(x));
        assert(w.knows(x));
    }
    assert forall|i: int| 0 <= i < runs.len() implies (#[trigger] runs[i]).no_duplicates() by {
        let w = traversals[i].walk();
        assert(traversals[i].wf(metadata));
        assert(w.emitted + w.nodes =~= w.emitted);
    }
    assert forall|i: int, j: int, x: u32|
        0 <= i < j < runs.len() && #[trigger] runs[i].contains(x) implies !(
    #[trigger] runs[j].contains(x)) by {
        assert(traversals[i].wf(metadata));
        assert(x < items.len()) by {
            assert(traversals[i].walk().knows(x));
        }
        law_all_items_are_handed_out_once(items, metadata, by_root, x);
        assert(by_root[roots[i]] == traversals[i]);
        assert(by_root[roots[j]] == traversals[j]);
        assert(roots[i] < roots[j]);
        assert(roots.contains(roots[i]));
        assert(roots.contains(roots[j]));
        assert(by_root.dom().contains(roots[i]));
        assert(by_root.dom().contains(roots[j]));
    }
    lemma_concat_no_duplicates(runs);
    lemma_count_below(handed_out(traversals), items.len());
}

} // verus!
