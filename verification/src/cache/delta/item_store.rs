//! The items of a delta tree as two byte images.
//!
//! One image holds a fixed-size record per item, the other the children of all
//! items one after the other. Both can be scratch files mapped into memory;
//! this module works on their bytes and hands out what has to be written.
use vstd::prelude::*;

use crate::bytes::{get_le, put_le, set_le};

verus! {

/// The size of an item record in bytes.
pub const RECORD_SIZE: usize = 24;

/// One item as it is stored. All fields are little-endian:
///
/// | field            | offset | size |
/// | ---              | ---    | ---  |
/// | `offset`         | 0      | 8    |
/// | `next_offset`    | 8      | 8    |
/// | `children_start` | 16     | 4    |
/// | `children_len`   | 20     | 4    |
#[derive(Copy, Clone, Debug, PartialEq, Eq, Structural)]
pub struct ItemRecord {
    pub offset: u64,
    pub next_offset: u64,
    /// The position of the first child among the children of all items, or 0
    /// if there are none.
    pub children_start: u32,
    /// How many children there are.
    pub children_len: u32,
}

impl ItemRecord {
    /// The bytes of this record.
    pub open spec fn encoded(self) -> Seq<u8> {
        crate::bytes::le_bytes(self.offset as nat, 8) + crate::bytes::le_bytes(
            self.next_offset as nat,
            8,
        ) + crate::bytes::le_bytes(self.children_start as nat, 4) + crate::bytes::le_bytes(
            self.children_len as nat,
            4,
        )
    }
}

/// The little-endian number in the `n` bytes of `s` from `at` on.
pub open spec fn le_at(s: Seq<u8>, at: int, n: nat) -> nat {
    crate::bytes::le_value(s.subrange(at, at + n))
}

/// The record at place `i` of an items image.
pub open spec fn record_at(items: Seq<u8>, i: int) -> ItemRecord {
    ItemRecord {
        offset: le_at(items, 24 * i, 8) as u64,
        next_offset: le_at(items, 24 * i + 8, 8) as u64,
        children_start: le_at(items, 24 * i + 16, 4) as u32,
        children_len: le_at(items, 24 * i + 20, 4) as u32,
    }
}

/// The first `n` records of an items image.
pub open spec fn records(items: Seq<u8>, n: nat) -> Seq<ItemRecord> {
    Seq::new(n, |i: int| record_at(items, i))
}

/// The children that a record refers to.
pub open spec fn children_in(edges: Seq<u8>, record: ItemRecord) -> Seq<u32> {
    Seq::new(
        record.children_len as nat,
        |k: int| le_at(edges, 4 * (record.children_start + k), 4) as u32,
    )
}

/// Item offsets grow from one item to the next.
pub open spec fn offsets_increase(recs: Seq<ItemRecord>) -> bool {
    forall|i: int, j: int|
        0 <= i < j < recs.len() ==> (#[trigger] recs[i]).offset < (#[trigger] recs[j]).offset
}

/// What a record says, its bytes say.
proof fn lemma_record_roundtrip(items: Seq<u8>, i: int, rec: ItemRecord)
    requires
        0 <= i,
        24 * i + 24 <= items.len(),
        items.subrange(24 * i, 24 * i + 24) == rec.encoded(),
    ensures
        record_at(items, i) == rec,
{
    let e = rec.encoded();
    crate::bytes::lemma_range_of();
    crate::bytes::lemma_le_roundtrip(rec.offset as nat, 8);
    crate::bytes::lemma_le_roundtrip(rec.next_offset as nat, 8);
    crate::bytes::lemma_le_roundtrip(rec.children_start as nat, 4);
    crate::bytes::lemma_le_roundtrip(rec.children_len as nat, 4);
    let b = 24 * i;
    assert(items.subrange(b, b + 8) =~= e.subrange(0, 8));
    assert(items.subrange(b + 8, b + 16) =~= e.subrange(8, 16));
    assert(items.subrange(b + 16, b + 20) =~= e.subrange(16, 20));
    assert(items.subrange(b + 20, b + 24) =~= e.subrange(20, 24));
    assert(e.subrange(0, 8) =~= crate::bytes::le_bytes(rec.offset as nat, 8));
    assert(e.subrange(8, 16) =~= crate::bytes::le_bytes(rec.next_offset as nat, 8));
    assert(e.subrange(16, 20) =~= crate::bytes::le_bytes(rec.children_start as nat, 4));
    assert(e.subrange(20, 24) =~= crate::bytes::le_bytes(rec.children_len as nat, 4));
}

/// Records depend on their own bytes only.
proof fn lemma_record_same(a: Seq<u8>, b: Seq<u8>, i: int)
    requires
        0 <= i,
        24 * i + 24 <= a.len(),
        24 * i + 24 <= b.len(),
        a.subrange(24 * i, 24 * i + 24) == b.subrange(24 * i, 24 * i + 24),
    ensures
        record_at(a, i) == record_at(b, i),
{
    let x = a.subrange(24 * i, 24 * i + 24);
    let base = 24 * i;
    assert(a.subrange(base, base + 8) =~= x.subrange(0, 8));
    assert(a.subrange(base + 8, base + 16) =~= x.subrange(8, 16));
    assert(a.subrange(base + 16, base + 20) =~= x.subrange(16, 20));
    assert(a.subrange(base + 20, base + 24) =~= x.subrange(20, 24));
    assert(b.subrange(base, base + 8) =~= x.subrange(0, 8));
    assert(b.subrange(base + 8, base + 16) =~= x.subrange(8, 16));
    assert(b.subrange(base + 16, base + 20) =~= x.subrange(16, 20));
    assert(b.subrange(base + 20, base + 24) =~= x.subrange(20, 24));
}

/// Patching `next_offset` changes that field of that record and nothing else.
proof fn lemma_patch_next(items: Seq<u8>, n: nat, i: int, next: u64)
    requires
        0 <= i < n,
        24 * n <= items.len(),
    ensures
        ({
            let after = crate::bytes::patched(
                items,
                24 * i + 8,
                crate::bytes::le_bytes(next as nat, 8),
            );
            &&& after.len() == items.len()
            &&& records(after, n) == records(items, n).update(
                i,
                (ItemRecord { next_offset: next, ..record_at(items, i) }),
            )
        }),
{
    let new = crate::bytes::le_bytes(next as nat, 8);
    let at = 24 * i + 8;
    let after = crate::bytes::patched(items, at, new);
    crate::bytes::lemma_range_of();
    crate::bytes::lemma_le_roundtrip(next as nat, 8);
    crate::bytes::lemma_patch_read(items, at, new);
    assert forall|j: int| 0 <= j < n implies #[trigger] record_at(after, j) == records(
        items,
        n,
    ).update(i, (ItemRecord { next_offset: next, ..record_at(items, i) }))[j] by {
        if j == i {
            crate::bytes::lemma_patch_elsewhere(items, at, new, 24 * i, 24 * i + 8);
            crate::bytes::lemma_patch_elsewhere(items, at, new, 24 * i + 16, 24 * i + 20);
            crate::bytes::lemma_patch_elsewhere(items, at, new, 24 * i + 20, 24 * i + 24);
        } else {
            crate::bytes::lemma_patch_elsewhere(items, at, new, 24 * j, 24 * j + 24);
            lemma_record_same(after, items, j);
        }
    }
    assert(records(after, n) =~= records(items, n).update(
        i,
        (ItemRecord { next_offset: next, ..record_at(items, i) }),
    ));
}

/// Patching the children range changes those fields of that record and nothing else.
proof fn lemma_patch_children(items: Seq<u8>, n: nat, i: int, start: u32, len: u32)
    requires
        0 <= i < n,
        24 * n <= items.len(),
    ensures
        ({
            let mid = crate::bytes::patched(
                items,
                24 * i + 16,
                crate::bytes::le_bytes(start as nat, 4),
            );
            let after = crate::bytes::patched(
                mid,
                24 * i + 20,
                crate::bytes::le_bytes(len as nat, 4),
            );
            &&& after.len() == items.len()
            &&& records(after, n) == records(items, n).update(
                i,
                (ItemRecord {
                    children_start: start,
                    children_len: len,
                    ..record_at(items, i)
                }),
            )
        }),
{
    let new1 = crate::bytes::le_bytes(start as nat, 4);
    let new2 = crate::bytes::le_bytes(len as nat, 4);
    let at = 24 * i + 16;
    let mid = crate::bytes::patched(items, at, new1);
    let after = crate::bytes::patched(mid, at + 4, new2);
    crate::bytes::lemma_range_of();
    crate::bytes::lemma_le_roundtrip(start as nat, 4);
    crate::bytes::lemma_le_roundtrip(len as nat, 4);
    crate::bytes::lemma_patch_read(items, at, new1);
    crate::bytes::lemma_patch_read(mid, at + 4, new2);
    let want = ItemRecord { children_start: start, children_len: len, ..record_at(items, i) };
    assert forall|j: int| 0 <= j < n implies #[trigger] record_at(after, j) == records(
        items,
        n,
    ).update(i, want)[j] by {
        if j == i {
            crate::bytes::lemma_patch_elsewhere(items, at, new1, 24 * i, 24 * i + 8);
            crate::bytes::lemma_patch_elsewhere(items, at, new1, 24 * i + 8, 24 * i + 16);
            crate::bytes::lemma_patch_elsewhere(mid, at + 4, new2, 24 * i, 24 * i + 8);
            crate::bytes::lemma_patch_elsewhere(mid, at + 4, new2, 24 * i + 8, 24 * i + 16);
            crate::bytes::lemma_patch_elsewhere(mid, at + 4, new2, 24 * i + 16, 24 * i + 20);
        } else {
            crate::bytes::lemma_patch_elsewhere(items, at, new1, 24 * j, 24 * j + 24);
            crate::bytes::lemma_patch_elsewhere(mid, at + 4, new2, 24 * j, 24 * j + 24);
            lemma_record_same(after, items, j);
        }
    }
    assert(records(after, n) =~= records(items, n).update(i, want));
}

/// Appending a record adds it to the records.
proof fn lemma_append_record(items: Seq<u8>, n: nat, rec: ItemRecord)
    requires
        items.len() == 24 * n,
    ensures
        rec.encoded().len() == 24,
        records(items + rec.encoded(), n + 1) == records(items, n).push(rec),
{
    crate::bytes::lemma_le_len(rec.offset as nat, 8);
    crate::bytes::lemma_le_len(rec.next_offset as nat, 8);
    crate::bytes::lemma_le_len(rec.children_start as nat, 4);
    crate::bytes::lemma_le_len(rec.children_len as nat, 4);
    let after = items + rec.encoded();
    assert(after.subrange(24 * n as int, 24 * n as int + 24) =~= rec.encoded());
    lemma_record_roundtrip(after, n as int, rec);
    assert forall|j: int| 0 <= j < n implies #[trigger] record_at(after, j) == record_at(
        items,
        j,
    ) by {
        assert(after.subrange(24 * j, 24 * j + 24) =~= items.subrange(24 * j, 24 * j + 24));
        lemma_record_same(after, items, j);
    }
    assert(records(after, n + 1) =~= records(items, n).push(rec));
}

/// The children that `edges`, pairs of parent and child, give to `parent`, in order.
pub open spec fn children_of(edges: Seq<(u32, u32)>, parent: u32) -> Seq<u32>
    decreases edges.len(),
{
    if edges.len() == 0 {
        Seq::empty()
    } else if edges.last().0 == parent {
        children_of(edges.drop_last(), parent).push(edges.last().1)
    } else {
        children_of(edges.drop_last(), parent)
    }
}

/// The pairs of one parent stand together, parents ascending.
pub open spec fn sorted_by_parent(edges: Seq<(u32, u32)>) -> bool {
    forall|i: int, j: int| 0 <= i <= j < edges.len() ==> (#[trigger] edges[i]).0 <= (#[trigger] edges[j]).0
}

/// The children of `len` pairs from `start` on.
spec fn children_between(edges: Seq<(u32, u32)>, start: int, len: nat) -> Seq<u32> {
    Seq::new(len, |k: int| edges[start + k].1)
}

/// A run of pairs of one parent gives that parent its children, and nothing to others.
proof fn lemma_run(edges: Seq<(u32, u32)>, i: int, j: int, parent: u32, p: u32)
    requires
        0 <= i <= j <= edges.len(),
        forall|k: int| i <= k < j ==> (#[trigger] edges[k]).0 == parent,
    ensures
        p != parent ==> children_of(edges.take(j), p) == children_of(edges.take(i), p),
        p == parent ==> children_of(edges.take(j), p) == children_of(edges.take(i), p)
            + children_between(edges, i, (j - i) as nat),
    decreases j - i,
{
    if i < j {
        lemma_run(edges, i, j - 1, parent, p);
        assert(edges.take(j).drop_last() =~= edges.take(j - 1));
        assert(edges.take(j).last() == edges[j - 1]);
        if p == parent {
            assert(children_of(edges.take(j), p) =~= children_of(edges.take(i), p)
                + children_between(edges, i, (j - i) as nat));
        }
    } else {
        assert(children_of(edges.take(i), p) + children_between(edges, i, 0)
            =~= children_of(edges.take(i), p));
    }
}

proof fn lemma_no_children(edges: Seq<(u32, u32)>, p: u32)
    requires
        forall|k: int| 0 <= k < edges.len() ==> (#[trigger] edges[k]).0 != p,
    ensures
        children_of(edges, p) == Seq::<u32>::empty(),
    decreases edges.len(),
{
    if edges.len() > 0 {
        let init = edges.drop_last();
        assert forall|k: int| 0 <= k < init.len() implies (#[trigger] init[k]).0 != p by {
            assert(init[k] == edges[k]);
        }
        lemma_no_children(init, p);
    }
}

/// Every record refers to children that are there.
pub open spec fn well_linked(items: Seq<u8>, edges: Seq<u8>, n: nat) -> bool {
    &&& 24 * n <= items.len()
    &&& forall|i: int|
        0 <= i < n ==> {
            let rec = #[trigger] record_at(items, i);
            rec.children_len > 0 ==> 4 * (rec.children_start + rec.children_len) <= edges.len()
        }
}

/// Read-only view of all items.
#[derive(Clone, Copy)]
pub struct ItemMetadata<'a> {
    items: &'a [u8],
    edges: &'a [u8],
    num_items: u32,
    num_edges: u32,
}

impl<'a> ItemMetadata<'a> {
    pub closed spec fn wf(self) -> bool {
        well_linked(self.items@, self.edges@, self.num_items as nat)
    }

    /// All item records.
    pub closed spec fn records(self) -> Seq<ItemRecord> {
        records(self.items@, self.num_items as nat)
    }

    /// The children of item `i`.
    pub closed spec fn child_seq(self, i: int) -> Seq<u32> {
        children_in(self.edges@, record_at(self.items@, i))
    }

    pub fn num_items(&self) -> (n: u32)
        ensures
            n == self.records().len(),
    {
        self.num_items
    }

    /// The number in the eight bytes at `byte_offset_within_rec` of record `idx`.
    fn record_field(&self, idx: u32, byte_offset_within_rec: usize) -> (v: u64)
        requires
            self.wf(),
            idx < self.num_items,
            byte_offset_within_rec <= 16,
        ensures
            v == le_at(self.items@, 24 * idx + byte_offset_within_rec, 8),
    {
        assert(self.items@.len() == self.items.len());
        get_le(self.items, idx as usize * RECORD_SIZE + byte_offset_within_rec, 8)
    }

    /// Where item `idx` begins in the pack.
    pub fn offset(&self, idx: u32) -> (v: u64)
        requires
            self.wf(),
            idx < self.records().len(),
        ensures
            v == self.records()[idx as int].offset,
    {
        self.record_field(idx, 0)
    }

    /// Where item `idx` ends in the pack.
    pub fn next_offset(&self, idx: u32) -> (v: u64)
        requires
            self.wf(),
            idx < self.records().len(),
        ensures
            v == self.records()[idx as int].next_offset,
    {
        self.record_field(idx, 8)
    }

    /// How many children item `idx` has.
    pub fn num_children(&self, idx: u32) -> (n: u32)
        requires
            self.wf(),
            idx < self.records().len(),
        ensures
            n == self.child_seq(idx as int).len(),
    {
        assert(self.items@.len() == self.items.len());
        let base: usize = idx as usize * RECORD_SIZE;
        let len: u64 = get_le(self.items, base + 20, 4);
        proof {
            crate::bytes::lemma_range_of();
            crate::bytes::lemma_le_value_bound(self.items@.subrange(base + 20, base + 24));
        }
        len as u32
    }

    /// The children of item `idx`, in the order in which they were added.
    pub fn children(&self, idx: u32) -> (children: Vec<u32>)
        requires
            self.wf(),
            idx < self.records().len(),
        ensures
            children@ == self.child_seq(idx as int),
    {
        assert(self.items@.len() == self.items.len());
        let base: usize = idx as usize * RECORD_SIZE;
        let ghost rec = record_at(self.items@, idx as int);
        proof {
            crate::bytes::lemma_range_of();
            crate::bytes::lemma_le_value_bound(self.items@.subrange(base + 16, base + 20));
            crate::bytes::lemma_le_value_bound(self.items@.subrange(base + 20, base + 24));
        }
        let start: usize = get_le(self.items, base + 16, 4) as usize;
        let len: usize = get_le(self.items, base + 20, 4) as usize;
        let mut children: Vec<u32> = Vec::new();
        if len == 0 {
            assert(children@ =~= self.child_seq(idx as int));
            return children;
        }
        assert(self.edges@.len() == self.edges.len());
        let mut k: usize = 0;
        while k < len
            invariant
                k <= len,
                start == rec.children_start,
                len == rec.children_len,
                4 * (start + len) <= self.edges.len(),
                children@.len() == k,
                forall|m: int|
                    0 <= m < k ==> #[trigger] children@[m] == le_at(
                        self.edges@,
                        4 * (start + m),
                        4,
                    ) as u32,
            decreases len - k,
        {
            let v: u64 = get_le(self.edges, 4 * (start + k), 4);
            proof {
                crate::bytes::lemma_range_of();
                crate::bytes::lemma_le_value_bound(
                    self.edges@.subrange(4 * (start + k), 4 * (start + k) + 4),
                );
            }
            children.push(v as u32);
            k = k + 1;
        }
        assert(children@ =~= children_in(self.edges@, rec));
        children
    }
}

/// The finished images of all items.
pub struct ItemStore {
    num_items: u32,
    num_edges: u32,
    items: Ghost<Seq<u8>>,
    edges: Ghost<Seq<u8>>,
}

impl ItemStore {
    pub closed spec fn wf(self) -> bool {
        &&& well_linked(self.items@, self.edges@, self.num_items as nat)
        &&& self.edges@.len() == 4 * self.num_edges
    }

    /// The bytes of the item records.
    pub closed spec fn items_image(self) -> Seq<u8> {
        self.items@
    }

    /// The bytes of the children of all items.
    pub closed spec fn edges_image(self) -> Seq<u8> {
        self.edges@
    }

    pub closed spec fn item_count(self) -> nat {
        self.num_items as nat
    }

    /// All item records.
    pub open spec fn records(self) -> Seq<ItemRecord> {
        records(self.items_image(), self.item_count())
    }

    /// The children of item `i`.
    pub open spec fn child_seq(self, i: int) -> Seq<u32> {
        children_in(self.edges_image(), self.records()[i])
    }

    pub fn num_items(&self) -> (n: u32)
        ensures
            n == self.records().len(),
    {
        self.num_items
    }

    pub fn num_edges(&self) -> (n: u32)
        requires
            self.wf(),
        ensures
            4 * n == self.edges_image().len(),
    {
        self.num_edges
    }

    /// A view of all items, given the bytes of both images.
    pub fn metadata<'a>(&self, items: &'a [u8], edges: &'a [u8]) -> (view: ItemMetadata<'a>)
        requires
            self.wf(),
            items@ == self.items_image(),
            edges@ == self.edges_image(),
        ensures
            view.wf(),
            view.records() == self.records(),
            forall|i: int|
                0 <= i < self.records().len() ==> #[trigger] view.child_seq(i) == self.child_seq(i),
    {
        ItemMetadata { items, edges, num_items: self.num_items, num_edges: self.num_edges }
    }
}

/// A new item: its index, and the record to append to the items image.
#[derive(Debug)]
pub struct NewItem {
    pub idx: u32,
    pub record: Vec<u8>,
}

/// Bytes to be written over those at `at` of the items image.
#[derive(Debug)]
pub struct Patch {
    pub at: u64,
    pub bytes: Vec<u8>,
}

/// There are more items than a `u32` can count.
#[derive(Debug, Clone, Copy, PartialEq, Eq, Structural)]
pub struct ItemCountOverflow;

/// There are more edges than a `u32` can count.
#[derive(Debug, Clone, Copy, PartialEq, Eq, Structural)]
pub enum EdgeOverflow {
    /// A single item has that many children.
    ChildrenRun,
    /// All items together have that many.
    Total,
}

/// What [`ItemStoreBuilder::finish`] leaves: the store and the edges image.
pub struct Finished {
    pub store: ItemStore,
    pub edges: Vec<u8>,
}

/// Collects items in ascending pack offset order.
pub struct ItemStoreBuilder {
    num_items: u32,
    image: Ghost<Seq<u8>>,
}

impl ItemStoreBuilder {
    pub closed spec fn wf(self) -> bool {
        &&& self.image@.len() == 24 * self.num_items
        &&& offsets_increase(self.records())
        &&& forall|i: int|
            0 <= i < self.records().len() ==> (#[trigger] self.records()[i]).children_start == 0
                && self.records()[i].children_len == 0
    }

    /// The bytes of the items image so far.
    pub closed spec fn image(self) -> Seq<u8> {
        self.image@
    }

    /// All item records so far.
    pub closed spec fn records(self) -> Seq<ItemRecord> {
        records(self.image@, self.num_items as nat)
    }

    /// Of two items, the later one has the greater offset.
    pub proof fn lemma_increasing(self, i: int, j: int)
        requires
            self.wf(),
            0 <= i < j < self.records().len(),
        ensures
            self.records()[i].offset < self.records()[j].offset,
    {
    }

    /// Offsets grow from one item to the next, and a `u32` counts the items.
    pub proof fn lemma_offsets_increase(self)
        requires
            self.wf(),
        ensures
            offsets_increase(self.records()),
            self.records().len() <= u32::MAX,
    {
    }

    /// A builder without items.
    pub fn new(_capacity_hint: usize) -> (builder: Self)
        ensures
            builder.wf(),
            builder.image() == Seq::<u8>::empty(),
            builder.records() == Seq::<ItemRecord>::empty(),
    {
        let builder = ItemStoreBuilder { num_items: 0, image: Ghost(Seq::empty()) };
        assert(builder.records() =~= Seq::<ItemRecord>::empty());
        builder
    }

    /// Number of items pushed so far.
    pub fn num_items(&self) -> (n: u32)
        ensures
            n == self.records().len(),
    {
        self.num_items
    }

    /// Add an item at pack offset `offset`. Its end and its children are
    /// filled in later.
    pub fn push(&mut self, offset: u64) -> (item: Result<NewItem, ItemCountOverflow>)
        requires
            old(self).wf(),
            forall|i: int|
                0 <= i < old(self).records().len() ==> (#[trigger] old(self).records()[i]).offset
                    < offset,
        ensures
            final(self).wf(),
            item is Err <==> old(self).records().len() == u32::MAX,
            match item {
                Ok(new) => {
                    let rec = ItemRecord {
                        offset,
                        next_offset: 0,
                        children_start: 0,
                        children_len: 0,
                    };
                    &&& new.idx == old(self).records().len()
                    &&& new.record@ == rec.encoded()
                    &&& final(self).image() == old(self).image() + new.record@
                    &&& final(self).records() == old(self).records().push(rec)
                },
                Err(_) => *final(self) == *old(self),
            },
    {
        let idx: u32 = self.num_items;
        if idx == u32::MAX {
            return Err(ItemCountOverflow);
        }
        let mut record: Vec<u8> = Vec::new();
        put_le(&mut record, offset, 8);
        put_le(&mut record, 0, 8);
        put_le(&mut record, 0, 4);
        put_le(&mut record, 0, 4);
        proof {
            let rec = ItemRecord { offset, next_offset: 0, children_start: 0, children_len: 0 };
            assert(record@ =~= rec.encoded());
            lemma_append_record(self.image@, self.num_items as nat, rec);
        }
        self.num_items = idx + 1;
        self.image = Ghost(self.image@ + record@);
        Ok(NewItem { idx, record })
    }

    /// Set where item `idx` ends in the pack.
    pub fn set_next_offset(&mut self, idx: u32, next_offset: u64) -> (patch: Patch)
        requires
            old(self).wf(),
            idx < old(self).records().len(),
        ensures
            final(self).wf(),
            patch.at == 24 * idx + 8,
            patch.bytes@ == crate::bytes::le_bytes(next_offset as nat, 8),
            final(self).image() == crate::bytes::patched(
                old(self).image(),
                patch.at as int,
                patch.bytes@,
            ),
            final(self).records() == old(self).records().update(
                idx as int,
                (ItemRecord { next_offset, ..old(self).records()[idx as int] }),
            ),
    {
        let mut bytes: Vec<u8> = Vec::new();
        put_le(&mut bytes, next_offset, 8);
        let at: u64 = idx as u64 * 24 + 8;
        proof {
            assert(bytes@ =~= crate::bytes::le_bytes(next_offset as nat, 8));
            lemma_patch_next(self.image@, self.num_items as nat, idx as int, next_offset);
            self.image = Ghost(crate::bytes::patched(self.image@, at as int, bytes@));
        }
        Patch { at, bytes }
    }

    /// A view of the items pushed so far, given the bytes of the items image.
    /// No item has children yet.
    pub fn interim_metadata<'a>(&self, items: &'a [u8]) -> (view: ItemMetadata<'a>)
        requires
            self.wf(),
            items@ == self.image(),
        ensures
            view.wf(),
            view.records() == self.records(),
            forall|i: int|
                0 <= i < self.records().len() ==> #[trigger] view.child_seq(i) == Seq::<
                    u32,
                >::empty(),
    {
        let view = ItemMetadata { items, edges: &[], num_items: self.num_items, num_edges: 0 };
        proof {
            assert forall|i: int| 0 <= i < self.records().len() implies #[trigger] record_at(
                items@,
                i,
            ).children_len == 0 by {
                assert(self.records()[i].children_len == 0);
            }
            assert forall|i: int|
                0 <= i < self.records().len() implies #[trigger] view.child_seq(i) == Seq::<
                u32,
            >::empty() by {
                assert(record_at(items@, i).children_len == 0);
                assert(view.child_seq(i) =~= Seq::<u32>::empty());
            }
        }
        view
    }

    /// Complete the store: give every item its end in the pack and its
    /// children.
    ///
    /// `items` holds the bytes of the items image and is brought up to date.
    /// `sorted_edges` are pairs of parent and child; the pairs of one parent
    /// stand together, and the children keep their order. `pack_entries_end` is
    /// the end of the last item.
    pub fn finish(
        self,
        items: &mut [u8],
        sorted_edges: &Vec<(u32, u32)>,
        pack_entries_end: u64,
    ) -> (done: Result<Finished, EdgeOverflow>)
        requires
            self.wf(),
            old(items)@ == self.image(),
            sorted_by_parent(sorted_edges@),
            forall|k: int|
                0 <= k < sorted_edges@.len() ==> (#[trigger] sorted_edges@[k]).0
                    < self.records().len(),
        ensures
            done is Ok <==> sorted_edges@.len() <= u32::MAX,
            match done {
                Ok(finished) => {
                    &&& finished.store.wf()
                    &&& finished.store.items_image() == final(items)@
                    &&& finished.store.edges_image() == finished.edges@
                    &&& finished.edges@.len() == 4 * sorted_edges@.len()
                    &&& final(items)@.len() == old(items)@.len()
                    &&& finished.store.records().len() == self.records().len()
                    &&& forall|i: int|
                        0 <= i < self.records().len() ==> is_finished_item(
                            self.records(),
                            sorted_edges@,
                            pack_entries_end,
                            finished.store,
                            i,
                        )
                },
                Err(overflow) => {
                    &&& final(items)@ == old(items)@
                    &&& overflow is ChildrenRun <==> sorted_edges@[0].0
                        == sorted_edges@[u32::MAX as int].0
                },
            },
    {
        let count: usize = sorted_edges.len();
        if count as u64 > u32::MAX as u64 {
            let run: bool = sorted_edges[0].0 == sorted_edges[u32::MAX as usize].0;
            return Err(
                if run {
                    EdgeOverflow::ChildrenRun
                } else {
                    EdgeOverflow::Total
                },
            );
        }
        let n: u32 = self.num_items;
        let ghost recs = self.records();
        let ghost edges = sorted_edges@;
        let size: usize = items.len();
        // Where each item ends.
        let mut i: u32 = 0;
        while i < n
            invariant
                i <= n,
                n == recs.len(),
                size == items@.len(),
                items@.len() == 24 * n,
                records(items@, n as nat).len() == n,
                forall|j: int|
                    0 <= j < n ==> #[trigger] records(items@, n as nat)[j] == (ItemRecord {
                        next_offset: if j < i {
                            end_of(recs, pack_entries_end, j)
                        } else {
                            recs[j].next_offset
                        },
                        ..recs[j]
                    }),
            decreases n - i,
        {
            let next: u64 = if i + 1 < n {
                let at: usize = (i as usize + 1) * RECORD_SIZE;
                let v: u64 = get_le(items, at, 8);
                proof {
                    assert(records(items@, n as nat)[i + 1].offset == recs[i + 1].offset);
                }
                v
            } else {
                pack_entries_end
            };
            proof {
                lemma_patch_next(items@, n as nat, i as int, next);
                assert(records(items@, n as nat)[i as int] == recs[i as int]);
            }
            set_le(items, i as usize * RECORD_SIZE + 8, next, 8);
            i = i + 1;
        }
        // The children, run by run.
        let ghost ended = records(items@, n as nat);
        let mut bytes: Vec<u8> = Vec::new();
        let mut at: usize = 0;
        proof {
            assert forall|p: int| 0 <= p < n implies (#[trigger] records(items@, n as nat)[p]) == (
            ItemRecord {
                children_start: records(items@, n as nat)[p].children_start,
                children_len: records(items@, n as nat)[p].children_len,
                ..ended[p]
            }) && children_of(edges.take(0), p as u32) == children_between(
                edges,
                records(items@, n as nat)[p].children_start as int,
                records(items@, n as nat)[p].children_len as nat,
            ) by {
                assert(recs[p].children_start == 0 && recs[p].children_len == 0);
                assert(edges.take(0) =~= Seq::<(u32, u32)>::empty());
                assert(children_between(edges, 0, 0) =~= Seq::<u32>::empty());
            }
        }
        while at < count
            invariant
                at <= count,
                count == edges.len(),
                count <= u32::MAX,
                edges == sorted_edges@,
                sorted_by_parent(edges),
                n == recs.len(),
                n == ended.len(),
                size == items@.len(),
                items@.len() == 24 * n,
                forall|k: int| 0 <= k < edges.len() ==> (#[trigger] edges[k]).0 < n,
                at > 0 && at < count ==> edges[at - 1].0 < edges[at as int].0,
                bytes@.len() == 4 * at,
                forall|k: int| 0 <= k < at ==> #[trigger] le_at(bytes@, 4 * k, 4) == edges[k].1,
                forall|p: int|
                    0 <= p < n ==> {
                        let rec = #[trigger] records(items@, n as nat)[p];
                        &&& rec == (ItemRecord {
                            children_start: rec.children_start,
                            children_len: rec.children_len,
                            ..ended[p]
                        })
                        &&& rec.children_start + rec.children_len <= at
                        &&& children_of(edges.take(at as int), p as u32) == children_between(
                            edges,
                            rec.children_start as int,
                            rec.children_len as nat,
                        )
                    },
            decreases count - at,
        {
            let parent: u32 = sorted_edges[at].0;
            let start: usize = at;
            let ghost before = items@;
            while at < count && sorted_edges[at].0 == parent
                invariant
                    start <= at <= count,
                    count == edges.len(),
                    edges == sorted_edges@,
                    start < count,
                    edges[start as int].0 == parent,
                    forall|k: int| start <= k < at ==> (#[trigger] edges[k]).0 == parent,
                    bytes@.len() == 4 * at,
                    forall|k: int| 0 <= k < at ==> #[trigger] le_at(bytes@, 4 * k, 4) == edges[k].1,
                decreases count - at,
            {
                let ghost b = bytes@;
                let child: u32 = sorted_edges[at].1;
                put_le(&mut bytes, child as u64, 4);
                proof {
                    crate::bytes::lemma_range_of();
                    crate::bytes::lemma_le_roundtrip(child as nat, 4);
                    let new = crate::bytes::le_bytes(child as nat, 4);
                    assert forall|k: int| 0 <= k <= at implies #[trigger] le_at(bytes@, 4 * k, 4)
                        == edges[k].1 by {
                        if k < at {
                            assert(bytes@.subrange(4 * k, 4 * k + 4) =~= b.subrange(
                                4 * k,
                                4 * k + 4,
                            ));
                            assert(le_at(b, 4 * k, 4) == edges[k].1);
                        } else {
                            assert(bytes@.subrange(4 * k, 4 * k + 4) =~= new);
                        }
                    }
                }
                at = at + 1;
            }
            let len: usize = at - start;
            let base: usize = parent as usize * RECORD_SIZE;
            proof {
                assert(edges[start as int].0 < n);
                lemma_patch_children(before, n as nat, parent as int, start as u32, len as u32);
                assert forall|p: int| 0 <= p < n implies children_of(
                    edges.take(at as int),
                    #[trigger] (p as u32),
                ) == if p == parent {
                    children_between(edges, start as int, len as nat)
                } else {
                    children_of(edges.take(start as int), p as u32)
                } by {
                    lemma_run(edges, start as int, at as int, parent, p as u32);
                    if p == parent {
                        let front = edges.take(start as int);
                        assert forall|k: int| 0 <= k < front.len() implies (
                        #[trigger] front[k]).0 != parent by {
                            assert(edges[k].0 <= edges[start - 1].0);
                        }
                        lemma_no_children(front, parent);
                        assert(children_of(edges.take(at as int), parent) =~= children_between(
                            edges,
                            start as int,
                            len as nat,
                        ));
                    }
                }
            }
            set_le(items, base + 16, start as u64, 4);
            set_le(items, base + 20, len as u64, 4);
            proof {
                let now = items@;
                assert(records(now, n as nat) == records(before, n as nat).update(
                    parent as int,
                    (ItemRecord {
                        children_start: start as u32,
                        children_len: len as u32,
                        ..record_at(before, parent as int)
                    }),
                ));
                assert forall|p: int| 0 <= p < n implies {
                    let rec = #[trigger] records(now, n as nat)[p];
                    &&& rec == (ItemRecord {
                        children_start: rec.children_start,
                        children_len: rec.children_len,
                        ..ended[p]
                    })
                    &&& rec.children_start + rec.children_len <= at
                    &&& children_of(edges.take(at as int), p as u32) == children_between(
                        edges,
                        rec.children_start as int,
                        rec.children_len as nat,
                    )
                } by {
                    let was = records(before, n as nat)[p];
                    assert(was.children_start + was.children_len <= start);
                }
                if at < count {
                    assert(edges[at - 1].0 <= edges[at as int].0);
                }
            }
        }
        let ghost image = items@;
        proof {
            assert(edges.take(count as int) =~= edges);
            assert forall|p: int| 0 <= p < n implies {
                let rec = #[trigger] record_at(image, p);
                &&& rec.children_start + rec.children_len <= count
                &&& children_in(bytes@, rec) == children_of(edges, p as u32)
                &&& rec.offset == recs[p].offset
                &&& rec.next_offset == end_of(recs, pack_entries_end, p)
            } by {
                let rec = records(image, n as nat)[p];
                assert(children_in(bytes@, rec) =~= children_between(
                    edges,
                    rec.children_start as int,
                    rec.children_len as nat,
                )) by {
                    assert forall|k: int| 0 <= k < rec.children_len implies le_at(
                        bytes@,
                        4 * (rec.children_start + k),
                        4,
                    ) == #[trigger] edges[rec.children_start + k].1 by {
                        assert(le_at(bytes@, 4 * (rec.children_start + k), 4)
                            == edges[rec.children_start + k].1);
                    }
                }
            }
        }
        let store = ItemStore {
            num_items: n,
            num_edges: count as u32,
            items: Ghost(image),
            edges: Ghost(bytes@),
        };
        proof {
            assert forall|i: int| 0 <= i < recs.len() implies is_finished_item(
                recs,
                edges,
                pack_entries_end,
                store,
                i,
            ) by {
                let rec = record_at(image, i);
                assert(store.records()[i] == rec);
            }
        }
        Ok(Finished { store, edges: bytes })
    }
}

/// Where item `i` ends: where the next one begins, or at the end of the pack's entries.
pub open spec fn end_of(recs: Seq<ItemRecord>, pack_entries_end: u64, i: int) -> u64 {
    if i + 1 < recs.len() {
        recs[i + 1].offset
    } else {
        pack_entries_end
    }
}

/// Item `i` of the store begins where it began before, ends where the next one
/// begins, and has the children that `edges` give it.
pub open spec fn is_finished_item(
    recs: Seq<ItemRecord>,
    edges: Seq<(u32, u32)>,
    pack_entries_end: u64,
    store: ItemStore,
    i: int,
) -> bool {
    &&& store.records()[i].offset == recs[i].offset
    &&& store.records()[i].next_offset == end_of(recs, pack_entries_end, i)
    &&& store.child_seq(i) == children_of(edges, i as u32)
}

/// What an item takes in the items image: where it begins, where it ends, and the
/// first and the number of its children, all with their least significant byte
/// first.
pub proof fn law_item_on_disk(rec: ItemRecord)
    ensures
        rec.encoded().len() == 24,
        crate::bytes::le_value(rec.encoded().subrange(0, 8)) == rec.offset,
        crate::bytes::le_value(rec.encoded().subrange(8, 16)) == rec.next_offset,
        crate::bytes::le_value(rec.encoded().subrange(16, 20)) == rec.children_start,
        crate::bytes::le_value(rec.encoded().subrange(20, 24)) == rec.children_len,
{
    let e = rec.encoded();
    crate::bytes::lemma_range_of();
    crate::bytes::lemma_le_roundtrip(rec.offset as nat, 8);
    crate::bytes::lemma_le_roundtrip(rec.next_offset as nat, 8);
    crate::bytes::lemma_le_roundtrip(rec.children_start as nat, 4);
    crate::bytes::lemma_le_roundtrip(rec.children_len as nat, 4);
    assert(e.subrange(0, 8) =~= crate::bytes::le_bytes(rec.offset as nat, 8));
    assert(e.subrange(8, 16) =~= crate::bytes::le_bytes(rec.next_offset as nat, 8));
    assert(e.subrange(16, 20) =~= crate::bytes::le_bytes(rec.children_start as nat, 4));
    assert(e.subrange(20, 24) =~= crate::bytes::le_bytes(rec.children_len as nat, 4));
}

/// Every record reads back as what was written at its place, and a child as the
/// number at its place among the children of all items.
pub proof fn law_items_read_back(items: Seq<u8>, i: int, rec: ItemRecord, edges: Seq<u8>, k: int)
    requires
        0 <= i,
        24 * i + 24 <= items.len(),
        items.subrange(24 * i, 24 * i + 24) == rec.encoded(),
        0 <= k < rec.children_len,
        4 * (rec.children_start + rec.children_len) <= edges.len(),
    ensures
        record_at(items, i) == rec,
        children_in(edges, rec).len() == rec.children_len,
        children_in(edges, rec)[k] == crate::bytes::le_value(
            edges.subrange(4 * (rec.children_start + k), 4 * (rec.children_start + k) + 4),
        ),
{
    lemma_record_roundtrip(items, i, rec);
    crate::bytes::lemma_range_of();
    let at = 4 * (rec.children_start + k);
    crate::bytes::lemma_le_value_bound(edges.subrange(at, at + 4));
}

/// The children of an item are those that stand in a pair with it, in the order of
/// the pairs.
pub proof fn law_children_stand_in_pairs(edges: Seq<(u32, u32)>, parent: u32)
    ensures
        children_of(edges, parent) == edges.filter(|e: (u32, u32)| e.0 == parent).map_values(
            |e: (u32, u32)| e.1,
        ),
    decreases edges.len(),
{
    reveal(Seq::filter);
    let of_parent = |e: (u32, u32)| e.0 == parent;
    if edges.len() > 0 {
        law_children_stand_in_pairs(edges.drop_last(), parent);
        assert(children_of(edges, parent) =~= edges.filter(of_parent).map_values(
            |e: (u32, u32)| e.1,
        ));
    } else {
        assert(edges.filter(of_parent).map_values(|e: (u32, u32)| e.1) =~= Seq::<u32>::empty());
    }
}

/// A finished item begins where it began before, ends where the next one begins,
/// or, if it is the last, where all entries end, and has as its children those
/// that stand in a pair with it.
pub proof fn law_finished_items_are_complete(
    recs: Seq<ItemRecord>,
    edges: Seq<(u32, u32)>,
    pack_entries_end: u64,
    store: ItemStore,
    i: int,
)
    requires
        0 <= i < recs.len() <= u32::MAX,
        is_finished_item(recs, edges, pack_entries_end, store, i),
    ensures
        store.records()[i].offset == recs[i].offset,
        i + 1 < recs.len() ==> store.records()[i].next_offset == recs[i + 1].offset,
        i + 1 == recs.len() ==> store.records()[i].next_offset == pack_entries_end,
        store.child_seq(i) == edges.filter(|e: (u32, u32)| e.0 == i).map_values(
            |e: (u32, u32)| e.1,
        ),
{
    law_children_stand_in_pairs(edges, i as u32);
    let a = |e: (u32, u32)| e.0 == i as u32;
    let b = |e: (u32, u32)| e.0 == i;
    assert(a =~= b);
}

} // verus!
