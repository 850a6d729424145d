//! The items of a pack, and which of them are deltas of which.
use vstd::prelude::*;

use super::edge_spool::{Edge, EdgeSpool, Resolved, ResolvedEdges};
use super::item_store::{EdgeOverflow, ItemStore, ItemStoreBuilder, NewItem};
use super::{traverse, Error};
use crate::budget::{MemoryBudget, Reservation};
use crate::sort::spill::{ReadRequest, Spill};
use crate::sort::Record;

verus! {

/// An item of a pack: where it is, and the offset of what it is a delta of.
pub struct TreeItem {
    pub offset: u64,
    pub base: Option<u64>,
}

/// The edges of `items`: one for each that is a delta, in the order of the items.
pub open spec fn edges_in(items: Seq<TreeItem>) -> Seq<Edge>
    decreases items.len(),
{
    if items.len() == 0 {
        Seq::empty()
    } else {
        let front = edges_in(items.drop_last());
        match items.last().base {
            None => front,
            Some(base_offset) => front.push(
                Edge { base_offset, child_idx: (items.len() - 1) as u32 },
            ),
        }
    }
}

/// What has to be written for an item that was added: its record at the end of
/// the items image, and a run of edges if one was completed.
#[derive(Debug)]
pub struct Writes {
    pub record: Vec<u8>,
    pub edges: Option<Spill>,
}

/// From `before` to `after`, the tree took in `edge`: it waits with the others,
/// or it completed a run, which has to be written.
pub open spec fn takes_in_edge(before: Tree, after: Tree, edge: Edge, spill: Option<Spill>) -> bool {
    let pending = before.pending_edges().push(edge);
    &&& after.run_len() == before.run_len()
    &&& after.reservation() == before.reservation()
    &&& match spill {
        None => {
            &&& pending.len() < before.run_len()
            &&& after.pending_edges() == pending
            &&& after.edges_image() == before.edges_image()
        },
        Some(s) => {
            &&& pending.len() == before.run_len()
            &&& after.pending_edges() == Seq::<Edge>::empty()
            &&& crate::sort::spill::is_spill_of(
                s,
                pending,
                before.edges_image(),
                after.edges_image(),
            )
        },
    }
}

/// From `before` to `after`, the tree took in no edge, and none has to be written.
pub open spec fn takes_in_no_edge(before: Tree, after: Tree, spill: Option<Spill>) -> bool {
    &&& spill is None
    &&& after.run_len() == before.run_len()
    &&& after.reservation() == before.reservation()
    &&& after.pending_edges() == before.pending_edges()
    &&& after.edges_image() == before.edges_image()
}

/// A tree of deltas under construction. Items are added in the order in which
/// they stand in the pack; afterwards the tree is resolved, once, into a store
/// in which every item knows its children.
pub struct Tree {
    builder: ItemStoreBuilder,
    edges: EdgeSpool,
    is_root: Vec<bool>,
    last_pushed_offset: Option<u64>,
    items: Ghost<Seq<TreeItem>>,
}

impl Tree {
    pub closed spec fn wf(self) -> bool {
        &&& self.builder.wf()
        &&& self.edges.wf()
        &&& self.edges.pushed() == edges_in(self.items@)
        &&& self.is_root@.len() == self.items@.len()
        &&& self.builder.records().len() == self.items@.len()
        &&& forall|i: int|
            0 <= i < self.items@.len() ==> {
                &&& self.builder.records()[i].offset == (#[trigger] self.items@[i]).offset
                &&& self.is_root@[i] == (self.items@[i].base is None)
            }
        &&& self.last_pushed_offset == if self.items@.len() == 0 {
            None
        } else {
            Some(self.items@.last().offset)
        }
    }

    /// The items added so far.
    pub closed spec fn items(self) -> Seq<TreeItem> {
        self.items@
    }

    /// The bytes of the items image so far.
    pub closed spec fn items_image(self) -> Seq<u8> {
        self.builder.image()
    }

    /// The bytes of spilled edges so far.
    pub closed spec fn edges_image(self) -> Seq<u8> {
        self.edges.image()
    }

    /// The edges that are not spilled yet.
    pub closed spec fn pending_edges(self) -> Seq<Edge> {
        self.edges.chunk()
    }

    /// How many edges are spilled at a time.
    pub closed spec fn run_len(self) -> nat {
        self.edges.capacity()
    }

    /// The bytes accounted for the edges in memory.
    pub closed spec fn reservation(self) -> Reservation {
        self.edges.reservation()
    }

    /// `offset` lies beyond every item added so far.
    pub open spec fn is_beyond(self, offset: u64) -> bool {
        self.items().len() > 0 ==> self.items().last().offset < offset
    }

    /// The spool for edges can take those in memory and one more.
    proof fn lemma_has_room(self)
        requires
            self.wf(),
        ensures
            self.edges.has_room(),
    {
        self.lemma_pack_order();
        self.edges.lemma_size();
        lemma_edges_in_len(self.items@);
    }

    /// Items stand in the order of the pack.
    pub proof fn lemma_pack_order(self)
        requires
            self.wf(),
        ensures
            is_pack_order(self.items()),
    {
        self.builder.lemma_offsets_increase();
        let recs = self.builder.records();
        assert forall|i: int, j: int| 0 <= i < j < self.items@.len() implies (
        #[trigger] self.items@[i]).offset < (#[trigger] self.items@[j]).offset by {
            assert(recs[i].offset == self.items@[i].offset);
            assert(recs[j].offset == self.items@[j].offset);
        }
    }

    /// A tree for about `num_objects` items that accounts for memory with
    /// `memory_budget`.
    pub fn with_capacity(num_objects: usize, memory_budget: MemoryBudget) -> (tree: Self)
        ensures
            tree.wf(),
            tree.items() == Seq::<TreeItem>::empty(),
            tree.items_image() == Seq::<u8>::empty(),
            tree.edges_image() == Seq::<u8>::empty(),
            tree.pending_edges() == Seq::<Edge>::empty(),
            exists|refusals: nat|
                tree.run_len() == #[trigger] crate::sort::chunk::target_after(
                    super::edge_spool::initial_target(num_objects as nat),
                    128,
                    refusals,
                ),
            super::edge_spool::is_accounted(tree.reservation(), tree.run_len(), memory_budget),
    {
        let mut is_root: Vec<bool> = Vec::new();
        let _ = is_root.try_reserve(num_objects);
        let tree = Tree {
            builder: ItemStoreBuilder::new(num_objects),
            edges: EdgeSpool::new(num_objects, memory_budget),
            is_root,
            last_pushed_offset: None,
            items: Ghost(Seq::empty()),
        };
        tree
    }

    /// A tree without a memory limit.
    pub fn with_capacity_unlimited(num_objects: usize) -> (tree: Self)
        ensures
            tree.wf(),
            tree.items() == Seq::<TreeItem>::empty(),
            tree.items_image() == Seq::<u8>::empty(),
            tree.edges_image() == Seq::<u8>::empty(),
            tree.pending_edges() == Seq::<Edge>::empty(),
            exists|refusals: nat|
                tree.run_len() == #[trigger] crate::sort::chunk::target_after(
                    super::edge_spool::initial_target(num_objects as nat),
                    128,
                    refusals,
                ),
            exists|budget: MemoryBudget|
                budget.limit() == u64::MAX && #[trigger] super::edge_spool::is_accounted(
                    tree.reservation(),
                    tree.run_len(),
                    budget,
                ),
    {
        let budget = MemoryBudget::unlimited();
        let tree = Self::with_capacity(num_objects, budget.clone());
        assert(super::edge_spool::is_accounted(tree.reservation(), tree.run_len(), budget));
        tree
    }

    /// How many items were added.
    pub fn num_items(&self) -> (n: usize)
        requires
            self.wf(),
        ensures
            n == self.items().len(),
    {
        self.is_root.len()
    }

    /// How many bytes of edges were handed out to be written so far.
    pub fn edge_bytes_written(&self) -> (n: u64)
        requires
            self.wf(),
        ensures
            n == self.edges_image().len(),
    {
        self.edges.bytes_written()
    }

    /// Whether `offset` lies beyond every item added so far.
    pub fn assert_is_incrementing(&self, offset: u64) -> (r: Result<(), Error>)
        requires
            self.wf(),
        ensures
            r is Ok <==> self.is_beyond(offset),
            r matches Err(e) ==> e == (Error::InvariantIncreasingPackOffset {
                last_pack_offset: self.items().last().offset,
                pack_offset: offset,
            }),
    {
        match self.last_pushed_offset {
            Some(last_offset) => if offset <= last_offset {
                Err(
                    Error::InvariantIncreasingPackOffset {
                        last_pack_offset: last_offset,
                        pack_offset: offset,
                    },
                )
            } else {
                Ok(())
            },
            None => Ok(()),
        }
    }

    /// Add the record of an item at `offset`, which lies beyond all others.
    fn push_item(&mut self, offset: u64, Ghost(base): Ghost<Option<u64>>) -> (r: Option<NewItem>)
        requires
            old(self).wf(),
            old(self).is_beyond(offset),
        ensures
            r is None <==> old(self).items().len() == u32::MAX,
            match r {
                None => *final(self) == *old(self),
                Some(new) => {
                    &&& new.idx == old(self).items().len()
                    &&& final(self).builder.wf()
                    &&& final(self).builder.image() == old(self).builder.image() + new.record@
                    &&& final(self).builder.records().len() == old(self).items().len() + 1
                    &&& forall|i: int|
                        0 <= i <= old(self).items().len() ==> (
                        #[trigger] final(self).builder.records()[i]).offset == old(
                            self,
                        ).items@.push(TreeItem { offset, base })[i].offset
                    &&& final(self).is_root == old(self).is_root
                    &&& final(self).edges == old(self).edges
                    &&& final(self).last_pushed_offset == old(self).last_pushed_offset
                    &&& final(self).items == old(self).items
                },
            },
    {
        proof {
            let recs = self.builder.records();
            assert forall|i: int| 0 <= i < recs.len() implies (#[trigger] recs[i]).offset < offset by {
                assert(self.items@[i].offset == recs[i].offset);
                let last = recs.len() - 1;
                assert(self.items@[last].offset == recs[last].offset);
                if i < last {
                    self.builder.lemma_increasing(i, last);
                }
            }
        }
        match self.builder.push(offset) {
            Ok(new) => {
                proof {
                    assert forall|i: int| 0 <= i <= old(self).items().len() implies (
                    #[trigger] self.builder.records()[i]).offset == old(self).items@.push(
                        TreeItem { offset, base },
                    )[i].offset by {
                        if i < old(self).items().len() {
                            assert(old(self).items@[i].offset == old(
                                self,
                            ).builder.records()[i].offset);
                        }
                    }
                }
                Some(new)
            },
            Err(_) => None,
        }
    }

    /// Add an item at pack offset `offset` that is no delta.
    pub fn add_root(&mut self, offset: u64) -> (r: Result<Writes, Error>)
        requires
            old(self).wf(),
        ensures
            final(self).wf(),
            r is Ok <==> old(self).is_beyond(offset) && old(self).items().len() < u32::MAX,
            match r {
                Ok(writes) => {
                    &&& final(self).items() == old(self).items().push(
                        TreeItem { offset, base: None },
                    )
                    &&& final(self).items_image() == old(self).items_image() + writes.record@
                    &&& takes_in_no_edge(*old(self), *final(self), writes.edges)
                },
                Err(e) => {
                    &&& *final(self) == *old(self)
                    &&& if old(self).is_beyond(offset) {
                        e matches Error::SpoolIo { message } && message@ == "push root item"@
                    } else {
                        e == (Error::InvariantIncreasingPackOffset {
                            last_pack_offset: old(self).items().last().offset,
                            pack_offset: offset,
                        })
                    }
                },
            },
    {
        match self.assert_is_incrementing(offset) {
            Err(e) => {
                return Err(e);
            },
            Ok(()) => {},
        }
        match self.push_item(offset, Ghost(None)) {
            None => Err(Error::SpoolIo { message: "push root item" }),
            Some(new) => {
                self.is_root.push(true);
                self.last_pushed_offset = Some(offset);
                proof {
                    let items = self.items@;
                    self.items = Ghost(items.push(TreeItem { offset, base: None }));
                    assert(self.items@.drop_last() =~= items);
                }
                Ok(Writes { record: new.record, edges: None })
            },
        }
    }

    /// Add an item at pack offset `offset` that is a delta of the item at
    /// `base_offset`, which may be added before or after it.
    pub fn add_child(&mut self, base_offset: u64, offset: u64) -> (r: Result<Writes, Error>)
        requires
            old(self).wf(),
        ensures
            final(self).wf(),
            r is Ok <==> old(self).is_beyond(offset) && old(self).items().len() < u32::MAX,
            match r {
                Ok(writes) => {
                    &&& final(self).items() == old(self).items().push(
                        TreeItem { offset, base: Some(base_offset) },
                    )
                    &&& final(self).items_image() == old(self).items_image() + writes.record@
                    &&& takes_in_edge(
                        *old(self),
                        *final(self),
                        Edge { base_offset, child_idx: old(self).items().len() as u32 },
                        writes.edges,
                    )
                },
                Err(e) => {
                    &&& *final(self) == *old(self)
                    &&& if old(self).is_beyond(offset) {
                        e matches Error::SpoolIo { message } && message@ == "push child item"@
                    } else {
                        e == (Error::InvariantIncreasingPackOffset {
                            last_pack_offset: old(self).items().last().offset,
                            pack_offset: offset,
                        })
                    }
                },
            },
    {
        match self.assert_is_incrementing(offset) {
            Err(e) => {
                return Err(e);
            },
            Ok(()) => {},
        }
        proof {
            self.lemma_has_room();
        }
        match self.push_item(offset, Ghost(Some(base_offset))) {
            None => Err(Error::SpoolIo { message: "push child item" }),
            Some(new) => {
                self.is_root.push(false);
                self.last_pushed_offset = Some(offset);
                let spill = self.edges.push(base_offset, new.idx);
                proof {
                    let items = self.items@;
                    self.items = Ghost(items.push(TreeItem { offset, base: Some(base_offset) }));
                    assert(self.items@.drop_last() =~= items);
                }
                Ok(Writes { record: new.record, edges: spill })
            },
        }
    }

    /// Begin to resolve all edges. `items` holds the bytes of the items image,
    /// and `pack_entries_end` is where the last item ends. If edges were spilled
    /// before, those still in memory are handed out to be written too.
    pub fn set_pack_entries_end_and_resolve_ref_offsets<'a>(
        self,
        items: &'a [u8],
        pack_entries_end: u64,
    ) -> (r: (Option<Spill>, Resolution<'a>))
        requires
            self.wf(),
            self.is_beyond(pack_entries_end),
            items@ == self.items_image(),
        ensures
            r.1.wf(),
            r.1.is_faithful(),
            r.1.items() == self.items(),
            r.1.items_image() == self.items_image(),
            r.1.pack_entries_end() == pack_entries_end,
            r.0 is Some <==> self.edges_image().len() > 0 && self.pending_edges().len() > 0,
            match r.0 {
                None => r.1.edges_image() == self.edges_image(),
                Some(s) => crate::sort::spill::is_spill_of(
                    s,
                    self.pending_edges(),
                    self.edges_image(),
                    r.1.edges_image(),
                ),
            },
            self.edges_image().len() == 0 ==> r.1.waits().len() == 0,
    {
        let ghost tree_items = self.items@;
        proof {
            self.lemma_has_room();
        }
        let view = self.builder.interim_metadata(items);
        let (spill, edges) = self.edges.resolve(view);
        let ghost expected = edges.rest();
        let resolution = Resolution {
            builder: self.builder,
            edges,
            pairs: Vec::new(),
            is_root: self.is_root,
            pack_entries_end,
            items: Ghost(tree_items),
            seen: Ghost(Seq::empty()),
            expected: Ghost(expected),
            faithful: Ghost(true),
        };
        proof {
            assert(Seq::<Edge>::empty() + expected =~= expected);
        }
        (spill, resolution)
    }
}

/// What resolving came to.
#[derive(Debug)]
pub enum Progress {
    /// It goes on once these bytes are supplied.
    Read(ReadRequest),
    /// All edges are resolved.
    Done,
    /// It cannot succeed.
    Failed(traverse::Error),
}

/// The edges of a tree on the way to being resolved.
pub struct Resolution<'a> {
    builder: ItemStoreBuilder,
    edges: ResolvedEdges<'a>,
    pairs: Vec<(u32, u32)>,
    is_root: Vec<bool>,
    pack_entries_end: u64,
    items: Ghost<Seq<TreeItem>>,
    /// The edges that were resolved.
    seen: Ghost<Seq<Edge>>,
    /// All edges in order.
    expected: Ghost<Seq<Edge>>,
    /// Every block supplied so far was what was written.
    faithful: Ghost<bool>,
}

/// `pairs` names for each edge the item at its base offset, and its child.
pub open spec fn resolves(
    pairs: Seq<(u32, u32)>,
    edges: Seq<Edge>,
    recs: Seq<super::item_store::ItemRecord>,
) -> bool {
    &&& pairs.len() == edges.len()
    &&& forall|k: int|
        0 <= k < pairs.len() ==> {
            &&& (#[trigger] pairs[k]).0 < recs.len()
            &&& recs[pairs[k].0 as int].offset == edges[k].base_offset
            &&& pairs[k].1 == edges[k].child_idx
        }
}

impl<'a> Resolution<'a> {
    pub closed spec fn wf(self) -> bool {
        let recs = self.builder.records();
        &&& self.builder.wf()
        &&& self.edges.wf()
        &&& self.edges.records() == recs
        &&& self.is_root@.len() == self.items@.len()
        &&& recs.len() == self.items@.len()
        &&& forall|i: int|
            0 <= i < self.items@.len() ==> {
                &&& recs[i].offset == (#[trigger] self.items@[i]).offset
                &&& self.is_root@[i] == (self.items@[i].base is None)
            }
        &&& resolves(self.pairs@, self.seen@, recs)
        &&& super::item_store::sorted_by_parent(self.pairs@)
        &&& forall|k: int| 0 <= k < self.pairs@.len() ==> (#[trigger] self.pairs@[k]).0 <= self.edges.cursor()
        &&& crate::sort::stably_sorted(self.expected@, edges_in(self.items@))
        &&& self.faithful@ ==> {
            &&& self.seen@ + self.edges.rest() == self.expected@
            &&& forall|j: int, k: int|
                0 <= j < self.edges.cursor() && 0 <= k < self.edges.rest().len() ==> (
                #[trigger] recs[j]).offset < (#[trigger] self.edges.rest()[k]).base_offset
        }
    }

    /// Every block supplied so far was what was written.
    pub closed spec fn is_faithful(self) -> bool {
        self.faithful@
    }

    pub closed spec fn items(self) -> Seq<TreeItem> {
        self.items@
    }

    pub closed spec fn items_image(self) -> Seq<u8> {
        self.builder.image()
    }

    pub closed spec fn edges_image(self) -> Seq<u8> {
        self.edges.image()
    }

    pub closed spec fn pack_entries_end(self) -> u64 {
        self.pack_entries_end
    }

    /// The blocks that have to be supplied before resolving can go on, in the
    /// order they are asked for.
    pub closed spec fn waits(self) -> Seq<ReadRequest> {
        self.edges.waits()
    }

    /// The block that has to be supplied next, if any is waited for.
    pub open spec fn awaits(self) -> Option<ReadRequest> {
        if self.waits().len() == 0 {
            None
        } else {
            Some(self.waits()[0])
        }
    }

    /// All edges were resolved.
    pub closed spec fn is_done(self) -> bool {
        self.edges.rest().len() == 0
    }

    /// Resolve edges until more bytes are needed, all are resolved, or one
    /// names a base that is no item, which is then the first such base in the
    /// pack. After such a failure there is nothing more
    /// to be had from the resolution.
    pub fn advance(&mut self) -> (progress: Progress)
        requires
            old(self).wf(),
        ensures
            !(progress is Failed) ==> final(self).wf(),
            final(self).is_faithful() == old(self).is_faithful(),
            final(self).items() == old(self).items(),
            final(self).items_image() == old(self).items_image(),
            final(self).edges_image() == old(self).edges_image(),
            final(self).pack_entries_end() == old(self).pack_entries_end(),
            match progress {
                Progress::Read(read) => {
                    &&& final(self).awaits() == Some(read)
                    &&& read.len > 0
                    &&& read.offset + read.len <= final(self).edges_image().len()
                },
                Progress::Done => {
                    &&& final(self).is_done()
                    &&& final(self).is_faithful() ==> all_bases_present(final(self).items())
                },
                Progress::Failed(error) => {
                    &&& error is OutOfPackRefDelta
                    &&& final(self).is_faithful() ==> is_first_missing_base(
                        final(self).items(),
                        error->base_pack_offset,
                    )
                },
            },
    {
        loop
            invariant
                self.wf(),
                self.faithful == old(self).faithful,
                self.items == old(self).items,
                self.builder == old(self).builder,
                self.edges.image() == old(self).edges.image(),
                self.pack_entries_end == old(self).pack_entries_end,
            decreases self.edges.rest().len(),
        {
            let ghost before = *self;
            let ghost recs = self.builder.records();
            let ghost all = self.expected@;
            proof {
                self.builder.lemma_offsets_increase();
                self.edges.lemma_cursor_in_range();
                if self.edges.rest().len() > 0 {
                    let edge = before.edges.rest()[0];
                    super::edge_spool::lemma_search_moves_forward(
                        recs,
                        before.edges.cursor(),
                        edge.base_offset,
                    );
                    if before.faithful@ {
                        assert forall|j: int| 0 <= j < before.edges.cursor() implies (
                        #[trigger] recs[j]).offset < edge.base_offset by {
                            assert(before.edges.rest()[0].base_offset == edge.base_offset);
                        }
                        super::edge_spool::lemma_search_finds(
                            recs,
                            before.edges.cursor(),
                            edge.base_offset,
                        );
                        assert(all[before.seen@.len() as int] == edge);
                        lemma_edge_of_item(before.items@, all, edge);
                    }
                }
            }
            match self.edges.next() {
                Resolved::Pair(parent, child) => {
                    self.pairs.push((parent, child));
                    proof {
                        let edge = before.edges.rest()[0];
                        self.seen = Ghost(before.seen@.push(edge));
                        assert forall|a: int, b: int| 0 <= a <= b < self.pairs@.len() implies (
                        #[trigger] self.pairs@[a]).0 <= (#[trigger] self.pairs@[b]).0 by {
                            if b < before.pairs@.len() {
                                assert(before.pairs@[a].0 <= before.pairs@[b].0);
                            } else if a < before.pairs@.len() {
                                assert(before.pairs@[a].0 <= before.edges.cursor());
                            }
                        }
                        assert forall|k: int| 0 <= k < self.pairs@.len() implies {
                            &&& (#[trigger] self.pairs@[k]).0 < recs.len()
                            &&& recs[self.pairs@[k].0 as int].offset == self.seen@[k].base_offset
                            &&& self.pairs@[k].1 == self.seen@[k].child_idx
                            &&& self.pairs@[k].0 <= self.edges.cursor()
                        } by {
                            if k < before.pairs@.len() {
                                assert(before.pairs@[k] == self.pairs@[k]);
                            }
                        }
                        if self.faithful@ {
                            assert(self.seen@ + self.edges.rest() =~= before.seen@
                                + before.edges.rest());
                            assert forall|j: int, k: int|
                                0 <= j < self.edges.cursor() && 0 <= k
                                    < self.edges.rest().len() implies (
                            #[trigger] recs[j]).offset < (
                            #[trigger] self.edges.rest()[k]).base_offset by {
                                let m = before.seen@.len() as int;
                                assert(all[m] == edge);
                                assert(all[m + 1 + k] == self.edges.rest()[k]);
                                assert(all[m].key() <= all[m + 1 + k].key());
                            }
                        }
                    }
                },
                Resolved::Unresolved { base_offset } => {
                    proof {
                        if self.faithful@ {
                            assert(is_missing_base(self.items@, base_offset)) by {
                                assert forall|j: int| 0 <= j < self.items@.len() implies (
                                #[trigger] self.items@[j]).offset != base_offset by {
                                    assert(recs[j].offset == self.items@[j].offset);
                                }
                            }
                            assert forall|m: u64| #[trigger]
                                is_missing_base(self.items@, m) implies base_offset <= m by {
                                // Its edge was not resolved before, so it comes
                                // no earlier than this one.
                                let k = choose|k: int|
                                    0 <= k < self.items@.len() && (#[trigger] self.items@[k]).base
                                        == Some(m);
                                lemma_item_edge(self.items@, all, k);
                                let e = choose|e: int|
                                    0 <= e < all.len() && (#[trigger] all[e]).base_offset == m;
                                let at = before.seen@.len() as int;
                                assert(all[at].base_offset == base_offset);
                                if e < at {
                                    assert(before.seen@[e] == all[e]);
                                    let p = before.pairs@[e].0 as int;
                                    assert(recs[p].offset == self.items@[p].offset);
                                } else {
                                    assert(all[at].key() <= all[e].key());
                                }
                            }
                        }
                    }
                    return Progress::Failed(
                        traverse::Error::OutOfPackRefDelta { base_pack_offset: base_offset },
                    );
                },
                Resolved::Read(read) => {
                    return Progress::Read(read);
                },
                Resolved::Done => {
                    proof {
                        if self.faithful@ {
                            assert(self.seen@ =~= all);
                            assert forall|k: int|
                                0 <= k < self.items@.len() && (
                                #[trigger] self.items@[k]).base is Some implies exists|j: int|
                                0 <= j < self.items@.len() && (
                                #[trigger] self.items@[j]).offset == self.items@[k].base->0 by {
                                lemma_item_edge(self.items@, all, k);
                                let e = choose|e: int|
                                    0 <= e < all.len() && (#[trigger] all[e]).base_offset
                                        == self.items@[k].base->0;
                                let p = self.pairs@[e].0 as int;
                                assert(recs[p].offset == self.items@[p].offset);
                            }
                        }
                    }
                    return Progress::Done;
                },
            }
        }
    }
}

impl<'a> Resolution<'a> {
    /// Hand over the bytes that [`Self::advance`] asked for. They are waited for
    /// no longer.
    pub fn supply(&mut self, bytes: &[u8])
        requires
            old(self).wf(),
            old(self).awaits() matches Some(read) && bytes@.len() == read.len,
        ensures
            final(self).wf(),
            final(self).items() == old(self).items(),
            final(self).items_image() == old(self).items_image(),
            final(self).edges_image() == old(self).edges_image(),
            final(self).pack_entries_end() == old(self).pack_entries_end(),
            final(self).waits() == old(self).waits().drop_first(),
            final(self).is_faithful() == (old(self).is_faithful() && bytes@ == old(
                self,
            ).edges_image().subrange(
                old(self).awaits()->0.offset as int,
                old(self).awaits()->0.offset + bytes@.len(),
            )),
    {
        let ghost before = *self;
        self.edges.supply(bytes);
        proof {
            let read = before.awaits()->0;
            self.faithful = Ghost(
                before.faithful@ && bytes@ == before.edges_image().subrange(
                    read.offset as int,
                    read.offset + bytes@.len(),
                ),
            );
        }
    }

    /// The resolved tree, once all edges are resolved.
    pub fn complete(self) -> (tree: ResolvedTree)
        requires
            self.wf(),
            self.is_done(),
        ensures
            tree.wf(),
            tree.is_faithful() == self.is_faithful(),
            tree.items() == self.items(),
            tree.items_image() == self.items_image(),
            tree.pack_entries_end() == self.pack_entries_end(),
    {
        proof {
            if self.faithful@ {
                assert(self.seen@ + self.edges.rest() =~= self.seen@);
            }
        }
        ResolvedTree {
            builder: self.builder,
            pairs: self.pairs,
            is_root: self.is_root,
            pack_entries_end: self.pack_entries_end,
            items: self.items,
            seen: self.seen,
            faithful: self.faithful,
        }
    }
}

/// A tree whose edges are resolved.
pub struct ResolvedTree {
    builder: ItemStoreBuilder,
    pairs: Vec<(u32, u32)>,
    is_root: Vec<bool>,
    pack_entries_end: u64,
    items: Ghost<Seq<TreeItem>>,
    seen: Ghost<Seq<Edge>>,
    faithful: Ghost<bool>,
}

/// The store of a finished tree, the edges image, and which items are no deltas.
pub struct FinishedTree {
    pub store: ItemStore,
    pub edges: Vec<u8>,
    pub is_root: Vec<bool>,
}

/// The items that name `offset` as their base, in the order in which they were added.
pub open spec fn children_at(items: Seq<TreeItem>, offset: u64) -> Seq<u32>
    decreases items.len(),
{
    if items.len() == 0 {
        Seq::empty()
    } else {
        let front = children_at(items.drop_last(), offset);
        if items.last().base == Some(offset) {
            front.push((items.len() - 1) as u32)
        } else {
            front
        }
    }
}

/// Where item `i` ends: where the next one begins, or at the end of all entries.
pub open spec fn item_end(items: Seq<TreeItem>, pack_entries_end: u64, i: int) -> u64 {
    if i + 1 < items.len() {
        items[i + 1].offset
    } else {
        pack_entries_end
    }
}

impl ResolvedTree {
    pub closed spec fn wf(self) -> bool {
        let recs = self.builder.records();
        &&& self.builder.wf()
        &&& self.is_root@.len() == self.items@.len()
        &&& recs.len() == self.items@.len()
        &&& forall|i: int|
            0 <= i < self.items@.len() ==> {
                &&& recs[i].offset == (#[trigger] self.items@[i]).offset
                &&& self.is_root@[i] == (self.items@[i].base is None)
            }
        &&& resolves(self.pairs@, self.seen@, recs)
        &&& super::item_store::sorted_by_parent(self.pairs@)
        &&& self.faithful@ ==> crate::sort::stably_sorted(self.seen@, edges_in(self.items@))
    }

    /// Every block supplied on the way was what was written.
    pub closed spec fn is_faithful(self) -> bool {
        self.faithful@
    }

    pub closed spec fn items(self) -> Seq<TreeItem> {
        self.items@
    }

    pub closed spec fn items_image(self) -> Seq<u8> {
        self.builder.image()
    }

    pub closed spec fn pack_entries_end(self) -> u64 {
        self.pack_entries_end
    }

    pub closed spec fn num_edges(self) -> nat {
        self.pairs@.len()
    }

    /// Complete the store. `items` holds the bytes of the items image and is
    /// brought up to date.
    pub fn finish(self, items: &mut [u8]) -> (r: Result<FinishedTree, traverse::Error>)
        requires
            self.wf(),
            old(items)@ == self.items_image(),
        ensures
            r is Ok <==> self.num_edges() <= u32::MAX,
            self.is_faithful() ==> r is Ok,
            match r {
                Ok(tree) => {
                    &&& tree.store.wf()
                    &&& tree.store.items_image() == final(items)@
                    &&& tree.store.edges_image() == tree.edges@
                    &&& tree.edges@.len() == 4 * self.num_edges()
                    &&& tree.store.records().len() == self.items().len()
                    &&& tree.is_root@.len() == self.items().len()
                    &&& forall|i: int|
                        0 <= i < self.items().len() ==> {
                            let rec = #[trigger] tree.store.records()[i];
                            &&& rec.offset == self.items()[i].offset
                            &&& rec.next_offset == item_end(
                                self.items(),
                                self.pack_entries_end(),
                                i,
                            )
                            &&& tree.is_root@[i] == (self.items()[i].base is None)
                            &&& self.is_faithful() ==> tree.store.child_seq(i) == children_at(
                                self.items(),
                                self.items()[i].offset,
                            )
                        }
                },
                Err(e) => e is SpoolIo && final(items)@ == old(items)@,
            },
    {
        let ghost recs = self.builder.records();
        let ghost tree_items = self.items@;
        proof {
            self.builder.lemma_offsets_increase();
            if self.faithful@ {
                crate::sort::law_stable_order_keeps_all(self.seen@, edges_in(tree_items));
                lemma_edges_in_len(tree_items);
            }
        }
        match self.builder.finish(items, &self.pairs, self.pack_entries_end) {
            Ok(finished) => {
                proof {
                    assert forall|i: int| 0 <= i < tree_items.len() implies {
                        let rec = #[trigger] finished.store.records()[i];
                        &&& rec.offset == tree_items[i].offset
                        &&& rec.next_offset == item_end(tree_items, self.pack_entries_end, i)
                        &&& self.is_root@[i] == (tree_items[i].base is None)
                        &&& self.faithful@ ==> finished.store.child_seq(i) == children_at(
                            tree_items,
                            tree_items[i].offset,
                        )
                    } by {
                        assert(super::item_store::is_finished_item(
                            recs,
                            self.pairs@,
                            self.pack_entries_end,
                            finished.store,
                            i,
                        ));
                        assert(recs[i].offset == tree_items[i].offset);
                        if i + 1 < tree_items.len() {
                            assert(recs[i + 1].offset == tree_items[i + 1].offset);
                        }
                        if self.faithful@ {
                            lemma_children_of_pairs(self.pairs@, self.seen@, recs, i);
                            let off = tree_items[i].offset;
                            assert(crate::sort::of_key(self.seen@, off as nat)
                                == crate::sort::of_key(edges_in(tree_items), off as nat));
                            lemma_children_at(tree_items, off);
                        }
                    }
                }
                Ok(
                    FinishedTree {
                        store: finished.store,
                        edges: finished.edges,
                        is_root: self.is_root,
                    },
                )
            },
            Err(_) => Err(traverse::Error::SpoolIo),
        }
    }
}

/// No item has more than one edge.
proof fn lemma_edges_in_len(items: Seq<TreeItem>)
    ensures
        edges_in(items).len() <= items.len(),
    decreases items.len(),
{
    if items.len() > 0 {
        lemma_edges_in_len(items.drop_last());
    }
}

/// The children that edges lead to.
spec fn kids(edges: Seq<Edge>) -> Seq<u32> {
    edges.map_values(|e: Edge| e.child_idx)
}

/// The pairs of a parent are the edges that name its offset.
proof fn lemma_children_of_pairs(
    pairs: Seq<(u32, u32)>,
    edges: Seq<Edge>,
    recs: Seq<super::item_store::ItemRecord>,
    i: int,
)
    requires
        resolves(pairs, edges, recs),
        super::item_store::offsets_increase(recs),
        0 <= i < recs.len() <= u32::MAX,
    ensures
        super::item_store::children_of(pairs, i as u32) == kids(
            crate::sort::of_key(edges, recs[i].offset as nat),
        ),
    decreases pairs.len(),
{
    let k = recs[i].offset as nat;
    if pairs.len() == 0 {
        assert(edges =~= Seq::<Edge>::empty());
        crate::sort::lemma_of_key_none(edges, k);
        assert(kids(crate::sort::of_key(edges, k)) =~= Seq::<u32>::empty());
    } else {
        let p0 = pairs.drop_last();
        let e0 = edges.drop_last();
        assert forall|m: int| 0 <= m < p0.len() implies {
            &&& (#[trigger] p0[m]).0 < recs.len()
            &&& recs[p0[m].0 as int].offset == e0[m].base_offset
            &&& p0[m].1 == e0[m].child_idx
        } by {
            assert(pairs[m] == p0[m]);
        }
        lemma_children_of_pairs(p0, e0, recs, i);
        let e = edges.last();
        assert(edges =~= e0 + seq![e]);
        crate::sort::lemma_of_key_add(e0, seq![e], k);
        crate::sort::lemma_of_key_one(e, k);
        let p = pairs.last().0 as int;
        assert(pairs[pairs.len() - 1] == pairs.last());
        if p < i {
            assert(recs[p].offset < recs[i].offset);
        } else if i < p {
            assert(recs[i].offset < recs[p].offset);
        }
        assert(kids(crate::sort::of_key(edges, k)) =~= super::item_store::children_of(
            pairs,
            i as u32,
        ));
    }
}

/// The edges that name an offset come from the items that do.
proof fn lemma_children_at(items: Seq<TreeItem>, offset: u64)
    ensures
        kids(crate::sort::of_key(edges_in(items), offset as nat)) == children_at(items, offset),
    decreases items.len(),
{
    let k = offset as nat;
    if items.len() == 0 {
        crate::sort::lemma_of_key_none(edges_in(items), k);
        assert(kids(crate::sort::of_key(edges_in(items), k)) =~= Seq::<u32>::empty());
    } else {
        let init = items.drop_last();
        lemma_children_at(init, offset);
        match items.last().base {
            None => {},
            Some(base_offset) => {
                let e = Edge { base_offset, child_idx: (items.len() - 1) as u32 };
                assert(edges_in(items) =~= edges_in(init) + seq![e]);
                crate::sort::lemma_of_key_add(edges_in(init), seq![e], k);
                crate::sort::lemma_of_key_one(e, k);
                assert(kids(crate::sort::of_key(edges_in(items), k)) =~= children_at(
                    items,
                    offset,
                ));
            },
        }
    }
}

/// Every item that is a delta names an item as its base.
pub open spec fn all_bases_present(items: Seq<TreeItem>) -> bool {
    forall|k: int|
        0 <= k < items.len() && (#[trigger] items[k]).base is Some ==> exists|j: int|
            0 <= j < items.len() && (#[trigger] items[j]).offset == items[k].base->0
}

/// An item names `base` as its base, and no item is there.
pub open spec fn is_missing_base(items: Seq<TreeItem>, base: u64) -> bool {
    &&& exists|k: int| 0 <= k < items.len() && (#[trigger] items[k]).base == Some(base)
    &&& forall|j: int| 0 <= j < items.len() ==> (#[trigger] items[j]).offset != base
}

/// `base` is missing, and of all that are it comes first in the pack.
pub open spec fn is_first_missing_base(items: Seq<TreeItem>, base: u64) -> bool {
    &&& is_missing_base(items, base)
    &&& forall|m: u64| #[trigger] is_missing_base(items, m) ==> base <= m
}

/// Every edge stems from an item.
proof fn lemma_edge_of_item(items: Seq<TreeItem>, all: Seq<Edge>, edge: Edge)
    requires
        crate::sort::stably_sorted(all, edges_in(items)),
        all.contains(edge),
    ensures
        exists|k: int| 0 <= k < items.len() && (#[trigger] items[k]).base == Some(edge.base_offset),
{
    crate::sort::law_stable_order_keeps_all(all, edges_in(items));
    assert(edges_in(items).contains(edge));
    lemma_edges_in_from(items, edge);
}

proof fn lemma_edges_in_from(items: Seq<TreeItem>, edge: Edge)
    requires
        edges_in(items).contains(edge),
    ensures
        exists|k: int| 0 <= k < items.len() && (#[trigger] items[k]).base == Some(edge.base_offset),
    decreases items.len(),
{
    if items.len() > 0 {
        let init = items.drop_last();
        let front = edges_in(init);
        let at = edges_in(items).index_of(edge);
        if at < front.len() {
            assert(front[at] == edge);
            lemma_edges_in_from(init, edge);
            let k = choose|k: int|
                0 <= k < init.len() && (#[trigger] init[k]).base == Some(edge.base_offset);
            assert(items[k].base == Some(edge.base_offset));
        } else {
            assert(items[items.len() - 1].base == Some(edge.base_offset));
        }
    }
}

/// Every item that is a delta has an edge.
proof fn lemma_item_edge(items: Seq<TreeItem>, all: Seq<Edge>, k: int)
    requires
        crate::sort::stably_sorted(all, edges_in(items)),
        0 <= k < items.len(),
        items[k].base is Some,
    ensures
        exists|e: int| 0 <= e < all.len() && (#[trigger] all[e]).base_offset == items[k].base->0,
{
    let edge = lemma_edges_in_to(items, k);
    crate::sort::law_stable_order_keeps_all(all, edges_in(items));
    assert(all.contains(edge));
    assert(all[all.index_of(edge)].base_offset == items[k].base->0);
}

proof fn lemma_edges_in_to(items: Seq<TreeItem>, k: int) -> (edge: Edge)
    requires
        0 <= k < items.len(),
        items[k].base is Some,
    ensures
        edges_in(items).contains(edge),
        edge.base_offset == items[k].base->0,
    decreases items.len(),
{
    let init = items.drop_last();
    if k == items.len() - 1 {
        let edge = Edge { base_offset: items[k].base->0, child_idx: k as u32 };
        assert(edges_in(items).last() == edge);
        edge
    } else {
        let edge = lemma_edges_in_to(init, k);
        let front = edges_in(init);
        assert(edges_in(items)[front.index_of(edge)] == edge);
        edge
    }
}

/// The children of every item of a tree.
pub open spec fn tree_children(items: Seq<TreeItem>) -> traverse::walk::Children {
    Seq::new(items.len(), |i: int| children_at(items, items[i].offset))
}

/// Offsets grow from one item to the next, and a `u32` counts the items.
pub open spec fn is_pack_order(items: Seq<TreeItem>) -> bool {
    &&& items.len() <= u32::MAX
    &&& forall|i: int, j: int|
        0 <= i < j < items.len() ==> (#[trigger] items[i]).offset < (#[trigger] items[j]).offset
}

/// The items that name an offset are listed in ascending order.
proof fn lemma_children_ascend(items: Seq<TreeItem>, offset: u64)
    requires
        items.len() <= u32::MAX,
    ensures
        ({
            let kids = children_at(items, offset);
            &&& forall|c: int|
                0 <= c < kids.len() ==> (#[trigger] kids[c]) < items.len()
                    && items[kids[c] as int].base == Some(offset)
            &&& forall|c: int, d: int| 0 <= c < d < kids.len() ==> kids[c] < kids[d]
        }),
    decreases items.len(),
{
    if items.len() > 0 {
        let init = items.drop_last();
        lemma_children_ascend(init, offset);
        let kids = children_at(items, offset);
        let front = children_at(init, offset);
        assert forall|c: int| 0 <= c < kids.len() implies (#[trigger] kids[c]) < items.len()
            && items[kids[c] as int].base == Some(offset) by {
            if c < front.len() {
                assert(front[c] == kids[c]);
                assert(init[front[c] as int] == items[front[c] as int]);
            }
        }
        assert forall|c: int, d: int| 0 <= c < d < kids.len() implies kids[c] < kids[d] by {
            assert(front[c] == kids[c]);
            if d < front.len() {
                assert(front[d] == kids[d]);
            }
        }
    }
}

/// Every item that names an offset is listed.
proof fn lemma_children_complete(items: Seq<TreeItem>, offset: u64, k: int) -> (c: int)
    requires
        items.len() <= u32::MAX,
        0 <= k < items.len(),
        items[k].base == Some(offset),
    ensures
        0 <= c < children_at(items, offset).len(),
        children_at(items, offset)[c] == k,
    decreases items.len(),
{
    let init = items.drop_last();
    if k == items.len() - 1 {
        children_at(items, offset).len() - 1
    } else {
        let c = lemma_children_complete(init, offset, k);
        assert(children_at(items, offset)[c] == children_at(init, offset)[c]);
        c
    }
}

/// The items of a pack form a forest: every item is a child of at most one
/// other, and items that are no deltas are roots.
pub proof fn law_items_form_a_forest(items: Seq<TreeItem>)
    requires
        is_pack_order(items),
    ensures
        traverse::walk::is_forest(tree_children(items)),
        traverse::walk::links_in_range(tree_children(items)),
        forall|r: u32|
            r < items.len() && (#[trigger] items[r as int]).base is None
                ==> traverse::walk::is_root_of(tree_children(items), r),
{
    let children = tree_children(items);
    assert forall|p: int, c: int|
        #![trigger children[p][c]]
        0 <= p < children.len() && 0 <= c < children[p].len() implies children[p][c] < items.len()
        && items[children[p][c] as int].base == Some(items[p].offset) by {
        lemma_children_ascend(items, items[p].offset);
    }
    assert forall|p: int, c: int, q: int, d: int|
        #![trigger children[p][c], children[q][d]]
        0 <= p < children.len() && 0 <= c < children[p].len() && 0 <= q < children.len() && 0 <= d
            < children[q].len() && children[p][c] == children[q][d] implies p == q && c == d by {
        assert(items[p].offset == items[q].offset);
        if p < q {
            assert(items[p].offset < items[q].offset);
        } else if q < p {
            assert(items[q].offset < items[p].offset);
        }
        lemma_children_ascend(items, items[p].offset);
        if c < d {
            assert(children[p][c] < children[p][d]);
        } else if d < c {
            assert(children[p][d] < children[p][c]);
        }
    }
    assert forall|r: u32|
        r < items.len() && (
        #[trigger] items[r as int]).base is None implies traverse::walk::is_root_of(children, r) by {
        assert forall|p: int, c: int|
            #![trigger children[p][c]]
            0 <= p < children.len() && 0 <= c < children[p].len() implies children[p][c] != r by {
            assert(items[children[p][c] as int].base == Some(items[p].offset));
        }
    }
}

/// From item `x`, going to the base that each delta names leads to an item that
/// is no delta in `steps` steps.
pub open spec fn leads_to_root(items: Seq<TreeItem>, x: u32, steps: nat) -> bool
    decreases steps,
{
    &&& x < items.len()
    &&& match items[x as int].base {
        None => steps == 0,
        Some(base) => steps > 0 && exists|p: u32|
            p < items.len() && (#[trigger] items[p as int]).offset == base && leads_to_root(
                items,
                p,
                (steps - 1) as nat,
            ),
    }
}

/// The item is no delta, or it is made from one by deltas of deltas. Of deltas
/// that name each other in a circle this does not hold.
pub open spec fn has_root(items: Seq<TreeItem>, x: u32) -> bool {
    exists|steps: nat| #[trigger] leads_to_root(items, x, steps)
}

/// Every item is no delta, or is made from one. Bases may come before or after
/// their deltas.
pub open spec fn all_have_roots(items: Seq<TreeItem>) -> bool {
    forall|x: u32| x < items.len() ==> #[trigger] has_root(items, x)
}

/// An item that leads to a root lies that deep below it in the tree.
pub proof fn law_every_item_lies_below_a_root(items: Seq<TreeItem>, x: u32, steps: nat)
    requires
        is_pack_order(items),
        leads_to_root(items, x, steps),
    ensures
        exists|r: u32|
            r < items.len() && items[r as int].base is None
                && #[trigger] traverse::walk::is_below(tree_children(items), r, x, steps),
    decreases steps,
{
    let children = tree_children(items);
    match items[x as int].base {
        None => {
            assert(traverse::walk::is_below(children, x, x, 0));
        },
        Some(base) => {
            let p = choose|p: u32|
                p < items.len() && (#[trigger] items[p as int]).offset == base && leads_to_root(
                    items,
                    p,
                    (steps - 1) as nat,
                );
            law_every_item_lies_below_a_root(items, p, (steps - 1) as nat);
            let r = choose|r: u32|
                r < items.len() && items[r as int].base is None
                    && #[trigger] traverse::walk::is_below(children, r, p, (steps - 1) as nat);
            let c = lemma_children_complete(items, base, x as int);
            assert(children[p as int][c] == x);
            assert(traverse::walk::is_below(children, r, x, steps));
        },
    }
}

/// Where every base is there and comes before its deltas, as in packs that hold
/// offsets of bases, every item has a root.
pub proof fn law_deltas_behind_their_bases_have_roots(items: Seq<TreeItem>)
    requires
        is_pack_order(items),
        all_bases_present(items),
        forall|k: int|
            0 <= k < items.len() && (#[trigger] items[k]).base is Some ==> items[k].base->0
                < items[k].offset,
    ensures
        all_have_roots(items),
{
    assert forall|x: u32| x < items.len() implies #[trigger] has_root(items, x) by {
        lemma_has_root(items, x);
    }
}

proof fn lemma_has_root(items: Seq<TreeItem>, x: u32)
    requires
        is_pack_order(items),
        all_bases_present(items),
        forall|k: int|
            0 <= k < items.len() && (#[trigger] items[k]).base is Some ==> items[k].base->0
                < items[k].offset,
        x < items.len(),
    ensures
        has_root(items, x),
    decreases x,
{
    match items[x as int].base {
        None => {
            assert(leads_to_root(items, x, 0));
        },
        Some(base) => {
            let p = choose|j: int|
                0 <= j < items.len() && (#[trigger] items[j]).offset == items[x as int].base->0;
            if x < p {
                assert(items[x as int].offset < items[p].offset);
            }
            let q = p as u32;
            assert(items[q as int].offset == base);
            lemma_has_root(items, q);
            let steps = choose|steps: nat| #[trigger] leads_to_root(items, q, steps);
            assert(leads_to_root(items, q, ((steps + 1) - 1) as nat));
            assert(leads_to_root(items, x, steps + 1));
        },
    }
}

/// Every item that names the offset as its base is a child, nothing else is, and
/// children stand in the order of their items.
pub proof fn law_children_name_their_base(items: Seq<TreeItem>, offset: u64)
    requires
        items.len() <= u32::MAX,
    ensures
        forall|x: u32| #[trigger]
            children_at(items, offset).contains(x) <==> x < items.len() && items[x as int].base
                == Some(offset),
        forall|c: int, d: int|
            0 <= c < d < children_at(items, offset).len() ==> children_at(items, offset)[c]
                < children_at(items, offset)[d],
{
    let kids = children_at(items, offset);
    lemma_children_ascend(items, offset);
    assert forall|x: u32| #[trigger] kids.contains(x) <==> x < items.len() && items[x as int].base
        == Some(offset) by {
        if kids.contains(x) {
            let c = kids.index_of(x);
            assert(kids[c] == x);
        }
        if x < items.len() && items[x as int].base == Some(offset) {
            let c = lemma_children_complete(items, offset, x as int);
            assert(kids[c] == x);
        }
    }
}

/// Every delta has one edge, which leads from the offset that it names to the item
/// itself, and no other item has one. Edges stand in the order of their items.
pub proof fn law_every_delta_has_an_edge(items: Seq<TreeItem>)
    requires
        items.len() <= u32::MAX,
    ensures
        edges_in(items).len() == items.filter(|item: TreeItem| item.base is Some).len(),
        forall|e: Edge| #[trigger]
            edges_in(items).contains(e) <==> e.child_idx < items.len()
                && items[e.child_idx as int].base == Some(e.base_offset),
        forall|a: int, b: int|
            0 <= a < b < edges_in(items).len() ==> (#[trigger] edges_in(items)[a]).child_idx < (
            #[trigger] edges_in(items)[b]).child_idx,
    decreases items.len(),
{
    reveal(Seq::filter);
    let edges = edges_in(items);
    if items.len() > 0 {
        let init = items.drop_last();
        let front = edges_in(init);
        let last = (items.len() - 1) as u32;
        law_every_delta_has_an_edge(init);
        assert forall|e: Edge| #[trigger] edges.contains(e) <==> e.child_idx < items.len()
            && items[e.child_idx as int].base == Some(e.base_offset) by {
            assert(front.contains(e) <==> e.child_idx < init.len() && init[e.child_idx as int].base
                == Some(e.base_offset));
            if edges.contains(e) {
                let k = edges.index_of(e);
                if k < front.len() {
                    assert(front[k] == e);
                    assert(front.contains(e));
                }
            }
            if front.contains(e) {
                assert(edges[front.index_of(e)] == e);
            }
            if e.child_idx == last && items[e.child_idx as int].base == Some(e.base_offset) {
                assert(edges[front.len() as int] == e);
            }
        }
        assert forall|a: int, b: int| 0 <= a < b < edges.len() implies (
        #[trigger] edges[a]).child_idx < (#[trigger] edges[b]).child_idx by {
            assert(front[a] == edges[a]);
            if b < front.len() {
                assert(front[b] == edges[b]);
                assert(front[a].child_idx < front[b].child_idx);
            } else {
                assert(front.contains(front[a]));
            }
        }
    }
}

/// An item ends where the next one begins, and the last one where all entries do.
pub proof fn law_items_lie_side_by_side(items: Seq<TreeItem>, pack_entries_end: u64, i: int)
    requires
        0 <= i < items.len(),
    ensures
        i < items.len() - 1 ==> item_end(items, pack_entries_end, i) == items[i + 1].offset,
        i == items.len() - 1 ==> item_end(items, pack_entries_end, i) == pack_entries_end,
        is_pack_order(items) && items.last().offset < pack_entries_end ==> items[i].offset
            < item_end(items, pack_entries_end, i) <= pack_entries_end,
{
    if is_pack_order(items) && i < items.len() - 1 {
        assert(items[i].offset < items[i + 1].offset);
        if i + 1 < items.len() - 1 {
            assert(items[i + 1].offset < items[items.len() - 1].offset);
        }
    }
}

/// An offset lies beyond the tree exactly if every item begins before it.
pub proof fn law_beyond_is_behind_every_item(tree: Tree, offset: u64)
    requires
        tree.wf(),
    ensures
        tree.is_beyond(offset) <==> forall|i: int|
            0 <= i < tree.items().len() ==> (#[trigger] tree.items()[i]).offset < offset,
{
    tree.lemma_pack_order();
    let items = tree.items();
    if items.len() > 0 {
        let last = items.len() - 1;
        assert(items[last] == items.last());
        if tree.is_beyond(offset) {
            assert forall|i: int| 0 <= i < items.len() implies (#[trigger] items[i]).offset
                < offset by {
                if i < last {
                    assert(items[i].offset < items[last].offset);
                }
            }
        }
    }
}

} // verus!
