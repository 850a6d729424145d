//! From delta edges to the children of every item.
//!
//! While a pack is read, a delta names its base by pack offset, which need not
//! be that of an item seen before. Edges are therefore collected as pairs of
//! base offset and child, sorted by base offset, and matched against the items
//! in one pass: item offsets ascend too.
use vstd::prelude::*;

use super::item_store::ItemMetadata;
use crate::budget::{MemoryBudget, OutOfBudget, Reservation};
use crate::bytes::{get_le, put_le};
use crate::sort::chunk::probe;
use crate::sort::spill::{ReadRequest, SortedIter, Sorter, Spill, Step};
use crate::sort::Record;

verus! {

/// The size of an edge on the spool.
pub const SERIALIZED_EDGE_SIZE: usize = 12;

/// The size of an edge in memory.
pub const IN_RAM_EDGE_SIZE: usize = 16;

/// The smallest run, in edges. It is used even where the budget has no room
/// for it.
pub const MIN_CHUNK_EDGES: usize = 128;

/// The largest run, in edges.
pub const DEFAULT_CHUNK_EDGES: usize = 65_536;

/// How many edges of one run are read at a time.
pub const CURSOR_BUFFER_EDGES: usize = 128;

/// Errors from collecting and resolving edges.
#[derive(Debug, Clone, Copy, PartialEq, Eq, Structural)]
pub enum Error {
    /// Reading or writing the spool failed.
    SpoolIo,
    /// The budget has no room.
    OutOfBudget(OutOfBudget),
    /// An edge names a base that is no item.
    UnresolvedBaseOffset { base_offset: u64 },
}

/// The item at `child_idx` depends on the item at pack offset `base_offset`.
#[derive(Copy, Clone, Debug, PartialEq, Eq, Structural)]
pub struct Edge {
    pub base_offset: u64,
    pub child_idx: u32,
}

impl Record for Edge {
    open spec fn key(self) -> nat {
        self.base_offset as nat
    }

    open spec fn width() -> nat {
        12
    }

    open spec fn encoded(self) -> Seq<u8> {
        crate::bytes::le_bytes(self.base_offset as nat, 8) + crate::bytes::le_bytes(
            self.child_idx as nat,
            4,
        )
    }

    open spec fn read_ahead() -> nat {
        128
    }

    proof fn lemma_limits() {
    }

    proof fn lemma_encoded_len(self) {
        crate::bytes::lemma_le_len(self.base_offset as nat, 8);
        crate::bytes::lemma_le_len(self.child_idx as nat, 4);
    }

    proof fn lemma_encoded_injective(a: Self, b: Self) {
        crate::bytes::lemma_range_of();
        crate::bytes::lemma_le_roundtrip(a.base_offset as nat, 8);
        crate::bytes::lemma_le_roundtrip(b.base_offset as nat, 8);
        crate::bytes::lemma_le_roundtrip(a.child_idx as nat, 4);
        crate::bytes::lemma_le_roundtrip(b.child_idx as nat, 4);
        assert(a.encoded().subrange(0, 8) =~= crate::bytes::le_bytes(a.base_offset as nat, 8));
        assert(b.encoded().subrange(0, 8) =~= crate::bytes::le_bytes(b.base_offset as nat, 8));
        assert(a.encoded().subrange(8, 12) =~= crate::bytes::le_bytes(a.child_idx as nat, 4));
        assert(b.encoded().subrange(8, 12) =~= crate::bytes::le_bytes(b.child_idx as nat, 4));
    }

    fn exec_width() -> (n: usize) {
        SERIALIZED_EDGE_SIZE
    }

    fn exec_read_ahead() -> (n: usize) {
        CURSOR_BUFFER_EDGES
    }

    fn key_less(&self, other: &Self) -> (less: bool) {
        self.base_offset < other.base_offset
    }

    fn encode_into(&self, out: &mut Vec<u8>) {
        put_le(out, self.base_offset, 8);
        put_le(out, self.child_idx as u64, 4);
        assert(out@ =~= old(out)@ + self.encoded());
    }

    fn decode_at(bytes: &[u8], at: usize) -> (record: Self) {
        let base_offset: u64 = get_le(bytes, at, 8);
        let child_idx: u64 = get_le(bytes, at + 8, 4);
        proof {
            let a = bytes@.subrange(at as int, at + 8);
            let b = bytes@.subrange(at + 8, at + 12);
            crate::bytes::lemma_range_of();
            crate::bytes::lemma_le_value_bound(b);
            crate::bytes::lemma_le_inverse(a);
            crate::bytes::lemma_le_inverse(b);
            assert(a + b =~= bytes@.subrange(at as int, at + 12));
        }
        Edge { base_offset, child_idx: child_idx as u32 }
    }
}

/// Edges come out by the offset of their base, and those of one base in the order
/// in which they went in, all of them and no others.
pub proof fn law_edges_come_out_by_base(out: Seq<Edge>, input: Seq<Edge>, base_offset: u64)
    requires
        crate::sort::stably_sorted(out, input),
    ensures
        forall|i: int, j: int|
            0 <= i <= j < out.len() ==> (#[trigger] out[i]).base_offset <= (
            #[trigger] out[j]).base_offset,
        out.filter(|e: Edge| e.base_offset == base_offset) == input.filter(
            |e: Edge| e.base_offset == base_offset,
        ),
{
    let by_base = |e: Edge| e.base_offset == base_offset;
    let k = base_offset as nat;
    crate::sort::lemma_of_key_is_filter(out, k, by_base);
    crate::sort::lemma_of_key_is_filter(input, k, by_base);
    assert(crate::sort::of_key(out, k) == crate::sort::of_key(input, k));
    assert forall|i: int, j: int| 0 <= i <= j < out.len() implies (#[trigger] out[i]).base_offset
        <= (#[trigger] out[j]).base_offset by {
        assert(out[i].key() <= out[j].key());
    }
}

/// What an edge takes on the spool: the offset of its base and its child, both
/// with their least significant byte first. Edges are read back 128 at a time.
pub proof fn law_edge_on_the_spool(e: Edge)
    ensures
        Edge::width() == 12,
        Edge::read_ahead() == 128,
        e.encoded().len() == 12,
        crate::bytes::le_value(e.encoded().subrange(0, 8)) == e.base_offset,
        crate::bytes::le_value(e.encoded().subrange(8, 12)) == e.child_idx,
{
    crate::bytes::lemma_range_of();
    crate::bytes::lemma_le_roundtrip(e.base_offset as nat, 8);
    crate::bytes::lemma_le_roundtrip(e.child_idx as nat, 4);
    assert(e.encoded().subrange(0, 8) =~= crate::bytes::le_bytes(e.base_offset as nat, 8));
    assert(e.encoded().subrange(8, 12) =~= crate::bytes::le_bytes(e.child_idx as nat, 4));
}

/// Runs are sized for the edges that are expected, wherever those are no fewer
/// than 128 and no more than 65536, and otherwise for the nearer of the two.
pub proof fn law_run_is_sized_for_what_is_expected(capacity_hint: nat)
    ensures
        128 <= initial_target(capacity_hint) <= 65_536,
        128 <= capacity_hint <= 65_536 ==> initial_target(capacity_hint) == capacity_hint,
        capacity_hint < 128 ==> initial_target(capacity_hint) == 128,
        capacity_hint > 65_536 ==> initial_target(capacity_hint) == 65_536,
{
}

/// A run is accounted for with 16 bytes an edge, or not at all, which only the
/// smallest run is: where the budget has no room for that.
pub proof fn law_run_is_accounted_by_edge(
    reservation: Reservation,
    capacity: nat,
    budget: MemoryBudget,
)
    requires
        is_accounted(reservation, capacity, budget),
    ensures
        reservation.held() > 0 ==> reservation.held() == 16 * capacity,
        reservation.held() == 0 && capacity > 0 ==> capacity == 128,
        reservation.held() <= budget.limit(),
        reservation.is_of(budget),
{
}

/// Collects delta edges.
pub struct EdgeSpool {
    sorter: Sorter<Edge>,
    /// What the run in memory was granted: nothing, if there was no room for it.
    _chunk_reservation: Reservation,
}

/// The run size to start with: as many edges as are expected, within bounds.
pub open spec fn initial_target(capacity_hint: nat) -> nat {
    if capacity_hint < 128 {
        128
    } else if capacity_hint > 65_536 {
        65_536
    } else {
        capacity_hint
    }
}

/// `reservation` is what runs of `capacity` edges hold in the budget: all of their
/// bytes, or nothing where there was no room even for the smallest run.
pub open spec fn is_accounted(
    reservation: Reservation,
    capacity: nat,
    budget: MemoryBudget,
) -> bool {
    &&& reservation.is_of(budget)
    &&& reservation.held() == capacity * 16 || reservation.held() == 0 && capacity == 128
    &&& reservation.held() <= budget.limit()
    &&& budget.limit() < 2048 ==> reservation.held() == 0 && capacity == 128
}

impl EdgeSpool {
    pub closed spec fn wf(self) -> bool {
        self.sorter.wf()
    }

    /// Everything pushed so far, in the order in which it was pushed.
    pub closed spec fn pushed(self) -> Seq<Edge> {
        self.sorter.pushed()
    }

    /// The edges held in memory, in the order in which they were pushed.
    pub closed spec fn chunk(self) -> Seq<Edge> {
        self.sorter.chunk()
    }

    /// How many edges make a run.
    pub closed spec fn capacity(self) -> nat {
        self.sorter.capacity()
    }

    /// The bytes handed out to be written so far.
    pub closed spec fn image(self) -> Seq<u8> {
        self.sorter.image()
    }

    /// The bytes accounted for the run in memory.
    pub closed spec fn reservation(self) -> Reservation {
        self._chunk_reservation
    }

    /// The spool can take the edges in memory and one more.
    pub open spec fn has_room(self) -> bool {
        self.image().len() + (self.chunk().len() + 1) * 12 <= u64::MAX
    }

    /// What was pushed is in memory or was handed out to be written.
    pub proof fn lemma_size(self)
        requires
            self.wf(),
        ensures
            self.image().len() + self.chunk().len() * 12 == self.pushed().len() * 12,
    {
        self.sorter.lemma_size();
    }

    /// An empty spool. The run in memory is sized for `capacity_hint` edges,
    /// within bounds, and halved while the budget has no room for it. If there
    /// is no room even for the smallest run, that is used without being
    /// accounted for. The answers of the budget are gone by as
    /// [`settle`](crate::sort::chunk::settle) has it, and what was granted is kept.
    pub fn new(capacity_hint: usize, budget: MemoryBudget) -> (spool: Self)
        ensures
            spool.wf(),
            spool.pushed() == Seq::<Edge>::empty(),
            spool.chunk() == Seq::<Edge>::empty(),
            spool.image() == Seq::<u8>::empty(),
            exists|refusals: nat|
                spool.capacity() == #[trigger] crate::sort::chunk::target_after(
                    initial_target(capacity_hint as nat),
                    128,
                    refusals,
                ),
            is_accounted(spool.reservation(), spool.capacity(), budget),
    {
        let initial: usize = if capacity_hint < MIN_CHUNK_EDGES {
            MIN_CHUNK_EDGES
        } else if capacity_hint > DEFAULT_CHUNK_EDGES {
            DEFAULT_CHUNK_EDGES
        } else {
            capacity_hint
        };
        let (target, granted) = probe(&budget, initial, MIN_CHUNK_EDGES, IN_RAM_EDGE_SIZE);
        proof {
            let refusals = choose|refusals: nat|
                target == #[trigger] crate::sort::chunk::target_after(
                    initial as nat,
                    MIN_CHUNK_EDGES as nat,
                    refusals,
                );
            assert(target == crate::sort::chunk::target_after(
                initial_target(capacity_hint as nat),
                128,
                refusals,
            ));
        }
        let reservation = match granted {
            Some(r) => r,
            None => budget.reserve_nothing(),
        };
        Self::with_run(target, reservation)
    }

    /// An empty spool with runs of `target` edges, for which `reservation` was
    /// granted.
    pub fn with_run(target: usize, reservation: Reservation) -> (spool: Self)
        requires
            target > 0,
        ensures
            spool.wf(),
            spool.pushed() == Seq::<Edge>::empty(),
            spool.chunk() == Seq::<Edge>::empty(),
            spool.image() == Seq::<u8>::empty(),
            spool.capacity() == target,
            spool.reservation() == reservation,
    {
        EdgeSpool { sorter: Sorter::new(target), _chunk_reservation: reservation }
    }

    /// How many edges make a run.
    pub fn chunk_capacity(&self) -> (n: usize)
        ensures
            n == self.capacity(),
    {
        self.sorter.chunk_capacity()
    }

    /// How many bytes were handed out to be written so far.
    pub fn bytes_written(&self) -> (n: u64)
        requires
            self.wf(),
        ensures
            n == self.image().len(),
    {
        self.sorter.bytes_written()
    }

    /// Record one edge. If that fills the run in memory, its bytes are handed
    /// out to be written.
    pub fn push(&mut self, base_offset: u64, child_idx: u32) -> (spill: Option<Spill>)
        requires
            old(self).wf(),
            old(self).has_room(),
        ensures
            final(self).wf(),
            final(self).pushed() == old(self).pushed().push(Edge { base_offset, child_idx }),
            final(self).capacity() == old(self).capacity(),
            final(self).reservation() == old(self).reservation(),
            match spill {
                None => {
                    &&& old(self).chunk().len() + 1 < old(self).capacity()
                    &&& final(self).chunk() == old(self).chunk().push(
                        Edge { base_offset, child_idx },
                    )
                    &&& final(self).image() == old(self).image()
                },
                Some(s) => {
                    &&& old(self).chunk().len() + 1 == old(self).capacity()
                    &&& final(self).chunk() == Seq::<Edge>::empty()
                    &&& crate::sort::spill::is_spill_of(
                        s,
                        old(self).chunk().push(Edge { base_offset, child_idx }),
                        old(self).image(),
                        final(self).image(),
                    )
                },
            },
    {
        self.sorter.push(Edge { base_offset, child_idx })
    }

    /// The edges in ascending base offset order, to be matched against `items`.
    /// If a run was spilled before, what is still in memory is handed out to be
    /// written too, and a block of each run is waited for. If none was, the spool
    /// is not touched, now or later.
    pub fn resolve<'a>(self, metadata: ItemMetadata<'a>) -> (r: (Option<Spill>, ResolvedEdges<'a>))
        requires
            self.wf(),
            self.has_room(),
            metadata.wf(),
        ensures
            r.1.wf(),
            r.1.records() == metadata.records(),
            r.1.cursor() == 0,
            crate::sort::stably_sorted(r.1.rest(), self.pushed()),
            r.0 is Some <==> self.image().len() > 0 && self.chunk().len() > 0,
            match r.0 {
                None => r.1.image() == self.image(),
                Some(s) => crate::sort::spill::is_spill_of(
                    s,
                    self.chunk(),
                    self.image(),
                    r.1.image(),
                ),
            },
            self.image().len() == 0 ==> r.1.waits().len() == 0,
            self.image().len() > 0 ==> r.1.waits().len() == r.1.runs().len() > 0,
            forall|k: int|
                0 <= k < r.1.waits().len() ==> (#[trigger] r.1.waits()[k]).len > 0,
    {
        let (spill, stream) = self.sorter.finish();
        (spill, ResolvedEdges { metadata, stream, cursor: 0 })
    }
}

/// What resolving the next edge came to.
#[derive(Debug)]
pub enum Resolved {
    /// The next pair of parent and child.
    Pair(u32, u32),
    /// The next edge names a base that is no item.
    Unresolved { base_offset: u64 },
    /// The next edge can be told once these bytes are supplied.
    Read(ReadRequest),
    /// All edges were handed out.
    Done,
}

/// The first item from `from` on whose offset is not below `base`.
pub open spec fn first_not_below(
    recs: Seq<super::item_store::ItemRecord>,
    from: int,
    base: u64,
) -> int
    decreases recs.len() - from,
{
    if from < 0 || from >= recs.len() || recs[from].offset >= base {
        from
    } else {
        first_not_below(recs, from + 1, base)
    }
}

/// Where all items before `from` lie below `base`, the search finds the item at
/// `base` if and only if there is one.
pub proof fn lemma_search_finds(
    recs: Seq<super::item_store::ItemRecord>,
    from: int,
    base: u64,
)
    requires
        super::item_store::offsets_increase(recs),
        0 <= from <= recs.len(),
        forall|j: int| 0 <= j < from ==> (#[trigger] recs[j]).offset < base,
    ensures
        ({
            let p = first_not_below(recs, from, base);
            &&& from <= p <= recs.len()
            &&& forall|j: int| 0 <= j < p ==> (#[trigger] recs[j]).offset < base
            &&& (exists|i: int| 0 <= i < recs.len() && (#[trigger] recs[i]).offset == base)
                <==> (p < recs.len() && recs[p].offset == base)
        }),
    decreases recs.len() - from,
{
    if from < recs.len() && recs[from].offset < base {
        lemma_search_finds(recs, from + 1, base);
    } else if exists|i: int| 0 <= i < recs.len() && (#[trigger] recs[i]).offset == base {
        let i = choose|i: int| 0 <= i < recs.len() && (#[trigger] recs[i]).offset == base;
        if from < i {
            assert(recs[from].offset < recs[i].offset);
        }
    }
}

/// The search never goes back.
pub proof fn lemma_search_moves_forward(
    recs: Seq<super::item_store::ItemRecord>,
    from: int,
    base: u64,
)
    requires
        0 <= from <= recs.len(),
    ensures
        from <= first_not_below(recs, from, base) <= recs.len(),
    decreases recs.len() - from,
{
    if from < recs.len() && recs[from].offset < base {
        lemma_search_moves_forward(recs, from + 1, base);
    }
}

/// Pairs of parent and child, in ascending parent order.
pub struct ResolvedEdges<'a> {
    metadata: ItemMetadata<'a>,
    stream: SortedIter<Edge>,
    /// The item that the last edge was matched against. It only moves forward.
    cursor: u32,
}

impl<'a> ResolvedEdges<'a> {
    pub closed spec fn wf(self) -> bool {
        &&& self.metadata.wf()
        &&& self.stream.wf()
        &&& self.cursor <= self.metadata.records().len()
    }

    pub closed spec fn records(self) -> Seq<super::item_store::ItemRecord> {
        self.metadata.records()
    }

    /// The item that the search for the next parent begins at.
    pub closed spec fn cursor(self) -> int {
        self.cursor as int
    }

    /// The edges still to come.
    pub closed spec fn rest(self) -> Seq<Edge> {
        self.stream.rest()
    }

    /// The bytes that have to stand on the spool.
    pub closed spec fn image(self) -> Seq<u8> {
        self.stream.image()
    }

    /// What is left of each run on the spool, with what was read of it.
    pub closed spec fn runs(self) -> Seq<Seq<Edge>> {
        self.stream.runs()
    }

    /// The blocks that have to be supplied before the next edge can be told, in
    /// the order they are asked for.
    pub closed spec fn waits(self) -> Seq<ReadRequest> {
        self.stream.waits()
    }

    /// The run that the block to be supplied next belongs to.
    pub closed spec fn awaited_run(self) -> int {
        self.stream.awaited_run()
    }

    /// The block that has to be supplied next, if any is waited for.
    pub open spec fn awaits(self) -> Option<ReadRequest> {
        if self.waits().len() == 0 {
            None
        } else {
            Some(self.waits()[0])
        }
    }

    /// The search begins at an item, or behind the last one.
    pub proof fn lemma_cursor_in_range(self)
        requires
            self.wf(),
        ensures
            0 <= self.cursor() <= self.records().len(),
    {
    }

    /// Resolve the next edge.
    pub fn next(&mut self) -> (step: Resolved)
        requires
            old(self).wf(),
        ensures
            final(self).wf(),
            final(self).records() == old(self).records(),
            final(self).image() == old(self).image(),
            match step {
                Resolved::Pair(parent, child) => {
                    &&& old(self).awaits() is None
                    &&& old(self).rest().len() > 0
                    &&& final(self).rest() == old(self).rest().drop_first()
                    &&& final(self).cursor() == first_not_below(
                        old(self).records(),
                        old(self).cursor(),
                        old(self).rest()[0].base_offset,
                    )
                    &&& parent == final(self).cursor()
                    &&& parent < old(self).records().len()
                    &&& old(self).records()[parent as int].offset == old(
                        self,
                    ).rest()[0].base_offset
                    &&& child == old(self).rest()[0].child_idx
                },
                Resolved::Unresolved { base_offset } => {
                    &&& old(self).awaits() is None
                    &&& old(self).rest().len() > 0
                    &&& final(self).rest() == old(self).rest().drop_first()
                    &&& base_offset == old(self).rest()[0].base_offset
                    &&& final(self).cursor() == first_not_below(
                        old(self).records(),
                        old(self).cursor(),
                        base_offset,
                    )
                    &&& final(self).cursor() == old(self).records().len() || old(
                        self,
                    ).records()[final(self).cursor()].offset != base_offset
                },
                Resolved::Read(read) => {
                    &&& old(self).awaits() == Some(read)
                    &&& *final(self) == *old(self)
                    &&& read.len > 0
                    &&& read.offset + read.len <= old(self).image().len()
                },
                Resolved::Done => {
                    &&& old(self).awaits() is None
                    &&& old(self).rest().len() == 0
                    &&& final(self).rest().len() == 0
                    &&& final(self).cursor() == old(self).cursor()
                },
            },
    {
        let edge = match self.stream.try_next() {
            Step::Item(edge) => edge,
            Step::Read(read) => {
                return Resolved::Read(read);
            },
            Step::Done => {
                return Resolved::Done;
            },
        };
        let n: u32 = self.metadata.num_items();
        let ghost recs = self.metadata.records();
        let ghost from = self.cursor as int;
        while self.cursor < n && self.metadata.offset(self.cursor) < edge.base_offset
            invariant
                n == recs.len(),
                recs == self.metadata.records(),
                self.metadata.wf(),
                self.stream.wf(),
                from <= self.cursor <= n,
                first_not_below(recs, from, edge.base_offset) == first_not_below(
                    recs,
                    self.cursor as int,
                    edge.base_offset,
                ),
                self.metadata == old(self).metadata,
                self.stream.rest() == old(self).rest().drop_first(),
                self.stream.image() == old(self).image(),
            decreases n - self.cursor,
        {
            self.cursor = self.cursor + 1;
        }
        if self.cursor >= n || self.metadata.offset(self.cursor) != edge.base_offset {
            return Resolved::Unresolved { base_offset: edge.base_offset };
        }
        Resolved::Pair(self.cursor, edge.child_idx)
    }

    /// Hand over the bytes that [`Self::next`] asked for. They are waited for no
    /// longer, and the run they belong to goes on with the edges in them. If they
    /// are what was written there, the edges to come are what they were.
    pub fn supply(&mut self, bytes: &[u8])
        requires
            old(self).wf(),
            old(self).awaits() matches Some(read) && bytes@.len() == read.len,
        ensures
            final(self).wf(),
            final(self).records() == old(self).records(),
            final(self).cursor() == old(self).cursor(),
            final(self).image() == old(self).image(),
            final(self).waits() == old(self).waits().drop_first(),
            crate::sort::spill::reads_in(
                old(self).runs(),
                old(self).awaited_run(),
                bytes@,
                final(self).runs(),
            ),
            final(self).rest() == crate::sort::merge::merged(final(self).runs()),
            bytes@ == old(self).image().subrange(
                old(self).awaits()->0.offset as int,
                old(self).awaits()->0.offset + bytes@.len(),
            ) ==> final(self).rest() == old(self).rest(),
    {
        self.stream.supply(bytes)
    }
}

} // verus!
