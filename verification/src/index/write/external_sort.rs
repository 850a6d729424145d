//! Sorting the entries of a pack index by object name.
use vstd::prelude::*;

use super::IndexEntry;
use crate::budget::{MemoryBudget, OutOfBudget, Reservation};
use crate::bytes::{get_be, put_be};
use crate::object::ObjectId;
use crate::sort::chunk::probe;
use crate::sort::spill::{SortedIter, Sorter, Spill};
use crate::sort::Record;

verus! {

/// The size of an entry on the spool: 20 bytes of name, 4 of CRC32 and 8 of
/// pack offset, the numbers big-endian.
pub const SERIALIZED_ENTRY_SIZE: usize = 32;

/// The smallest run, in entries. It is used even where the budget has no room
/// for it.
pub const MIN_CHUNK_ENTRIES: usize = 64;

/// The largest run, in entries.
pub const DEFAULT_CHUNK_ENTRIES: usize = 65_536;

/// How many entries of one run are read at a time.
pub const CURSOR_BUFFER_ENTRIES: usize = 64;

/// Errors from sorting.
#[derive(Debug, Clone, Copy, PartialEq, Eq, Structural)]
pub enum Error {
    /// Reading or writing the spool failed.
    SpoolIo,
    /// The budget has no room.
    OutOfBudget(OutOfBudget),
}

impl Record for IndexEntry {
    open spec fn key(self) -> nat {
        self.id.rank()
    }

    open spec fn width() -> nat {
        32
    }

    open spec fn encoded(self) -> Seq<u8> {
        self.id.bytes@ + crate::bytes::be_bytes(self.crc32 as nat, 4) + crate::bytes::be_bytes(
            self.offset as nat,
            8,
        )
    }

    open spec fn read_ahead() -> nat {
        64
    }

    proof fn lemma_limits() {
    }

    proof fn lemma_encoded_len(self) {
        crate::bytes::lemma_be_len(self.crc32 as nat, 4);
        crate::bytes::lemma_be_len(self.offset as nat, 8);
    }

    proof fn lemma_encoded_injective(a: Self, b: Self) {
        crate::bytes::lemma_range_of();
        crate::bytes::lemma_be_roundtrip(a.crc32 as nat, 4);
        crate::bytes::lemma_be_roundtrip(b.crc32 as nat, 4);
        crate::bytes::lemma_be_roundtrip(a.offset as nat, 8);
        crate::bytes::lemma_be_roundtrip(b.offset as nat, 8);
        assert(a.encoded().subrange(0, 20) =~= a.id.bytes@);
        assert(b.encoded().subrange(0, 20) =~= b.id.bytes@);
        assert(a.encoded().subrange(20, 24) =~= crate::bytes::be_bytes(a.crc32 as nat, 4));
        assert(b.encoded().subrange(20, 24) =~= crate::bytes::be_bytes(b.crc32 as nat, 4));
        assert(a.encoded().subrange(24, 32) =~= crate::bytes::be_bytes(a.offset as nat, 8));
        assert(b.encoded().subrange(24, 32) =~= crate::bytes::be_bytes(b.offset as nat, 8));
        assert(a.id.bytes =~= b.id.bytes);
    }

    fn exec_width() -> (n: usize) {
        SERIALIZED_ENTRY_SIZE
    }

    fn exec_read_ahead() -> (n: usize) {
        CURSOR_BUFFER_ENTRIES
    }

    fn key_less(&self, other: &Self) -> (less: bool) {
        self.id.is_before(&other.id)
    }

    fn encode_into(&self, out: &mut Vec<u8>) {
        self.id.append_to(out);
        put_be(out, self.crc32 as u64, 4);
        put_be(out, self.offset, 8);
        assert(out@ =~= old(out)@ + self.encoded());
    }

    fn decode_at(bytes: &[u8], at: usize) -> (record: Self) {
        let id = ObjectId::from_bytes_at(bytes, at);
        let crc32: u64 = get_be(bytes, at + 20, 4);
        let offset: u64 = get_be(bytes, at + 24, 8);
        proof {
            let a = bytes@.subrange(at as int, at + 20);
            let b = bytes@.subrange(at + 20, at + 24);
            let c = bytes@.subrange(at + 24, at + 32);
            crate::bytes::lemma_range_of();
            crate::bytes::lemma_be_value_bound(b);
            crate::bytes::lemma_be_inverse(b);
            crate::bytes::lemma_be_inverse(c);
            assert(a + b + c =~= bytes@.subrange(at as int, at + 32));
        }
        IndexEntry { id, crc32: crc32 as u32, offset }
    }
}

/// Entries come out in the order of their names, byte by byte: of two of them,
/// either all 20 bytes agree, or the first one has the smaller byte at the first
/// place where they differ.
pub proof fn law_entries_come_out_in_name_order(
    out: Seq<IndexEntry>,
    input: Seq<IndexEntry>,
    i: int,
    j: int,
)
    requires
        crate::sort::stably_sorted(out, input),
        0 <= i <= j < out.len(),
    ensures
        (forall|k: int| 0 <= k < 20 ==> (#[trigger] out[i].id.bytes@[k]) == out[j].id.bytes@[k])
            || exists|k: int|
            {
                &&& 0 <= k < 20
                &&& #[trigger] out[i].id.bytes@[k] < out[j].id.bytes@[k]
                &&& forall|l: int|
                    0 <= l < k ==> (#[trigger] out[i].id.bytes@[l]) == out[j].id.bytes@[l]
            },
        out[i].id.bytes@[0] <= out[j].id.bytes@[0],
{
    let (a, b) = (out[i].id, out[j].id);
    assert(out[i].key() <= out[j].key());
    crate::object::law_names_are_ordered_by_bytes(a, b);
    crate::object::law_first_byte_orders(a, b);
    if a.rank() < b.rank() {
        let k = choose|k: int|
            #[trigger] crate::object::part_at(a, b, k) && a.bytes@[k] < b.bytes@[k];
        assert(out[i].id.bytes@[k] < out[j].id.bytes@[k]);
    }
}

/// The entries of one name come out in the order in which they went in, all of
/// them and no others.
pub proof fn law_entries_of_one_name_keep_their_order(
    out: Seq<IndexEntry>,
    input: Seq<IndexEntry>,
    id: ObjectId,
)
    requires
        crate::sort::stably_sorted(out, input),
    ensures
        out.filter(|e: IndexEntry| e.id.bytes@ == id.bytes@) == input.filter(
            |e: IndexEntry| e.id.bytes@ == id.bytes@,
        ),
{
    let by_name = |e: IndexEntry| e.id.bytes@ == id.bytes@;
    let k = id.rank();
    assert forall|e: IndexEntry| #[trigger] by_name(e) == (e.key() == k) by {
        if e.key() == k {
            crate::object::law_rank_names_one_object(e.id, id);
        }
    }
    crate::sort::lemma_of_key_is_filter(out, k, by_name);
    crate::sort::lemma_of_key_is_filter(input, k, by_name);
    assert(crate::sort::of_key(out, k) == crate::sort::of_key(input, k));
}

/// What an entry takes on the spool: the 20 bytes of its name, its CRC32 and its
/// offset, the numbers with their most significant byte first. Entries are read
/// back 64 at a time.
pub proof fn law_entry_on_the_spool(e: IndexEntry)
    ensures
        IndexEntry::width() == 32,
        IndexEntry::read_ahead() == 64,
        e.encoded().len() == 32,
        e.encoded().subrange(0, 20) == e.id.bytes@,
        crate::bytes::be_value(e.encoded().subrange(20, 24)) == e.crc32,
        crate::bytes::be_value(e.encoded().subrange(24, 32)) == e.offset,
{
    crate::bytes::lemma_range_of();
    crate::bytes::lemma_be_roundtrip(e.crc32 as nat, 4);
    crate::bytes::lemma_be_roundtrip(e.offset as nat, 8);
    assert(e.encoded().subrange(0, 20) =~= e.id.bytes@);
    assert(e.encoded().subrange(20, 24) =~= crate::bytes::be_bytes(e.crc32 as nat, 4));
    assert(e.encoded().subrange(24, 32) =~= crate::bytes::be_bytes(e.offset as nat, 8));
}

/// The first run takes at most half of what is unused and leaves no entry out
/// that half of it has room for, but has never fewer than 64 entries nor more
/// than 65536.
pub proof fn law_run_takes_half_of_what_is_unused(unused: nat)
    ensures
        64 <= initial_target(unused) <= 65_536,
        initial_target(unused) > 64 ==> 64 * initial_target(unused) <= unused,
        initial_target(unused) < 65_536 ==> unused < 64 * initial_target(unused) + 64,
{
    let half = unused / 2 / 32;
    assert(64 * half <= unused < 64 * half + 64);
}

/// The run size to start with where `unused` bytes of a budget are unused: as
/// many entries as half of them hold, within bounds.
pub open spec fn initial_target(unused: nat) -> nat {
    let half = unused / 2 / 32;
    if half < 64 {
        64
    } else if half > 65_536 {
        65_536
    } else {
        half
    }
}

/// The run size to start with where `unused` bytes of a budget are unused.
pub fn chunk_for(unused: u64) -> (n: usize)
    ensures
        n == initial_target(unused as nat),
{
    let half: u64 = unused / 2 / 32;
    if half < 64 {
        MIN_CHUNK_ENTRIES
    } else if half > 65_536 {
        DEFAULT_CHUNK_ENTRIES
    } else {
        half as usize
    }
}

/// Ends a reservation.
fn let_go(_reservation: Reservation) {
}

/// Sorts index entries by object name within a memory budget.
pub struct ExternalSorter {
    sorter: Sorter<IndexEntry>,
    /// What the run in memory was granted: nothing, if there was no room for it.
    _chunk_reservation: Reservation,
}

/// The budget refused the bytes of that many entries, for what was reserved at
/// some moment.
pub open spec fn is_refusal(budget: MemoryBudget, refused: OutOfBudget, entries: nat) -> bool {
    &&& refused.requested == entries * 32
    &&& exists|current: u64|
        !(#[trigger] crate::budget::grants(budget.limit(), current, refused.requested))
            && refused.available == crate::budget::spare(budget.limit(), current)
}

/// `r` is what may come of sizing runs by what is unused of the budget.
pub open spec fn is_sized_for(
    r: Result<ExternalSorter, Error>,
    budget: MemoryBudget,
    unused: nat,
) -> bool {
    exists|refusals: nat|
        {
            let target = #[trigger] crate::sort::chunk::target_after(
                initial_target(unused),
                64,
                refusals,
            );
            match r {
                Ok(sorter) => {
                    &&& sorter.is_new()
                    &&& sorter.capacity() == target
                    &&& sorter.reservation().is_of(budget)
                    &&& sorter.reservation().held() == target * 32
                        || sorter.reservation().held() == 0 && target == 64
                    &&& sorter.reservation().held() <= budget.limit()
                    &&& budget.limit() < 2048 ==> sorter.reservation().held() == 0 && target == 64
                },
                Err(e) => e matches Error::OutOfBudget(refused) && is_refusal(
                    budget,
                    refused,
                    target,
                ),
            }
        }
}

/// An unlimited budget has room for the largest runs until nearly all that a
/// `u64` counts is reserved, and these are what is asked for.
pub proof fn law_unlimited_gives_the_largest_runs(current: u64)
    requires
        current <= u64::MAX - 4_194_304,
    ensures
        initial_target(crate::budget::spare(u64::MAX, current)) == 65_536,
        crate::budget::grants(u64::MAX, current, 2_097_152),
{
}

impl ExternalSorter {
    pub closed spec fn wf(self) -> bool {
        self.sorter.wf()
    }

    /// Everything pushed so far, in the order in which it was pushed.
    pub closed spec fn pushed(self) -> Seq<IndexEntry> {
        self.sorter.pushed()
    }

    /// The entries held in memory, in the order in which they were pushed.
    pub closed spec fn chunk(self) -> Seq<IndexEntry> {
        self.sorter.chunk()
    }

    /// How many entries make a run.
    pub closed spec fn capacity(self) -> nat {
        self.sorter.capacity()
    }

    /// The bytes handed out to be written so far.
    pub closed spec fn image(self) -> Seq<u8> {
        self.sorter.image()
    }

    /// Nothing was pushed yet.
    pub open spec fn is_new(self) -> bool {
        &&& self.wf()
        &&& self.pushed() == Seq::<IndexEntry>::empty()
        &&& self.chunk() == Seq::<IndexEntry>::empty()
        &&& self.image() == Seq::<u8>::empty()
    }

    /// The bytes accounted for the run in memory.
    pub closed spec fn reservation(self) -> Reservation {
        self._chunk_reservation
    }

    /// The spool can take the entries in memory and one more.
    pub open spec fn has_room(self) -> bool {
        self.image().len() + (self.chunk().len() + 1) * 32 <= u64::MAX
    }

    /// An empty sorter with runs of `chunk_capacity` entries, for which
    /// `reservation` was granted.
    pub fn with_run(chunk_capacity: usize, reservation: Reservation) -> (sorter: Self)
        requires
            chunk_capacity > 0,
        ensures
            sorter.is_new(),
            sorter.capacity() == chunk_capacity,
            sorter.reservation() == reservation,
    {
        ExternalSorter { sorter: Sorter::new(chunk_capacity), _chunk_reservation: reservation }
    }

    /// A sorter with runs of `chunk_capacity` entries after `answer` came back
    /// from the budget for them.
    pub fn with_answer(chunk_capacity: usize, answer: Result<Reservation, OutOfBudget>) -> (r:
        Result<Self, Error>)
        requires
            64 <= chunk_capacity,
        ensures
            match answer {
                Ok(granted) => {
                    &&& r matches Ok(sorter)
                    &&& sorter.is_new()
                    &&& sorter.capacity() == chunk_capacity
                    &&& sorter.reservation() == granted
                },
                Err(refused) => r matches Err(e) && e == Error::OutOfBudget(refused),
            },
    {
        match answer {
            Ok(reservation) => Ok(Self::with_run(chunk_capacity, reservation)),
            Err(refused) => Err(Error::OutOfBudget(refused)),
        }
    }

    /// A sorter with runs of `chunk_capacity` entries, all accounted for. What
    /// the budget answers decides, as [`with_answer`](Self::with_answer) has it.
    fn with_capacity(budget: &MemoryBudget, chunk_capacity: usize) -> (r: Result<Self, Error>)
        requires
            64 <= chunk_capacity,
            chunk_capacity * 32 <= usize::MAX,
        ensures
            match r {
                Ok(sorter) => {
                    &&& sorter.is_new()
                    &&& sorter.capacity() == chunk_capacity
                    &&& sorter.reservation().is_of(*budget)
                    &&& sorter.reservation().held() == chunk_capacity * 32
                    &&& chunk_capacity * 32 <= budget.limit()
                },
                Err(e) => e matches Error::OutOfBudget(refused) && is_refusal(
                    *budget,
                    refused,
                    chunk_capacity as nat,
                ),
            },
    {
        Self::with_answer(chunk_capacity, budget.reserve(chunk_capacity * SERIALIZED_ENTRY_SIZE))
    }

    /// A sorter with runs that take half of what is unused of the budget, within
    /// bounds, and half as much while the budget has no room for that. If there
    /// is no room even for [`MIN_CHUNK_ENTRIES`], that size is used without being
    /// accounted for.
    ///
    /// A refusal is returned only where room was found and then lost to
    /// another user of the budget.
    pub fn with_budget(budget: &MemoryBudget) -> (r: Result<Self, Error>)
        ensures
            exists|current: u64| #[trigger]
                is_sized_for(r, *budget, crate::budget::spare(budget.limit(), current)),
            budget.limit() < 2048 ==> r is Ok,
    {
        let unused: u64 = budget.available();
        proof {
            let current = choose|current: u64|
                unused == #[trigger] crate::budget::spare(budget.limit(), current);
            assert(unused == crate::budget::spare(budget.limit(), current));
        }
        Self::with_unused(budget, unused)
    }

    /// Like [`with_budget`](Self::with_budget), where `unused` bytes of the
    /// budget were found unused. The answers of the budget are gone by as
    /// [`settle`](crate::sort::chunk::settle) and
    /// [`with_answer`](Self::with_answer) have it.
    pub fn with_unused(budget: &MemoryBudget, unused: u64) -> (r: Result<Self, Error>)
        ensures
            is_sized_for(r, *budget, unused as nat),
            budget.limit() < 2048 ==> r is Ok,
    {
        let initial: usize = chunk_for(unused);
        let (target, granted) = probe(budget, initial, MIN_CHUNK_ENTRIES, SERIALIZED_ENTRY_SIZE);
        proof {
            let refusals = choose|refusals: nat|
                target == #[trigger] crate::sort::chunk::target_after(
                    initial as nat,
                    MIN_CHUNK_ENTRIES as nat,
                    refusals,
                );
            assert(target == crate::sort::chunk::target_after(
                initial_target(unused as nat),
                64,
                refusals,
            ));
        }
        match granted {
            Some(reservation) => {
                let_go(reservation);
                Self::with_capacity(budget, target)
            },
            None => Ok(Self::with_run(MIN_CHUNK_ENTRIES, budget.reserve_nothing())),
        }
    }

    /// How many entries make a run.
    pub fn chunk_capacity(&self) -> (n: usize)
        ensures
            n == self.capacity(),
    {
        self.sorter.chunk_capacity()
    }

    /// How many bytes were handed out to be written so far.
    pub fn bytes_written(&self) -> (n: u64)
        requires
            self.wf(),
        ensures
            n == self.image().len(),
    {
        self.sorter.bytes_written()
    }

    /// Record one entry. If that fills the run in memory, its bytes are handed
    /// out to be written.
    pub fn push(&mut self, entry: IndexEntry) -> (spill: Option<Spill>)
        requires
            old(self).wf(),
            old(self).has_room(),
        ensures
            final(self).wf(),
            final(self).pushed() == old(self).pushed().push(entry),
            final(self).capacity() == old(self).capacity(),
            final(self).reservation() == old(self).reservation(),
            match spill {
                None => {
                    &&& old(self).chunk().len() + 1 < old(self).capacity()
                    &&& final(self).chunk() == old(self).chunk().push(entry)
                    &&& final(self).image() == old(self).image()
                },
                Some(s) => {
                    &&& old(self).chunk().len() + 1 == old(self).capacity()
                    &&& final(self).chunk() == Seq::<IndexEntry>::empty()
                    &&& crate::sort::spill::is_spill_of(
                        s,
                        old(self).chunk().push(entry),
                        old(self).image(),
                        final(self).image(),
                    )
                },
            },
    {
        self.sorter.push(entry)
    }

    /// All entries in ascending order of their names. If a run was spilled
    /// before, what is still in memory is handed out to be written too, and a
    /// block of each run is waited for. If none was, the spool is not touched, now
    /// or later.
    pub fn finish(self) -> (r: (Option<Spill>, SortedIter<IndexEntry>))
        requires
            self.wf(),
            self.has_room(),
        ensures
            r.1.wf(),
            crate::sort::stably_sorted(r.1.rest(), self.pushed()),
            r.0 is Some <==> self.image().len() > 0 && self.chunk().len() > 0,
            match r.0 {
                None => r.1.image() == self.image(),
                Some(s) => crate::sort::spill::is_spill_of(
                    s,
                    self.chunk(),
                    self.image(),
                    r.1.image(),
                ),
            },
            self.image().len() == 0 ==> r.1.waits().len() == 0,
            self.image().len() > 0 ==> r.1.waits().len() == r.1.runs().len() > 0,
            forall|k: int|
                0 <= k < r.1.waits().len() ==> (#[trigger] r.1.waits()[k]).len > 0,
    {
        self.sorter.finish()
    }
}

/// A run is accounted for with 32 bytes an entry, or not at all, which only the
/// smallest run is. A refusal names what was asked for, again 32 bytes an entry,
/// and less than that as what was available.
pub proof fn law_run_is_accounted_by_entry(
    r: Result<ExternalSorter, Error>,
    budget: MemoryBudget,
    unused: nat,
)
    requires
        is_sized_for(r, budget, unused),
    ensures
        r matches Ok(sorter) ==> {
            &&& 64 <= sorter.capacity() <= 65_536
            &&& sorter.capacity() > 64 ==> 64 * sorter.capacity() <= unused
            &&& sorter.reservation().held() > 0 ==> sorter.reservation().held() == 32
                * sorter.capacity()
            &&& sorter.reservation().held() == 0 ==> sorter.capacity() == 64
            &&& sorter.reservation().held() <= budget.limit()
        },
        r matches Err(e) ==> e matches Error::OutOfBudget(refused) && refused.available
            < refused.requested && refused.requested % 32 == 0 && refused.requested >= 32 * 64,
{
    let refusals = choose|refusals: nat|
        {
            let target = #[trigger] crate::sort::chunk::target_after(
                initial_target(unused),
                64,
                refusals,
            );
            match r {
                Ok(sorter) => {
                    &&& sorter.is_new()
                    &&& sorter.capacity() == target
                    &&& sorter.reservation().is_of(budget)
                    &&& sorter.reservation().held() == target * 32
                        || sorter.reservation().held() == 0 && target == 64
                    &&& sorter.reservation().held() <= budget.limit()
                    &&& budget.limit() < 2048 ==> sorter.reservation().held() == 0 && target == 64
                },
                Err(e) => e matches Error::OutOfBudget(refused) && is_refusal(
                    budget,
                    refused,
                    target,
                ),
            }
        };
    law_run_takes_half_of_what_is_unused(unused);
    crate::sort::chunk::law_targets_shrink_step_by_step(initial_target(unused), 64, refusals);
}

} // verus!
