//! A cache of a fixed number of entries, searched one after the other.
use vstd::prelude::*;

use crate::budget::{MemoryBudget, OutOfBudget, Reservation};
use crate::cache::{set_vec_to_slice, DecodeEntry};
use crate::object::Kind;

verus! {

/// The limit on held memory of a list made by default: 96 MiB.
pub const DEFAULT_MEM_LIMIT: usize = 100_663_296;

/// A decoded entry.
pub struct Entry {
    pub pack_id: u32,
    pub offset: u64,
    pub data: Vec<u8>,
    pub kind: Kind,
    pub compressed_size: usize,
    /// Accounts for the bytes of `data` until the entry is dropped.
    pub reservation: Reservation,
    /// The bytes that were allocated for `data`.
    pub allocated: usize,
}

/// `Vec::capacity`: at least the length. A vector never allocates more than
/// `isize::MAX` bytes.
#[verifier::external_body]
fn capacity_of(buffer: &Vec<u8>) -> (n: usize)
    ensures
        buffer@.len() <= n <= isize::MAX,
{
    buffer.capacity()
}

/// The memory allocated for all entries together.
pub open spec fn total_allocated(entries: Seq<Entry>) -> nat
    decreases entries.len(),
{
    if entries.len() == 0 {
        0
    } else {
        total_allocated(entries.drop_last()) + entries.last().allocated as nat
    }
}

/// The bytes of data in all entries together.
pub open spec fn total_held(entries: Seq<Entry>) -> nat
    decreases entries.len(),
{
    if entries.len() == 0 {
        0
    } else {
        total_held(entries.drop_last()) + entries.last().reservation.held()
    }
}

/// The entry was decoded from the offset in the pack.
pub open spec fn is_at(entry: Entry, pack_id: u32, offset: u64) -> bool {
    entry.pack_id == pack_id && entry.offset == offset
}

/// The entries with a new one in front, of which at most `size` are kept.
pub open spec fn pushed(entries: Seq<Entry>, entry: Entry, size: nat) -> Seq<Entry> {
    if entries.len() < size {
        seq![entry] + entries
    } else {
        seq![entry] + entries.drop_last()
    }
}

/// The entries with the one at `i` moved to the front.
pub open spec fn touched(entries: Seq<Entry>, i: int) -> Seq<Entry> {
    seq![entries[i]] + entries.remove(i)
}

proof fn lemma_total_allocated_cons(entry: Entry, entries: Seq<Entry>)
    ensures
        total_allocated(seq![entry] + entries) == entry.allocated + total_allocated(entries),
    decreases entries.len(),
{
    let all = seq![entry] + entries;
    if entries.len() == 0 {
        assert(all.drop_last() =~= Seq::<Entry>::empty());
        reveal_with_fuel(total_allocated, 2);
    } else {
        lemma_total_allocated_cons(entry, entries.drop_last());
        assert(all.drop_last() =~= seq![entry] + entries.drop_last());
    }
}

proof fn lemma_total_held_cons(entry: Entry, entries: Seq<Entry>)
    ensures
        total_held(seq![entry] + entries) == entry.reservation.held() + total_held(entries),
    decreases entries.len(),
{
    let all = seq![entry] + entries;
    if entries.len() == 0 {
        assert(all.drop_last() =~= Seq::<Entry>::empty());
        reveal_with_fuel(total_held, 2);
    } else {
        lemma_total_held_cons(entry, entries.drop_last());
        assert(all.drop_last() =~= seq![entry] + entries.drop_last());
    }
}

proof fn lemma_total_allocated_remove(entries: Seq<Entry>, i: int)
    requires
        0 <= i < entries.len(),
    ensures
        total_allocated(entries) == entries[i].allocated + total_allocated(entries.remove(i)),
    decreases entries.len(),
{
    let init = entries.drop_last();
    if i == entries.len() - 1 {
        assert(entries.remove(i) =~= init);
    } else {
        lemma_total_allocated_remove(init, i);
        assert(entries.remove(i).drop_last() =~= init.remove(i));
    }
}

/// What comes of an entry that was asked for.
pub enum Lookup {
    /// Its data was handed out: the kind and the compressed size.
    Found(Kind, usize),
    /// Its data could not be copied: the search goes on at this place.
    GoOn(usize),
}

/// A cache using a least-recently-used implementation capable of storing the
/// `SIZE` most recent objects. The cache must be small as the search goes
/// through the entries one by one.
pub struct StaticLinkedList<const SIZE: usize> {
    /// The entries, the latest used first.
    inner: Vec<Entry>,
    /// The buffer of the entry that went last, to use again.
    last_evicted: Vec<u8>,
    /// The bytes that were allocated for `last_evicted`.
    last_allocated: usize,
    /// The bytes that are held, going by what was allocated.
    mem_used: usize,
    /// The limit on the bytes that are held.
    mem_limit: usize,
    budget: MemoryBudget,
}

impl<const SIZE: usize> StaticLinkedList<SIZE> {
    /// The entries, the latest used first.
    pub closed spec fn entries(&self) -> Seq<Entry> {
        self.inner@
    }

    /// The length of the buffer that is kept to be used again.
    pub closed spec fn num_spare_bytes(&self) -> nat {
        self.last_evicted@.len()
    }

    /// What was allocated for the buffer that is kept to be used again.
    pub closed spec fn spare_allocated(&self) -> nat {
        self.last_allocated as nat
    }

    /// The bytes that are held.
    pub closed spec fn used(&self) -> nat {
        self.mem_used as nat
    }

    /// The limit on the bytes that are held.
    pub closed spec fn limit(&self) -> nat {
        self.mem_limit as nat
    }

    /// The budget that entries are accounted for in.
    pub closed spec fn shared_budget(&self) -> MemoryBudget {
        self.budget
    }

    /// Whether all entries have to go to make room for data of the length: more
    /// is held than may be, or not even giving up the spare buffer is enough.
    pub open spec fn must_clear(&self, len: nat) -> bool {
        self.used() > self.limit() || len + self.used() > self.limit() + self.num_spare_bytes()
    }

    /// The entries that stay when data of the length is to be put in.
    pub open spec fn kept(&self, len: nat) -> Seq<Entry> {
        if self.must_clear(len) {
            Seq::empty()
        } else {
            self.entries()
        }
    }

    /// The bytes that are held once there is room for data of the length, and
    /// the spare buffer was taken or given up.
    pub open spec fn used_by_kept(&self, len: nat) -> int {
        if self.must_clear(len) {
            0
        } else {
            self.used() - self.spare_allocated()
        }
    }

    /// There is room in `after` for data of the length, and nothing else changed.
    pub open spec fn after_making_room(&self, after: &Self, len: nat) -> bool {
        &&& after.limit() == self.limit()
        &&& after.shared_budget() == self.shared_budget()
        &&& after.entries() == self.kept(len)
        &&& after.used() == self.used_by_kept(len)
        &&& after.num_spare_bytes() == 0
        &&& after.spare_allocated() == 0
    }

    /// Room was made for an entry, and it is there and the latest used. If the
    /// list was full, the entry used longest ago went, and its buffer is spare.
    pub open spec fn after_keeping(
        &self,
        after: &Self,
        pack_id: u32,
        offset: u64,
        data: Seq<u8>,
        kind: Kind,
        compressed_size: usize,
        reservation: Reservation,
    ) -> bool {
        let kept = self.kept(data.len());
        let entry = after.entries()[0];
        &&& after.limit() == self.limit()
        &&& after.shared_budget() == self.shared_budget()
        &&& after.entries().len() > 0
        &&& is_at(entry, pack_id, offset)
        &&& entry.data@ == data
        &&& entry.kind == kind
        &&& entry.compressed_size == compressed_size
        &&& entry.reservation == reservation
        &&& entry.allocated >= data.len()
        &&& after.entries() == pushed(kept, entry, SIZE as nat)
        &&& after.used() == self.used_by_kept(data.len()) + entry.allocated
        &&& after.num_spare_bytes() == if kept.len() < SIZE {
            0
        } else {
            kept.last().data@.len()
        }
        &&& after.spare_allocated() == if kept.len() < SIZE {
            0
        } else {
            kept.last().allocated as nat
        }
    }

    /// Create a new list with a memory limit of `mem_limit` in bytes. If 0,
    /// there is no memory limit.
    pub fn new(mem_limit: usize) -> (list: Self)
        ensures
            list.wf(),
            list.entries() == Seq::<Entry>::empty(),
            list.limit() == if mem_limit == 0 {
                usize::MAX
            } else {
                mem_limit
            },
            list.used() == 0,
            list.num_spare_bytes() == 0,
            list.shared_budget().limit() == u64::MAX,
    {
        Self::with_memory_budget(mem_limit, MemoryBudget::unlimited())
    }

    /// Like [`new`](Self::new), with every entry accounted for in `budget` as
    /// well. An entry that `budget` has no room for is not kept.
    pub fn with_memory_budget(mem_limit: usize, budget: MemoryBudget) -> (list: Self)
        ensures
            list.wf(),
            list.entries() == Seq::<Entry>::empty(),
            list.limit() == if mem_limit == 0 {
                usize::MAX
            } else {
                mem_limit
            },
            list.used() == 0,
            list.num_spare_bytes() == 0,
            list.shared_budget() == budget,
    {
        StaticLinkedList {
            inner: Vec::new(),
            last_evicted: Vec::new(),
            last_allocated: 0,
            mem_used: 0,
            mem_limit: if mem_limit == 0 {
                usize::MAX
            } else {
                mem_limit
            },
            budget,
        }
    }

    /// The limit on the bytes that are held.
    pub fn mem_limit(&self) -> (n: usize)
        ensures
            n == self.limit(),
    {
        self.mem_limit
    }

    /// The bytes that are held, going by what was allocated.
    pub fn mem_used(&self) -> (n: usize)
        ensures
            n == self.used(),
    {
        self.mem_used
    }

    /// How many entries there are.
    pub fn num_entries(&self) -> (n: usize)
        ensures
            n == self.entries().len(),
    {
        self.inner.len()
    }

    /// The length of the buffer that is kept to be used again.
    pub fn last_evicted_len(&self) -> (n: usize)
        ensures
            n == self.num_spare_bytes(),
    {
        self.last_evicted.len()
    }

    /// Make room for data of the length, and take the spare buffer. The spare
    /// buffer is given up for room before entries are.
    fn make_room(&mut self, len: usize) -> (buffer: Vec<u8>)
        requires
            old(self).wf(),
        ensures
            final(self).wf(),
            old(self).after_making_room(final(self), len as nat),
    {
        let mut must_clear: bool = self.mem_used > self.mem_limit;
        if !must_clear {
            let mem_free: usize = self.mem_limit - self.mem_used;
            if len > mem_free {
                must_clear = len > mem_free + self.last_evicted.len();
                self.last_evicted = Vec::new();
            }
        }
        if must_clear {
            self.inner.clear();
            self.last_evicted = Vec::new();
            self.mem_used = 0;
        } else {
            self.mem_used = self.mem_used - self.last_allocated;
        }
        self.last_allocated = 0;
        let mut buffer: Vec<u8> = Vec::new();
        core::mem::swap(&mut buffer, &mut self.last_evicted);
        buffer
    }

    /// Put in an entry after `answer` came back from the budget for its bytes.
    ///
    /// The entry is kept if the bytes were granted and are within the limit, with
    /// room made for it. Otherwise nothing changes.
    pub fn put_reserved(
        &mut self,
        pack_id: u32,
        offset: u64,
        data: Vec<u8>,
        kind: Kind,
        compressed_size: usize,
        answer: Result<Reservation, OutOfBudget>,
    )
        requires
            old(self).wf(),
            old(self).can_count(data@.len()),
            answer matches Ok(granted) ==> granted.held() == data@.len() && granted.is_of(
                old(self).shared_budget(),
            ),
        ensures
            final(self).wf(),
            match answer {
                Ok(granted) if data@.len() <= old(self).limit() => old(self).after_keeping(
                    final(self),
                    pack_id,
                    offset,
                    data@,
                    kind,
                    compressed_size,
                    granted,
                ),
                _ => *final(self) == *old(self),
            },
    {
        let reservation = match answer {
            Ok(reservation) => reservation,
            Err(_) => {
                return;
            },
        };
        if data.len() > self.mem_limit {
            return;
        }
        self.make_room(data.len());
        let allocated: usize = capacity_of(&data);
        self.mem_used = self.mem_used + allocated;
        let entry: Entry = Entry {
            pack_id,
            offset,
            data,
            kind,
            compressed_size,
            reservation,
            allocated,
        };
        let ghost kept = self.inner@;
        proof {
            lemma_total_allocated_cons(entry, kept);
            if kept.len() > 0 {
                lemma_total_allocated_cons(entry, kept.drop_last());
            }
        }
        if self.inner.len() >= SIZE {
            if let Some(previous) = self.inner.pop() {
                self.last_evicted = previous.data;
                self.last_allocated = previous.allocated;
            }
        }
        self.inner.insert(0, entry);
        assert(self.inner@ =~= pushed(kept, entry, SIZE as nat));
    }

    /// The place of the first entry from the offset, at or behind the place
    /// `start`.
    pub fn first_at(&self, pack_id: u32, offset: u64, start: usize) -> (place: Option<usize>)
        ensures
            match place {
                Some(i) => {
                    &&& start <= i < self.entries().len()
                    &&& is_at(self.entries()[i as int], pack_id, offset)
                    &&& forall|j: int|
                        start <= j < i ==> !is_at(#[trigger] self.entries()[j], pack_id, offset)
                },
                None => forall|j: int|
                    start <= j < self.entries().len() ==> !is_at(
                        #[trigger] self.entries()[j],
                        pack_id,
                        offset,
                    ),
            },
    {
        let mut i: usize = start;
        while i < self.inner.len()
            invariant
                start <= i,
                forall|j: int|
                    start <= j < i && j < self.entries().len() ==> !is_at(
                        #[trigger] self.entries()[j],
                        pack_id,
                        offset,
                    ),
            decreases self.inner@.len() - i,
        {
            if self.inner[i].pack_id == pack_id && self.inner[i].offset == offset {
                return Some(i);
            }
            i = i + 1;
        }
        None
    }

    /// Every entry from the offset before place `end` has data, for which there
    /// may be no memory.
    pub open spec fn need_memory(&self, pack_id: u32, offset: u64, end: int) -> bool {
        forall|j: int|
            0 <= j < end && is_at(#[trigger] self.entries()[j], pack_id, offset)
                ==> self.entries()[j].data@.len() > 0
    }

    /// What comes of the entry at `i`, which is the one that was asked for: if its
    /// data was `copied`, it is the answer and becomes the latest used, else the
    /// search goes on behind it.
    pub fn settle(&mut self, i: usize, copied: bool) -> (step: Lookup)
        requires
            old(self).wf(),
            i < old(self).entries().len(),
        ensures
            final(self).wf(),
            match step {
                Lookup::Found(kind, compressed_size) => {
                    &&& copied
                    &&& kind == old(self).entries()[i as int].kind
                    &&& compressed_size == old(self).entries()[i as int].compressed_size
                    &&& final(self).entries() == touched(old(self).entries(), i as int)
                    &&& final(self).used() == old(self).used()
                    &&& final(self).limit() == old(self).limit()
                    &&& final(self).num_spare_bytes() == old(self).num_spare_bytes()
                    &&& final(self).spare_allocated() == old(self).spare_allocated()
                    &&& final(self).shared_budget() == old(self).shared_budget()
                },
                Lookup::GoOn(next) => !copied && next == i + 1 && *final(self) == *old(self),
            },
    {
        if !copied {
            return Lookup::GoOn(i + 1);
        }
        let kind: Kind = self.inner[i].kind;
        let compressed_size: usize = self.inner[i].compressed_size;
        self.touch(i);
        Lookup::Found(kind, compressed_size)
    }

    /// Move the entry at `i` to the front.
    fn touch(&mut self, i: usize)
        requires
            old(self).wf(),
            i < old(self).entries().len(),
        ensures
            final(self).wf(),
            final(self).entries() == touched(old(self).entries(), i as int),
            final(self).used() == old(self).used(),
            final(self).limit() == old(self).limit(),
            final(self).num_spare_bytes() == old(self).num_spare_bytes(),
            final(self).spare_allocated() == old(self).spare_allocated(),
            final(self).shared_budget() == old(self).shared_budget(),
    {
        let ghost before = self.inner@;
        proof {
            lemma_total_allocated_remove(before, i as int);
            lemma_total_allocated_cons(before[i as int], before.remove(i as int));
        }
        let entry: Entry = self.inner.remove(i);
        self.inner.insert(0, entry);
        assert(self.inner@ =~= touched(before, i as int));
    }
}

impl<const SIZE: usize> DecodeEntry for StaticLinkedList<SIZE> {
    /// There are at most `SIZE` entries, what was allocated for them and for
    /// the spare buffer is counted, and the bytes of each entry are held in the
    /// budget.
    closed spec fn wf(&self) -> bool {
        &&& self.inner@.len() <= SIZE
        &&& self.last_evicted@.len() <= self.last_allocated
        &&& total_allocated(self.inner@) + self.last_allocated == self.mem_used
        &&& forall|i: int|
            0 <= i < self.inner@.len() ==> {
                &&& (#[trigger] self.inner@[i]).data@.len() <= self.inner@[i].allocated
                &&& self.inner@[i].reservation.held() == self.inner@[i].data@.len()
                &&& self.inner@[i].reservation.is_of(self.budget)
            }
    }

    open spec fn can_count(&self, len: nat) -> bool {
        len > self.limit() || SIZE > 0 && self.used() <= isize::MAX
    }

    /// Nothing changes if the entry is too large for the cache or for the
    /// budget. Otherwise room is made, and unless the machine had no memory for
    /// it, the entry is there and the latest used, as [`put_reserved`] has it. An
    /// entry without data takes no memory, so it is always there.
    ///
    /// [`put_reserved`]: Self::put_reserved
    open spec fn after_put(
        &self,
        after: &Self,
        pack_id: u32,
        offset: u64,
        data: Seq<u8>,
        kind: Kind,
        compressed_size: usize,
    ) -> bool {
        ||| data.len() > 0 && *after == *self
        ||| {
            &&& 0 < data.len() <= self.limit()
            &&& data.len() <= self.shared_budget().limit()
            &&& self.after_making_room(after, data.len())
        }
        ||| {
            &&& data.len() <= self.limit()
            &&& data.len() <= self.shared_budget().limit()
            &&& exists|reservation: Reservation| #[trigger]
                self.after_keeping(
                    after,
                    pack_id,
                    offset,
                    data,
                    kind,
                    compressed_size,
                    reservation,
                ) && reservation.held() == data.len() && reservation.is_of(self.shared_budget())
        }
    }

    /// The data of an entry from the offset is handed out and the entry becomes
    /// the latest used. It is the first that [`first_at`](Self::first_at) finds,
    /// or the next one where the machine had no memory for the data of that, as
    /// [`settle`](Self::settle) has it. An entry without data takes no memory, so
    /// none of those is passed over.
    open spec fn after_get(
        &self,
        after: &Self,
        pack_id: u32,
        offset: u64,
        before_out: Seq<u8>,
        after_out: Seq<u8>,
        answer: Option<(Kind, usize)>,
    ) -> bool {
        match answer {
            Some((kind, compressed_size)) => {
                &&& after.used() == self.used()
                &&& after.limit() == self.limit()
                &&& after.num_spare_bytes() == self.num_spare_bytes()
                &&& after.spare_allocated() == self.spare_allocated()
                &&& after.shared_budget() == self.shared_budget()
                &&& exists|i: int|
                    {
                        &&& 0 <= i < self.entries().len()
                        &&& is_at(self.entries()[i], pack_id, offset)
                        &&& kind == self.entries()[i].kind
                        &&& compressed_size == self.entries()[i].compressed_size
                        &&& after_out == self.entries()[i].data@
                        &&& after.entries() == #[trigger] touched(self.entries(), i)
                        &&& self.need_memory(pack_id, offset, i)
                    }
            },
            None => {
                &&& *after == *self
                &&& self.need_memory(pack_id, offset, self.entries().len() as int)
                &&& after_out == if (exists|i: int|
                    0 <= i < self.entries().len() && is_at(
                        #[trigger] self.entries()[i],
                        pack_id,
                        offset,
                    )) {
                    Seq::<u8>::empty()
                } else {
                    before_out
                }
            },
        }
    }

    fn accepts(&self, len: usize) -> (r: bool) {
        len > self.mem_limit || SIZE > 0 && self.mem_used <= isize::MAX as usize
    }

    fn put(&mut self, pack_id: u32, offset: u64, data: &[u8], kind: Kind, compressed_size: usize) {
        if data.len() > self.mem_limit {
            return;
        }
        match self.budget.reserve(data.len()) {
            Ok(reservation) => {
                let mut buffer: Vec<u8> = self.make_room(data.len());
                if set_vec_to_slice(&mut buffer, data).is_none() {
                    return;
                }
                self.put_reserved(
                    pack_id,
                    offset,
                    buffer,
                    kind,
                    compressed_size,
                    Ok(reservation),
                );
                assert(old(self).after_keeping(
                    self,
                    pack_id,
                    offset,
                    data@,
                    kind,
                    compressed_size,
                    reservation,
                ));
            },
            Err(_) => {},
        }
    }

    fn get(&mut self, pack_id: u32, offset: u64, out: &mut Vec<u8>) -> (answer: Option<
        (Kind, usize),
    >) {
        let mut start: usize = 0;
        loop
            invariant
                start <= self.inner@.len(),
                *self == *old(self),
                self.wf(),
                self.need_memory(pack_id, offset, start as int),
                out@ == if (exists|j: int|
                    0 <= j < start && is_at(#[trigger] self.entries()[j], pack_id, offset)) {
                    Seq::<u8>::empty()
                } else {
                    old(out)@
                },
            decreases self.inner@.len() - start,
        {
            match self.first_at(pack_id, offset, start) {
                None => {
                    return None;
                },
                Some(i) => {
                    let copied: bool = set_vec_to_slice(out, &self.inner[i].data).is_some();
                    match self.settle(i, copied) {
                        Lookup::Found(kind, compressed_size) => {
                            return Some((kind, compressed_size));
                        },
                        Lookup::GoOn(next) => {
                            start = next;
                        },
                    }
                },
            }
        }
    }
}

impl<const SIZE: usize> Default for StaticLinkedList<SIZE> {
    /// A list with a memory limit of 96 MiB.
    fn default() -> (list: Self)
        ensures
            list.wf(),
            list.entries() == Seq::<Entry>::empty(),
            list.limit() == DEFAULT_MEM_LIMIT,
            list.limit() == 96 * 1024 * 1024,
            list.used() == 0,
            list.num_spare_bytes() == 0,
            list.shared_budget().limit() == u64::MAX,
    {
        Self::new(DEFAULT_MEM_LIMIT)
    }
}

/// A list never has more entries than it is made for, it counts all that was
/// allocated for them, and the budget accounts for the data of each.
pub proof fn law_entries_are_accounted_for<const SIZE: usize>(list: StaticLinkedList<SIZE>)
    requires
        list.wf(),
    ensures
        list.entries().len() <= SIZE,
        total_allocated(list.entries()) + list.spare_allocated() == list.used(),
        forall|i: int|
            0 <= i < list.entries().len() ==> {
                &&& (#[trigger] list.entries()[i]).reservation.held()
                    == list.entries()[i].data@.len()
                &&& list.entries()[i].reservation.is_of(list.shared_budget())
            },
{
}

/// What the list holds in the budget after an entry was kept: the bytes of the
/// entry and of those that stayed, without those of the one that went because the
/// list was full.
pub proof fn law_evicted_entries_release_their_bytes<const SIZE: usize>(
    before: StaticLinkedList<SIZE>,
    after: StaticLinkedList<SIZE>,
    pack_id: u32,
    offset: u64,
    data: Seq<u8>,
    kind: Kind,
    compressed_size: usize,
    reservation: Reservation,
)
    requires
        SIZE > 0,
        reservation.held() == data.len(),
        before.after_keeping(
            &after,
            pack_id,
            offset,
            data,
            kind,
            compressed_size,
            reservation,
        ),
    ensures
        ({
            let kept = before.kept(data.len());
            total_held(after.entries()) == data.len() + if kept.len() < SIZE {
                total_held(kept)
            } else {
                total_held(kept.drop_last())
            }
        }),
{
    let kept = before.kept(data.len());
    let entry = after.entries()[0];
    lemma_total_held_cons(entry, kept);
    lemma_total_held_cons(entry, kept.drop_last());
}

/// What was put in last is found first.
pub proof fn law_latest_is_found_first(
    entries: Seq<Entry>,
    entry: Entry,
    size: nat,
)
    requires
        0 < size,
    ensures
        pushed(entries, entry, size)[0] == entry,
        entries.len() <= size ==> pushed(entries, entry, size).len() <= size,
        forall|i: int|
            1 <= i < pushed(entries, entry, size).len() ==> #[trigger] pushed(
                entries,
                entry,
                size,
            )[i] == entries[i - 1],
{
}

/// An entry is told by its pack and by its offset, both of them.
pub proof fn law_entries_are_told_by_pack_and_offset(entry: Entry, pack_id: u32, offset: u64)
    ensures
        is_at(entry, pack_id, offset) <==> !(entry.pack_id != pack_id || entry.offset != offset),
{
}

/// Nothing holds nothing, and one more entry adds what was allocated for it and
/// what it holds in the budget.
pub proof fn law_entries_add_up(entries: Seq<Entry>, entry: Entry)
    ensures
        total_allocated(Seq::<Entry>::empty()) == 0,
        total_held(Seq::<Entry>::empty()) == 0,
        total_allocated(entries.push(entry)) == total_allocated(entries) + entry.allocated,
        total_held(entries.push(entry)) == total_held(entries) + entry.reservation.held(),
{
    assert(entries.push(entry).drop_last() =~= entries);
}

/// Entries go to make room only where they have to: all of them stay while the
/// limit was not passed and the new data fits under it, if need be with the spare
/// buffer given up, and all of them go otherwise.
pub proof fn law_entries_go_only_to_make_room<const SIZE: usize>(
    list: StaticLinkedList<SIZE>,
    len: nat,
)
    ensures
        list.used() <= list.limit() && len <= list.limit() - list.used()
            + list.num_spare_bytes() ==> list.kept(len) == list.entries() && list.used_by_kept(len)
            == list.used() - list.spare_allocated(),
        list.used() > list.limit() || len > list.limit() - list.used()
            + list.num_spare_bytes() ==> list.kept(len) == Seq::<Entry>::empty()
            && list.used_by_kept(len) == 0,
{
}

/// A new entry comes first. The others keep their order, and only where there are
/// as many as may be the last of them goes.
pub proof fn law_only_the_last_gives_way(entries: Seq<Entry>, entry: Entry, size: nat)
    requires
        0 < size,
        entries.len() <= size,
    ensures
        entries.len() < size ==> pushed(entries, entry, size) == seq![entry] + entries,
        entries.len() == size ==> pushed(entries, entry, size) == seq![entry] + entries.take(
            size - 1,
        ),
{
    assert(entries.len() > 0 ==> entries.drop_last() =~= entries.take(entries.len() - 1));
}

/// An entry that was used comes first, and the others keep their order.
pub proof fn law_used_entry_comes_first(entries: Seq<Entry>, i: int)
    requires
        0 <= i < entries.len(),
    ensures
        touched(entries, i).len() == entries.len(),
        touched(entries, i)[0] == entries[i],
        forall|j: int| 0 <= j < i ==> touched(entries, i)[j + 1] == #[trigger] entries[j],
        forall|j: int|
            i < j < entries.len() ==> touched(entries, i)[j] == #[trigger] entries[j],
{
}

/// What is asked for after it was put in is what was put in: its kind, its
/// compressed size and its data, byte for byte. Only where the machine has no
/// memory for a copy of the data, an older entry of the same place may be the
/// answer, or there is none.
pub proof fn law_what_was_put_in_is_got_back<const SIZE: usize>(
    before: StaticLinkedList<SIZE>,
    between: StaticLinkedList<SIZE>,
    after: StaticLinkedList<SIZE>,
    pack_id: u32,
    offset: u64,
    data: Seq<u8>,
    kind: Kind,
    compressed_size: usize,
    reservation: Reservation,
    before_out: Seq<u8>,
    after_out: Seq<u8>,
    answer: Option<(Kind, usize)>,
)
    requires
        before.after_keeping(
            &between,
            pack_id,
            offset,
            data,
            kind,
            compressed_size,
            reservation,
        ),
        between.after_get(&after, pack_id, offset, before_out, after_out, answer),
    ensures
        data.len() == 0 ==> answer == Some((kind, compressed_size)) && after_out == data,
        answer is None ==> after_out == Seq::<u8>::empty(),
        answer is Some ==> (answer == Some((kind, compressed_size)) && after_out == data) || (
        data.len() > 0 && exists|i: int|
            {
                &&& 1 <= i < between.entries().len()
                &&& (#[trigger] between.entries()[i]).pack_id == pack_id
                &&& between.entries()[i].offset == offset
                &&& answer == Some(
                    (between.entries()[i].kind, between.entries()[i].compressed_size),
                )
                &&& after_out == between.entries()[i].data@
            }),
{
    let first = between.entries()[0];
    assert(is_at(first, pack_id, offset));
    if answer is Some {
        let (found, size) = answer->0;
        let i = choose|i: int|
            {
                &&& 0 <= i < between.entries().len()
                &&& is_at(between.entries()[i], pack_id, offset)
                &&& found == between.entries()[i].kind
                &&& size == between.entries()[i].compressed_size
                &&& after_out == between.entries()[i].data@
                &&& after.entries() == #[trigger] touched(between.entries(), i)
                &&& between.need_memory(pack_id, offset, i)
            };
        if i > 0 {
            assert(between.entries()[0].data@.len() > 0);
            assert(between.entries()[i].pack_id == pack_id);
        }
    } else {
        assert(between.entries()[0].data@.len() > 0);
    }
}

/// A list that has room for entries at all can take any entry, while what it holds
/// stays within what a machine can allocate. One that is too large for the list
/// can be offered in any case.
pub proof fn law_entries_can_be_counted<const SIZE: usize>(
    list: StaticLinkedList<SIZE>,
    len: nat,
)
    ensures
        SIZE > 0 && list.used() <= isize::MAX ==> list.can_count(len),
        len > list.limit() ==> list.can_count(len),
{
}

} // verus!
