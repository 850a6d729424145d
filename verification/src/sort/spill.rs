//! The external sort: runs spilled as bytes, and merged back on demand.
//!
//! Nothing here touches a file. The sorter hands out the bytes of each run
//! together with the place to write them, and the merge asks for the bytes it
//! needs next. What was written at a place is what has to be handed back for
//! it; the contracts say what follows from that.
use std::collections::VecDeque;

use vstd::prelude::*;

use super::heap::{Heap, HeapEntry};
use super::merge::stable_sort;
use super::Record;
use crate::cache::delta::traverse::spool::SpoolHandle;

verus! {

/// One sorted run on the spool: `count` records from byte `offset` on.
pub struct ChunkRef {
    pub offset: u64,
    pub count: usize,
}

/// Bytes to be written at `offset` of the spool.
#[derive(Debug)]
pub struct Spill {
    pub offset: u64,
    pub bytes: Vec<u8>,
}

/// Bytes to be read from the spool: `len` of them, from `offset` on.
#[derive(Clone, Copy, Debug, PartialEq, Eq, Structural)]
pub struct ReadRequest {
    pub offset: u64,
    pub len: usize,
}

/// What the merge came to.
#[derive(Debug)]
pub enum Step<R> {
    /// The next record in order.
    Item(R),
    /// The merge goes on once these bytes are supplied.
    Read(ReadRequest),
    /// All records were handed out.
    Done,
}

/// Reads one run, block by block.
pub struct ChunkCursor<R: Record> {
    /// Where the next block of this run begins.
    next_read_offset: u64,
    /// Records that are still on the spool.
    remaining: usize,
    /// Records that were read and not handed out yet.
    buffer: VecDeque<R>,
    /// The records that are still on the spool.
    unread: Ghost<Seq<R>>,
}

impl<R: Record> ChunkCursor<R> {
    /// What is still on the spool stands in `image` where the next block begins.
    spec fn wf(self, image: Seq<u8>) -> bool {
        &&& self.unread@.len() == self.remaining
        &&& self.next_read_offset + self.remaining * R::width() <= image.len()
        &&& super::encode_all(self.unread@) == image.subrange(
            self.next_read_offset as int,
            self.next_read_offset + self.remaining * R::width(),
        )
    }

    /// The records that this cursor still hands out.
    spec fn rest(self) -> Seq<R> {
        self.buffer@ + self.unread@
    }

    /// How many records the next block holds.
    spec fn block(self) -> nat {
        if self.remaining < R::read_ahead() {
            self.remaining as nat
        } else {
            R::read_ahead()
        }
    }

    /// Where the next block stands.
    spec fn next_block(self) -> ReadRequest {
        ReadRequest {
            offset: self.next_read_offset,
            len: (self.block() * R::width()) as usize,
        }
    }

    fn new(start_offset: u64, count: usize, Ghost(run): Ghost<Seq<R>>) -> (cursor: Self)
        ensures
            cursor.next_read_offset == start_offset,
            cursor.remaining == count,
            cursor.buffer@ == Seq::<R>::empty(),
            cursor.unread@ == run,
    {
        ChunkCursor {
            next_read_offset: start_offset,
            remaining: count,
            buffer: VecDeque::new(),
            unread: Ghost(run),
        }
    }

    /// The bytes of the next block.
    fn request(&self, Ghost(image): Ghost<Seq<u8>>) -> (read: ReadRequest)
        requires
            self.wf(image),
        ensures
            read.offset == self.next_read_offset,
            read.len == self.block() * R::width(),
            read.offset + read.len <= image.len(),
    {
        let ahead: usize = R::exec_read_ahead();
        let n: usize = if self.remaining < ahead {
            self.remaining
        } else {
            ahead
        };
        proof {
            R::lemma_limits();
            let w = R::width() as int;
            let m = n as int;
            let all = self.remaining as int;
            assert(m * w <= 128 * 64) by (nonlinear_arith)
                requires
                    0 <= m <= 128,
                    0 <= w <= 64,
            ;
            assert(m * w <= all * w) by (nonlinear_arith)
                requires
                    0 <= m <= all,
                    0 <= w,
            ;
        }
        ReadRequest { offset: self.next_read_offset, len: n * R::exec_width() }
    }

    /// Decode the next block.
    fn fill(&mut self, bytes: &[u8], Ghost(image): Ghost<Seq<u8>>)
        requires
            old(self).wf(image),
            image.len() <= u64::MAX,
            old(self).buffer@.len() == 0,
            bytes@.len() == old(self).block() * R::width(),
        ensures
            final(self).wf(image),
            final(self).buffer@.len() == old(self).block(),
            super::encode_all(final(self).buffer@) == bytes@,
            final(self).unread@ == old(self).unread@.skip(old(self).block() as int),
            bytes@ == image.subrange(
                old(self).next_read_offset as int,
                old(self).next_read_offset + bytes@.len(),
            ) ==> final(self).rest() == old(self).rest(),
    {
        let ahead: usize = R::exec_read_ahead();
        let w: usize = R::exec_width();
        let n: usize = if self.remaining < ahead {
            self.remaining
        } else {
            ahead
        };
        proof {
            R::lemma_limits();
        }
        let ghost before = *self;
        let mut i: usize = 0;
        let mut at: usize = 0;
        proof {
            assert(0 * w == 0) by (nonlinear_arith);
            assert(bytes@.subrange(0, 0) =~= Seq::<u8>::empty());
        }
        while i < n
            invariant
                i <= n,
                n == before.block(),
                w == R::width(),
                0 < w <= 64,
                at == i * w,
                bytes@.len() == n * w,
                at <= bytes@.len(),
                self.buffer@.len() == i,
                super::encode_all(self.buffer@) == bytes@.subrange(0, at as int),
                self.next_read_offset == before.next_read_offset,
                self.remaining == before.remaining,
                self.unread == before.unread,
            decreases n - i,
        {
            proof {
                let (a, b, c) = (i as int, n as int, w as int);
                assert((a + 1) * c == a * c + c && (a + 1) * c <= b * c) by (nonlinear_arith)
                    requires
                        0 <= a < b,
                        0 < c,
                ;
            }
            assert(bytes@.len() == bytes.len());
            let record = R::decode_at(bytes, at);
            proof {
                super::lemma_encode_all_push(self.buffer@, record);
                assert(bytes@.subrange(0, at as int) + bytes@.subrange(at as int, at + w)
                    =~= bytes@.subrange(0, at + w));
            }
            self.buffer.push_back(record);
            at = at + w;
            i = i + 1;
        }
        self.remaining = self.remaining - n;
        proof {
            assert(bytes@.subrange(0, at as int) =~= bytes@);
            let (a, b, c) = (n as int, before.remaining as int, w as int);
            assert(a * c + (b - a) * c == b * c) by (nonlinear_arith);
            assert(0 <= (b - a) * c) by (nonlinear_arith)
                requires
                    0 <= a <= b,
                    0 < c,
            ;
            self.unread = Ghost(before.unread@.skip(n as int));
            let start = before.next_read_offset as int;
            let taken = before.unread@.take(n as int);
            let left = before.unread@.skip(n as int);
            assert(before.unread@ =~= taken + left);
            super::lemma_encode_all_add(taken, left);
            super::lemma_encode_all_len(taken);
            super::lemma_encode_all_len(left);
            let all = super::encode_all(before.unread@);
            assert(super::encode_all(left) =~= all.subrange(a * c, b * c));
            assert(all.subrange(a * c, b * c) =~= image.subrange(start + a * c, start + b * c));
            assert(super::encode_all(taken) =~= all.subrange(0, a * c));
            assert(all.subrange(0, a * c) =~= image.subrange(start, start + a * c));
            if bytes@ == image.subrange(start, start + bytes@.len()) {
                super::lemma_encode_all_injective(self.buffer@, taken);
                assert(self.buffer@ + left =~= before.unread@);
                assert(before.buffer@ + before.unread@ =~= before.unread@);
            }
        }
        self.next_read_offset = self.next_read_offset + (n * w) as u64;
    }
}

/// `after` are the runs of `before`, but that run `c` begins with the records
/// that stand in `bytes`, in place of as many at its head.
pub open spec fn reads_in<R: Record>(
    before: Seq<Seq<R>>,
    c: int,
    bytes: Seq<u8>,
    after: Seq<Seq<R>>,
) -> bool {
    exists|block: Seq<R>| #[trigger]
        super::encode_all(block) == bytes && after == before.update(
            c,
            block + before[c].skip(block.len() as int),
        )
}

/// Run `i` has its head in the heap.
spec fn in_heap<R: Record>(heap: Heap<R>, i: int) -> bool {
    exists|e: HeapEntry<R>| #[trigger] heap.entries().contains(e) && e.cursor_idx == i
}

/// The merge of the runs on the spool.
pub struct Merge<R: Record> {
    cursors: Vec<ChunkCursor<R>>,
    heap: Heap<R>,
    /// Runs whose next block has to be read before the merge can go on.
    waiting: Vec<usize>,
    /// What is left of each run.
    runs: Ghost<Seq<Seq<R>>>,
    /// The bytes that were written to the spool.
    image: Ghost<Seq<u8>>,
}

impl<R: Record> Merge<R> {
    /// Every run but `open` is where it belongs: its head is in the heap, or
    /// its next block is waited for, or nothing is left of it.
    spec fn settled_but(self, open: int) -> bool {
        &&& self.image@.len() <= u64::MAX
        &&& self.runs@.len() == self.cursors@.len()
        &&& forall|i: int| 0 <= i < self.cursors@.len() ==> (#[trigger] self.cursors@[i]).wf(self.image@)
        &&& self.heap.wf()
        &&& forall|e: HeapEntry<R>| #[trigger]
            self.heap.entries().contains(e) ==> {
                &&& e.cursor_idx < self.cursors@.len()
                &&& self.runs@[e.cursor_idx as int] == seq![e.record]
                    + self.cursors@[e.cursor_idx as int].rest()
                &&& !self.waiting@.contains(e.cursor_idx)
            }
        &&& forall|i: int|
            0 <= i < self.cursors@.len() && i != open && !in_heap(self.heap, i) ==> {
                &&& (#[trigger] self.cursors@[i]).buffer@.len() == 0
                &&& self.runs@[i] == self.cursors@[i].unread@
                &&& self.cursors@[i].remaining > 0 ==> self.waiting@.contains(i as usize)
            }
        &&& forall|k: int|
            0 <= k < self.waiting@.len() ==> {
                &&& (#[trigger] self.waiting@[k]) < self.cursors@.len()
                &&& self.cursors@[self.waiting@[k] as int].remaining > 0
            }
        &&& self.waiting@.no_duplicates()
    }

    spec fn wf(self) -> bool {
        self.settled_but(-1)
    }

    /// The blocks that the merge waits for, in the order it asks for them.
    spec fn waits(self) -> Seq<ReadRequest> {
        Seq::new(
            self.waiting@.len(),
            |k: int|
                self.cursors@[self.waiting@[self.waiting@.len() - 1 - k] as int].next_block(),
        )
    }

    /// The block that the merge asks for next, if it waits for any.
    spec fn awaits(self) -> Option<ReadRequest> {
        if self.waits().len() == 0 {
            None
        } else {
            Some(self.waits()[0])
        }
    }

    /// Every block that is waited for has bytes, and lies within what was
    /// written.
    proof fn lemma_waits(self)
        requires
            self.wf(),
        ensures
            forall|k: int|
                0 <= k < self.waits().len() ==> (#[trigger] self.waits()[k]).len > 0
                    && self.waits()[k].offset + self.waits()[k].len <= self.image@.len(),
    {
        assert forall|k: int| 0 <= k < self.waits().len() implies (
        #[trigger] self.waits()[k]).len > 0 && self.waits()[k].offset + self.waits()[k].len
            <= self.image@.len() by {
            let m = self.waiting@.len() - 1 - k;
            let cursor = self.cursors@[self.waiting@[m] as int];
            assert(cursor.wf(self.image@));
            R::lemma_limits();
            let (a, b, w) = (cursor.block() as int, cursor.remaining as int, R::width() as int);
            assert(a * w <= b * w && 0 < a * w <= 128 * 64) by (nonlinear_arith)
                requires
                    0 < a <= b,
                    a <= 128,
                    0 < w <= 64,
            ;
        }
    }

    /// Put the first buffered record of run `c`, which has none there, into the heap.
    fn raise(&mut self, c: usize)
        requires
            old(self).settled_but(c as int),
            c < old(self).cursors@.len(),
            !in_heap(old(self).heap, c as int),
            !old(self).waiting@.contains(c),
            old(self).cursors@[c as int].buffer@.len() > 0,
            old(self).runs@[c as int] == old(self).cursors@[c as int].rest(),
        ensures
            final(self).wf(),
            final(self).runs@ == old(self).runs@,
            final(self).image@ == old(self).image@,
            final(self).waits() == old(self).waits(),
    {
        let ghost before = *self;
        let head = self.cursors[c].buffer.pop_front();
        match head {
            Some(record) => {
                proof {
                    assert(self.cursors@ =~= before.cursors@.update(c as int, self.cursors@[c as int]));
                    assert(before.runs@[c as int] =~= seq![record] + self.cursors@[c as int].rest());
                }
                self.heap.push(HeapEntry { record, cursor_idx: c });
                proof {
                    let entry = HeapEntry { record, cursor_idx: c };
                    assert(self.heap.entries().contains(entry));
                    assert forall|i: int|
                        0 <= i < self.cursors@.len() && !in_heap(self.heap, i) implies {
                        &&& (#[trigger] self.cursors@[i]).buffer@.len() == 0
                        &&& self.runs@[i] == self.cursors@[i].unread@
                        &&& self.cursors@[i].remaining > 0 ==> self.waiting@.contains(i as usize)
                    } by {
                        if i == c {
                            assert(in_heap(self.heap, i));
                        } else {
                            assert(self.cursors@[i] == before.cursors@[i]);
                            if in_heap(before.heap, i) {
                                let e = choose|e: HeapEntry<R>| #[trigger]
                                    before.heap.entries().contains(e) && e.cursor_idx == i;
                                assert(self.heap.entries().contains(e));
                            }
                        }
                    }
                    assert forall|e: HeapEntry<R>| #[trigger]
                        self.heap.entries().contains(e) implies {
                        &&& e.cursor_idx < self.cursors@.len()
                        &&& self.runs@[e.cursor_idx as int] == seq![e.record]
                            + self.cursors@[e.cursor_idx as int].rest()
                        &&& !self.waiting@.contains(e.cursor_idx)
                    } by {
                        if e != entry {
                            assert(before.heap.entries().contains(e));
                            if e.cursor_idx == c {
                                assert(in_heap(before.heap, c as int));
                            }
                        }
                    }
                    assert forall|i: int| 0 <= i < self.cursors@.len() implies (
                    #[trigger] self.cursors@[i]).wf(self.image@) by {
                        assert(before.cursors@[i].wf(before.image@));
                    }
                    assert forall|k: int| 0 <= k < self.waiting@.len() implies {
                        &&& (#[trigger] self.waiting@[k]) < self.cursors@.len()
                        &&& self.cursors@[self.waiting@[k] as int].remaining > 0
                    } by {
                        assert(before.waiting@[k] == self.waiting@[k]);
                    }
                    assert(self.waits() =~= before.waits());
                }
            },
            None => {},
        }
    }

    /// The next record, or what has to be read before it can be told.
    fn step(&mut self) -> (step: Step<R>)
        requires
            old(self).wf(),
        ensures
            final(self).wf(),
            final(self).image@ == old(self).image@,
            match step {
                Step::Item(record) => {
                    &&& old(self).awaits() is None
                    &&& super::merge::merged(old(self).runs@).len() > 0
                    &&& record == super::merge::merged(old(self).runs@)[0]
                    &&& super::merge::merged(final(self).runs@) == super::merge::merged(old(self).runs@).drop_first()
                },
                Step::Read(read) => old(self).awaits() == Some(read) && *final(self) == *old(self),
                Step::Done => {
                    &&& old(self).awaits() is None
                    &&& super::merge::merged(old(self).runs@).len() == 0
                    &&& final(self).runs@ == old(self).runs@
                },
            },
    {
        let ghost before = *self;
        if self.waiting.len() > 0 {
            let c: usize = self.waiting[self.waiting.len() - 1];
            proof {
                assert(self.waiting@[self.waiting@.len() - 1] == c);
            }
            let read = self.cursors[c].request(Ghost(self.image@));
            return Step::Read(read);
        }
        assert forall|i: int|
            0 <= i < self.cursors@.len() && !in_heap(self.heap, i) implies (
        #[trigger] self.runs@[i]).len() == 0 by {
            assert(self.cursors@[i].wf(self.image@));
            assert(!self.waiting@.contains(i as usize));
        }
        match self.heap.pop() {
            None => {
                proof {
                    assert forall|i: int| 0 <= i < self.runs@.len() implies (
                    #[trigger] self.runs@[i]).len() == 0 by {
                        if in_heap(before.heap, i) {
                            let e = choose|e: HeapEntry<R>| #[trigger]
                                before.heap.entries().contains(e) && e.cursor_idx == i;
                            assert(before.heap.entries().len() > 0);
                        }
                    }
                    super::merge::lemma_merged_done(self.runs@);
                    assert(self.heap.entries() == before.heap.entries());
                    assert forall|i: int| in_heap(before.heap, i) == in_heap(self.heap, i) by {}
                }
                Step::Done
            },
            Some(top) => {
                let c: usize = top.cursor_idx;
                proof {
                    assert(before.heap.entries().contains(top));
                    assert(before.runs@[c as int] == seq![top.record]
                        + before.cursors@[c as int].rest());
                    assert(before.runs@[c as int][0] == top.record);
                    assert forall|j: int|
                        0 <= j < before.runs@.len() && (
                        #[trigger] before.runs@[j]).len() > 0 implies {
                        ||| before.runs@[c as int][0].key() < before.runs@[j][0].key()
                        ||| before.runs@[c as int][0].key() == before.runs@[j][0].key() && c <= j
                    } by {
                        assert(in_heap(before.heap, j));
                        let e = choose|e: HeapEntry<R>| #[trigger]
                            before.heap.entries().contains(e) && e.cursor_idx == j;
                        assert(before.runs@[j][0] == e.record);
                    }
                    assert(super::merge::is_front(before.runs@, c as int));
                    super::merge::lemma_merged_step(before.runs@, c as int);
                    self.runs = Ghost(super::merge::advance(before.runs@, c as int));
                    assert(before.runs@[c as int].drop_first()
                        =~= before.cursors@[c as int].rest());
                    assert(!in_heap(self.heap, c as int)) by {
                        if in_heap(self.heap, c as int) {
                            let e = choose|e: HeapEntry<R>| #[trigger]
                                self.heap.entries().contains(e) && e.cursor_idx == c;
                            before.heap.lemma_distinct(e, top);
                        }
                    }
                    assert forall|i: int| i != c implies in_heap(before.heap, i) == in_heap(
                        self.heap,
                        i,
                    ) by {
                        if in_heap(before.heap, i) {
                            let e = choose|e: HeapEntry<R>| #[trigger]
                                before.heap.entries().contains(e) && e.cursor_idx == i;
                            assert(self.heap.entries().contains(e));
                        }
                        if in_heap(self.heap, i) {
                            let e = choose|e: HeapEntry<R>| #[trigger]
                                self.heap.entries().contains(e) && e.cursor_idx == i;
                            assert(before.heap.entries().contains(e));
                        }
                    }
                    assert forall|e: HeapEntry<R>| #[trigger]
                        self.heap.entries().contains(e) implies e.cursor_idx != c by {
                        assert(before.heap.entries().contains(e));
                        assert(in_heap(self.heap, e.cursor_idx as int));
                    }
                    assert(self.settled_but(c as int));
                }
                if self.cursors[c].buffer.len() > 0 {
                    self.raise(c);
                } else if self.cursors[c].remaining > 0 {
                    self.waiting.push(c);
                    proof {
                        assert(before.cursors@[c as int].rest() =~= before.cursors@[c as int].unread@);
                        let w = self.waiting@;
                        assert(w[0] == c);
                        assert(w.contains(c));
                    }
                } else {
                    proof {
                        assert(before.cursors@[c as int].rest() =~= before.cursors@[c as int].unread@);
                    }
                }
                Step::Item(top.record)
            },
        }
    }

    /// Hand over the bytes of the block that the merge asks for. It is waited
    /// for no longer, and its run goes on with the records in the bytes.
    fn supply(&mut self, bytes: &[u8])
        requires
            old(self).wf(),
            old(self).awaits() matches Some(read) && bytes@.len() == read.len,
        ensures
            final(self).wf(),
            final(self).image@ == old(self).image@,
            final(self).waits() == old(self).waits().drop_first(),
            reads_in(
                old(self).runs@,
                old(self).waiting@.last() as int,
                bytes@,
                final(self).runs@,
            ),
            bytes@ == old(self).image@.subrange(
                old(self).awaits()->0.offset as int,
                old(self).awaits()->0.offset + bytes@.len(),
            ) ==> final(self).runs@ == old(self).runs@,
    {
        let ghost before = *self;
        proof {
            self.lemma_waits();
            R::lemma_limits();
        }
        match self.waiting.pop() {
            None => {},
            Some(c) => {
                let ghost last = before.waiting@.len() - 1;
                proof {
                    assert(before.waiting@[last] == c);
                    assert(before.waiting@.contains(c));
                    assert(!in_heap(before.heap, c as int)) by {
                        if in_heap(before.heap, c as int) {
                            let e = choose|e: HeapEntry<R>| #[trigger]
                                before.heap.entries().contains(e) && e.cursor_idx == c;
                            assert(!before.waiting@.contains(e.cursor_idx));
                        }
                    }
                    assert(before.cursors@[c as int].wf(before.image@));
                    let (a, w) = (before.cursors@[c as int].block() as int, R::width() as int);
                    assert(0 <= a * w <= 128 * 64) by (nonlinear_arith)
                        requires
                            0 <= a <= 128,
                            0 < w <= 64,
                    ;
                }
                self.cursors[c].fill(bytes, Ghost(self.image@));
                proof {
                    let cursor = self.cursors@[c as int];
                    self.runs = Ghost(before.runs@.update(c as int, cursor.rest()));
                    assert(self.cursors@ =~= before.cursors@.update(c as int, cursor));
                    assert(before.cursors@[c as int].rest() =~= before.cursors@[c as int].unread@);
                    let w = self.waiting@;
                    assert forall|i: usize| i != c implies w.contains(i)
                        == before.waiting@.contains(i) by {
                        if w.contains(i) {
                            let k = w.index_of(i);
                            assert(before.waiting@[k] == i);
                        }
                        if before.waiting@.contains(i) {
                            let k = before.waiting@.index_of(i);
                            assert(w[k] == i);
                        }
                    }
                    assert(!w.contains(c)) by {
                        if w.contains(c) {
                            let k = w.index_of(c);
                            assert(before.waiting@[k] == c && k != last);
                        }
                    }
                    assert forall|i: int| 0 <= i < self.cursors@.len() implies (
                    #[trigger] self.cursors@[i]).wf(self.image@) by {
                        assert(i == c || before.cursors@[i].wf(before.image@));
                    }
                    assert forall|k: int| 0 <= k < w.len() implies {
                        &&& (#[trigger] w[k]) < self.cursors@.len()
                        &&& self.cursors@[w[k] as int].remaining > 0
                    } by {
                        assert(before.waiting@[k] == w[k]);
                        assert(w.contains(w[k]));
                    }
                    assert forall|i: int|
                        0 <= i < self.cursors@.len() && i != c && !in_heap(self.heap, i) implies {
                        &&& (#[trigger] self.cursors@[i]).buffer@.len() == 0
                        &&& self.runs@[i] == self.cursors@[i].unread@
                        &&& self.cursors@[i].remaining > 0 ==> self.waiting@.contains(i as usize)
                    } by {
                        assert(self.cursors@[i] == before.cursors@[i]);
                        assert(self.cursors@.len() == self.cursors.len());
                        assert(i as usize != c);
                        assert(w.contains(i as usize) == before.waiting@.contains(i as usize));
                    }
                    assert(self.settled_but(c as int));
                    assert(self.waits() =~= before.waits().drop_first()) by {
                        assert forall|k: int| 0 <= k < w.len() implies w[k] != c by {
                            assert(w.contains(w[k]));
                        }
                    }
                    let block = cursor.buffer@;
                    assert(super::encode_all(block) == bytes@);
                    assert(cursor.rest() =~= block + before.runs@[c as int].skip(
                        block.len() as int,
                    ));
                    assert(reads_in(before.runs@, c as int, bytes@, self.runs@));
                    if cursor.rest() == before.cursors@[c as int].rest() {
                        assert(self.runs@ =~= before.runs@);
                    }
                }
                self.raise(c);
            },
        }
    }
}

/// All records in order: from memory if nothing was spilled, else by merging
/// the runs on the spool.
pub enum SortedIter<R: Record> {
    InMemory { entries: VecDeque<R> },
    Merged { merge: Merge<R> },
}

impl<R: Record> SortedIter<R> {
    pub closed spec fn wf(self) -> bool {
        match self {
            SortedIter::InMemory { .. } => true,
            SortedIter::Merged { merge } => merge.wf(),
        }
    }

    /// The records that are still to come, in order.
    pub closed spec fn rest(self) -> Seq<R> {
        match self {
            SortedIter::InMemory { entries } => entries@,
            SortedIter::Merged { merge } => super::merge::merged(merge.runs@),
        }
    }

    /// The bytes that have to stand on the spool for the rest to come out right.
    pub closed spec fn image(self) -> Seq<u8> {
        match self {
            SortedIter::InMemory { .. } => Seq::empty(),
            SortedIter::Merged { merge } => merge.image@,
        }
    }

    /// What is left of each run on the spool, with what was read of it.
    pub closed spec fn runs(self) -> Seq<Seq<R>> {
        match self {
            SortedIter::InMemory { .. } => Seq::empty(),
            SortedIter::Merged { merge } => merge.runs@,
        }
    }

    /// The blocks that have to be supplied before the next record can be told,
    /// in the order they are asked for.
    pub closed spec fn waits(self) -> Seq<ReadRequest> {
        match self {
            SortedIter::InMemory { .. } => Seq::empty(),
            SortedIter::Merged { merge } => merge.waits(),
        }
    }

    /// The run that the block to be supplied next belongs to.
    pub closed spec fn awaited_run(self) -> int {
        match self {
            SortedIter::InMemory { .. } => 0,
            SortedIter::Merged { merge } => merge.waiting@.last() as int,
        }
    }

    /// The block that has to be supplied next, if any is waited for.
    pub open spec fn awaits(self) -> Option<ReadRequest> {
        if self.waits().len() == 0 {
            None
        } else {
            Some(self.waits()[0])
        }
    }

    /// Every block that is waited for has bytes and lies within what was written.
    /// So where nothing was written, nothing is ever read.
    pub proof fn law_only_what_was_written_is_read(self)
        requires
            self.wf(),
        ensures
            forall|k: int|
                0 <= k < self.waits().len() ==> (#[trigger] self.waits()[k]).len > 0
                    && self.waits()[k].offset + self.waits()[k].len <= self.image().len(),
            self.image().len() == 0 ==> self.waits().len() == 0,
    {
        match self {
            SortedIter::InMemory { .. } => {},
            SortedIter::Merged { merge } => {
                merge.lemma_waits();
                if self.waits().len() > 0 {
                    assert(self.waits()[0].len > 0);
                }
            },
        }
    }

    /// Produce the next record in order, or ask for the bytes it takes to tell
    /// which one that is.
    pub fn try_next(&mut self) -> (step: Step<R>)
        requires
            old(self).wf(),
        ensures
            final(self).wf(),
            final(self).image() == old(self).image(),
            match step {
                Step::Item(record) => {
                    &&& old(self).awaits() is None
                    &&& old(self).rest().len() > 0
                    &&& record == old(self).rest()[0]
                    &&& final(self).rest() == old(self).rest().drop_first()
                },
                Step::Read(read) => {
                    &&& old(self).awaits() == Some(read)
                    &&& *final(self) == *old(self)
                    &&& read.len > 0
                    &&& read.offset + read.len <= old(self).image().len()
                },
                Step::Done => {
                    &&& old(self).awaits() is None
                    &&& old(self).rest().len() == 0
                    &&& final(self).rest() == old(self).rest()
                },
            },
    {
        proof {
            self.law_only_what_was_written_is_read();
        }
        match self {
            SortedIter::InMemory { entries } => match entries.pop_front() {
                Some(record) => Step::Item(record),
                None => Step::Done,
            },
            SortedIter::Merged { merge } => merge.step(),
        }
    }

    /// Hand over the bytes that [`Self::try_next`] asked for. They are waited
    /// for no longer, and the run they belong to goes on with the records in
    /// them. If they are what was written there, the records to come are what
    /// they were.
    pub fn supply(&mut self, bytes: &[u8])
        requires
            old(self).wf(),
            old(self).awaits() matches Some(read) && bytes@.len() == read.len,
        ensures
            final(self).wf(),
            final(self).image() == old(self).image(),
            final(self).waits() == old(self).waits().drop_first(),
            reads_in(old(self).runs(), old(self).awaited_run(), bytes@, final(self).runs()),
            final(self).rest() == super::merge::merged(final(self).runs()),
            bytes@ == old(self).image().subrange(
                old(self).awaits()->0.offset as int,
                old(self).awaits()->0.offset + bytes@.len(),
            ) ==> final(self).rest() == old(self).rest(),
    {
        match self {
            SortedIter::InMemory { .. } => {},
            SortedIter::Merged { merge } => merge.supply(bytes),
        }
    }
}

/// The records of the runs before run `i`.
spec fn before_run<R>(runs: Seq<Seq<R>>, i: int) -> nat {
    super::concat(runs.take(i)).len()
}

/// `spill` is what sorting `chunk` and appending its bytes takes: the place to
/// write is the end of what was written `before`, and `after` is what stands
/// on the spool once that was done.
pub open spec fn is_spill_of<R: Record>(
    spill: Spill,
    chunk: Seq<R>,
    before: Seq<u8>,
    after: Seq<u8>,
) -> bool {
    &&& spill.offset == before.len()
    &&& after == before + spill.bytes@
    &&& exists|run: Seq<R>| #[trigger]
        super::stably_sorted(run, chunk) && spill.bytes@ == super::encode_all(run)
}

/// The bytes of run `i` stand on the spool behind those of the runs before it.
proof fn lemma_run_in_image<R: Record>(runs: Seq<Seq<R>>, i: int)
    requires
        0 <= i < runs.len(),
    ensures
        ({
            let start = before_run(runs, i) * R::width();
            let len = runs[i].len() * R::width();
            let image = super::encode_all(super::concat(runs));
            &&& 0 <= start <= start + len <= image.len()
            &&& super::encode_all(runs[i]) == image.subrange(start as int, (start + len) as int)
        }),
{
    let front = super::concat(runs.take(i));
    let back = super::concat(runs.skip(i + 1));
    assert(runs =~= runs.take(i) + seq![runs[i]] + runs.skip(i + 1));
    super::lemma_concat_add(runs.take(i) + seq![runs[i]], runs.skip(i + 1));
    assert(runs.take(i) + seq![runs[i]] =~= runs.take(i).push(runs[i]));
    super::lemma_concat_push(runs.take(i), runs[i]);
    super::lemma_encode_all_add(front + runs[i], back);
    super::lemma_encode_all_add(front, runs[i]);
    super::lemma_encode_all_len(front);
    super::lemma_encode_all_len(runs[i]);
    let image = super::encode_all(super::concat(runs));
    let start = front.len() * R::width();
    let len = runs[i].len() * R::width();
    assert(super::encode_all(runs[i]) =~= image.subrange(start as int, (start + len) as int));
}

/// Collects records into sorted runs that fit in memory.
pub struct Sorter<R: Record> {
    spool: SpoolHandle,
    chunk_capacity: usize,
    current_chunk: Vec<R>,
    spilled_chunks: Vec<ChunkRef>,
    /// The records of each spilled run.
    runs: Ghost<Seq<Seq<R>>>,
    /// Everything pushed so far.
    pushed: Ghost<Seq<R>>,
}

impl<R: Record> Sorter<R> {
    pub closed spec fn wf(self) -> bool {
        &&& self.spool.wf()
        &&& self.chunk_capacity > 0
        &&& self.current_chunk@.len() < self.chunk_capacity
        &&& self.spool.contents() == super::encode_all(super::concat(self.runs@))
        &&& self.spool.contents().len() <= u64::MAX
        &&& self.spilled_chunks@.len() == self.runs@.len()
        &&& forall|i: int|
            0 <= i < self.runs@.len() ==> {
                &&& (#[trigger] self.spilled_chunks@[i]).count == self.runs@[i].len()
                &&& self.spilled_chunks@[i].offset == before_run(self.runs@, i) * R::width()
            }
        &&& forall|i: int|
            0 <= i < self.runs@.len() ==> super::sorted(#[trigger] self.runs@[i])
                && self.runs@[i].len() > 0
        &&& forall|k: nat| #[trigger]
            super::of_key(super::concat(self.runs@) + self.current_chunk@, k) == super::of_key(
                self.pushed@,
                k,
            )
    }

    /// Everything pushed so far, in the order in which it was pushed.
    pub closed spec fn pushed(self) -> Seq<R> {
        self.pushed@
    }

    /// The records held in memory, in the order in which they were pushed.
    pub closed spec fn chunk(self) -> Seq<R> {
        self.current_chunk@
    }

    /// How many records make a run.
    pub closed spec fn capacity(self) -> nat {
        self.chunk_capacity as nat
    }

    /// The bytes handed out to be written so far.
    pub closed spec fn image(self) -> Seq<u8> {
        self.spool.contents()
    }

    /// The spool can take the records in memory and one more.
    pub open spec fn has_room(self) -> bool {
        self.image().len() + (self.chunk().len() + 1) * R::width() <= u64::MAX
    }

    /// What was pushed is in memory or was handed out to be written.
    pub proof fn lemma_size(self)
        requires
            self.wf(),
        ensures
            self.image().len() + self.chunk().len() * R::width() == self.pushed().len()
                * R::width(),
    {
        let spilled = super::concat(self.runs@);
        super::lemma_same_len(spilled + self.current_chunk@, self.pushed@);
        super::lemma_encode_all_len(spilled);
        let (a, b, w) = (spilled.len() as int, self.current_chunk@.len() as int, R::width() as int);
        assert(a * w + b * w == (a + b) * w) by (nonlinear_arith);
    }

    /// An empty sorter with runs of `chunk_capacity` records.
    pub fn new(chunk_capacity: usize) -> (sorter: Self)
        requires
            chunk_capacity > 0,
        ensures
            sorter.wf(),
            sorter.pushed() == Seq::<R>::empty(),
            sorter.chunk() == Seq::<R>::empty(),
            sorter.capacity() == chunk_capacity,
            sorter.image() == Seq::<u8>::empty(),
    {
        let sorter = Sorter {
            spool: SpoolHandle::new(),
            chunk_capacity,
            current_chunk: Vec::new(),
            spilled_chunks: Vec::new(),
            runs: Ghost(Seq::empty()),
            pushed: Ghost(Seq::empty()),
        };
        proof {
            assert(super::concat(sorter.runs@) + sorter.current_chunk@ =~= Seq::<R>::empty());
        }
        sorter
    }

    /// How many records make a run.
    pub fn chunk_capacity(&self) -> (n: usize)
        ensures
            n == self.capacity(),
    {
        self.chunk_capacity
    }

    /// How many bytes were handed out to be written so far.
    pub fn bytes_written(&self) -> (n: u64)
        requires
            self.wf(),
        ensures
            n == self.image().len(),
    {
        self.spool.bytes_written()
    }

    /// Sort the records in memory and hand out their bytes. Does nothing if
    /// there are none.
    fn flush_chunk(&mut self) -> (spill: Option<Spill>)
        requires
            old(self).spool.wf(),
            old(self).chunk_capacity > 0,
            old(self).spool.contents() == super::encode_all(super::concat(old(self).runs@)),
            old(self).spilled_chunks@.len() == old(self).runs@.len(),
            forall|i: int|
                0 <= i < old(self).runs@.len() ==> {
                    &&& (#[trigger] old(self).spilled_chunks@[i]).count == old(self).runs@[i].len()
                    &&& old(self).spilled_chunks@[i].offset == before_run(old(self).runs@, i)
                        * R::width()
                },
            forall|i: int|
                0 <= i < old(self).runs@.len() ==> super::sorted(#[trigger] old(self).runs@[i])
                    && old(self).runs@[i].len() > 0,
            forall|k: nat| #[trigger]
                super::of_key(super::concat(old(self).runs@) + old(self).current_chunk@, k)
                    == super::of_key(old(self).pushed@, k),
            old(self).spool.contents().len() + old(self).current_chunk@.len() * R::width()
                <= u64::MAX,
        ensures
            final(self).wf(),
            final(self).chunk() == Seq::<R>::empty(),
            final(self).pushed() == old(self).pushed(),
            final(self).capacity() == old(self).capacity(),
            final(self).spilled_chunks@.len() == old(self).spilled_chunks@.len() + (
            if old(self).chunk().len() > 0 {
                1int
            } else {
                0
            }),
            match spill {
                None => old(self).chunk().len() == 0 && final(self).image() == old(self).image(),
                Some(s) => {
                    &&& old(self).chunk().len() > 0
                    &&& is_spill_of(s, old(self).chunk(), old(self).image(), final(self).image())
                },
            },
    {
        let ghost before = *self;
        if self.current_chunk.len() == 0 {
            proof {
                assert(0 * R::width() == 0) by (nonlinear_arith);
            }
            return None;
        }
        let run = stable_sort(&self.current_chunk);
        let mut bytes: Vec<u8> = Vec::new();
        let mut i: usize = 0;
        proof {
            assert(run@.take(0) =~= Seq::<R>::empty());
        }
        while i < run.len()
            invariant
                i <= run.len(),
                bytes@ == super::encode_all(run@.take(i as int)),
            decreases run.len() - i,
        {
            run[i].encode_into(&mut bytes);
            proof {
                super::lemma_encode_all_push(run@.take(i as int), run@[i as int]);
                assert(run@.take(i as int).push(run@[i as int]) =~= run@.take(i + 1));
            }
            i = i + 1;
        }
        proof {
            assert(run@.take(run@.len() as int) =~= run@);
            super::law_stable_order_keeps_all(run@, self.current_chunk@);
            super::lemma_encode_all_len(run@);
            super::lemma_encode_all_len(super::concat(self.runs@));
            super::lemma_encode_all_add(super::concat(self.runs@), run@);
            super::lemma_concat_push(self.runs@, run@);
        }
        let spool = self.spool.get_or_create();
        let offset: u64 = spool.append(bytes.as_slice());
        self.spilled_chunks.push(ChunkRef { offset, count: run.len() });
        self.current_chunk = Vec::new();
        proof {
            let runs = before.runs@;
            self.runs = Ghost(runs.push(run@));
            assert forall|i: int| 0 <= i < self.runs@.len() implies {
                &&& (#[trigger] self.spilled_chunks@[i]).count == self.runs@[i].len()
                &&& self.spilled_chunks@[i].offset == before_run(self.runs@, i) * R::width()
            } by {
                assert(self.runs@.take(i) =~= runs.take(i));
                if i < runs.len() {
                    assert(self.spilled_chunks@[i] == before.spilled_chunks@[i]);
                } else {
                    assert(runs.take(i) =~= runs);
                }
            }
            assert forall|i: int| 0 <= i < self.runs@.len() implies super::sorted(
                #[trigger] self.runs@[i],
            ) && self.runs@[i].len() > 0 by {
                if i < runs.len() {
                    assert(self.runs@[i] == runs[i]);
                }
            }
            assert forall|k: nat| #[trigger]
                super::of_key(super::concat(self.runs@) + self.current_chunk@, k)
                    == super::of_key(self.pushed@, k) by {
                assert(super::concat(self.runs@) + self.current_chunk@ =~= super::concat(runs)
                    + run@);
                super::lemma_of_key_add(super::concat(runs), run@, k);
                super::lemma_of_key_add(super::concat(runs), before.current_chunk@, k);
                assert(super::of_key(run@, k) == super::of_key(before.current_chunk@, k));
                assert(super::of_key(super::concat(runs) + before.current_chunk@, k)
                    == super::of_key(before.pushed@, k));
            }
            assert(super::stably_sorted(run@, before.chunk()));
        }
        Some(Spill { offset, bytes })
    }

    /// Record one entry. When that fills the run in memory, the run is sorted
    /// and its bytes are handed out to be written.
    pub fn push(&mut self, record: R) -> (spill: Option<Spill>)
        requires
            old(self).wf(),
            old(self).has_room(),
        ensures
            final(self).wf(),
            final(self).pushed() == old(self).pushed().push(record),
            final(self).capacity() == old(self).capacity(),
            match spill {
                None => {
                    &&& old(self).chunk().len() + 1 < old(self).capacity()
                    &&& final(self).chunk() == old(self).chunk().push(record)
                    &&& final(self).image() == old(self).image()
                },
                Some(s) => {
                    &&& old(self).chunk().len() + 1 == old(self).capacity()
                    &&& final(self).chunk() == Seq::<R>::empty()
                    &&& is_spill_of(
                        s,
                        old(self).chunk().push(record),
                        old(self).image(),
                        final(self).image(),
                    )
                },
            },
    {
        let ghost before = *self;
        self.current_chunk.push(record);
        proof {
            self.pushed = Ghost(before.pushed@.push(record));
            assert forall|k: nat| #[trigger]
                super::of_key(super::concat(self.runs@) + self.current_chunk@, k)
                    == super::of_key(self.pushed@, k) by {
                let old_all = super::concat(before.runs@) + before.current_chunk@;
                assert(super::concat(self.runs@) + self.current_chunk@ =~= old_all
                    + seq![record]);
                assert(self.pushed@ =~= before.pushed@ + seq![record]);
                super::lemma_of_key_add(old_all, seq![record], k);
                super::lemma_of_key_add(before.pushed@, seq![record], k);
                assert(super::of_key(old_all, k) == super::of_key(before.pushed@, k));
            }
        }
        if self.current_chunk.len() >= self.chunk_capacity {
            self.flush_chunk()
        } else {
            None
        }
    }

    /// All records in ascending key order, those of one key in the order in
    /// which they were pushed. If any run was spilled before, what is still in
    /// memory is handed out to be written too, and a block of each run is waited
    /// for. If none was, the spool is not touched, now or later.
    pub fn finish(self) -> (r: (Option<Spill>, SortedIter<R>))
        requires
            self.wf(),
            self.has_room(),
        ensures
            r.1.wf(),
            super::stably_sorted(r.1.rest(), self.pushed()),
            r.0 is Some <==> self.image().len() > 0 && self.chunk().len() > 0,
            match r.0 {
                None => r.1.image() == self.image(),
                Some(s) => is_spill_of(s, self.chunk(), self.image(), r.1.image()),
            },
            self.image().len() == 0 ==> r.1.waits().len() == 0,
            self.image().len() > 0 ==> r.1.waits().len() == r.1.runs().len() > 0,
            forall|k: int|
                0 <= k < r.1.waits().len() ==> (#[trigger] r.1.waits()[k]).len > 0,
    {
        let mut this = self;
        if this.spilled_chunks.len() == 0 {
            let sorted = stable_sort(&this.current_chunk);
            let mut entries: VecDeque<R> = VecDeque::new();
            let mut i: usize = 0;
            while i < sorted.len()
                invariant
                    i <= sorted.len(),
                    entries@ == sorted@.take(i as int),
                decreases sorted.len() - i,
            {
                entries.push_back(sorted[i]);
                proof {
                    assert(sorted@.take(i as int).push(sorted@[i as int]) =~= sorted@.take(i + 1));
                }
                i = i + 1;
            }
            proof {
                assert(sorted@.take(sorted@.len() as int) =~= sorted@);
                assert(this.runs@ =~= Seq::<Seq<R>>::empty());
                assert(super::concat(this.runs@) + this.current_chunk@ =~= this.current_chunk@);
                assert forall|k: nat| #[trigger] super::of_key(entries@, k) == super::of_key(
                    this.pushed@,
                    k,
                ) by {
                    assert(super::of_key(super::concat(this.runs@) + this.current_chunk@, k)
                        == super::of_key(this.pushed@, k));
                }
                assert(this.spool.contents() =~= Seq::<u8>::empty());
            }
            return (None, SortedIter::InMemory { entries });
        }
        proof {
            let (n, w) = (this.current_chunk@.len() as int, R::width() as int);
            assert((n + 1) * w >= n * w) by (nonlinear_arith)
                requires
                    w >= 0,
            ;
            // Something was spilled, so the spool is not empty.
            super::lemma_encode_all_len(super::concat(this.runs@));
            R::lemma_limits();
            assert(this.runs@.last() == this.runs@[this.runs@.len() - 1]);
            let m = super::concat(this.runs@).len() as int;
            assert(m * w > 0) by (nonlinear_arith)
                requires
                    m > 0,
                    w > 0,
            ;
        }
        let ghost opened = this;
        let spill = this.flush_chunk();
        let ghost runs = this.runs@;
        let ghost image = this.spool.contents();
        let n: usize = this.spilled_chunks.len();
        let mut cursors: Vec<ChunkCursor<R>> = Vec::new();
        let mut waiting: Vec<usize> = Vec::new();
        let mut i: usize = n;
        // The first run is asked for first, so it is last to be put on the list.
        while i > 0
            invariant
                i <= n,
                n == runs.len(),
                waiting@.len() == n - i,
                forall|k: int| 0 <= k < waiting@.len() ==> #[trigger] waiting@[k] == n - 1 - k,
            decreases i,
        {
            i = i - 1;
            waiting.push(i);
        }
        while i < n
            invariant
                i <= n,
                n == runs.len(),
                cursors@.len() == i,
                this.wf(),
                this.runs@ == runs,
                this.spool.contents() == image,
                n == this.spilled_chunks@.len(),
                image.len() <= u64::MAX,
                forall|j: int|
                    0 <= j < i ==> {
                        &&& (#[trigger] cursors@[j]).wf(image)
                        &&& cursors@[j].buffer@.len() == 0
                        &&& cursors@[j].unread@ == runs[j]
                    },
            decreases n - i,
        {
            let chunk = &this.spilled_chunks[i];
            let cursor = ChunkCursor::new(chunk.offset, chunk.count, Ghost(runs[i as int]));
            proof {
                lemma_run_in_image(runs, i as int);
                assert(chunk.offset == before_run(runs, i as int) * R::width());
            }
            cursors.push(cursor);
            i = i + 1;
        }
        proof {
            assert forall|j: int| 0 <= j < n && runs[j].len() > 0 implies waiting@.contains(
                j as usize,
            ) by {
                assert(waiting@[n - 1 - j] == j as usize);
            }
        }
        let ghost all_waiting = waiting@;
        let merge = Merge {
            cursors,
            heap: Heap::with_capacity(n),
            waiting,
            runs: Ghost(runs),
            image: Ghost(image),
        };
        proof {
            super::merge::law_merge_is_stable_sort(runs);
            assert(super::concat(this.runs@) + this.current_chunk@ =~= super::concat(runs));
            assert forall|k: nat| #[trigger] super::of_key(super::merge::merged(runs), k)
                == super::of_key(this.pushed@, k) by {
                assert(super::of_key(super::concat(this.runs@) + this.current_chunk@, k)
                    == super::of_key(this.pushed@, k));
                assert(super::of_key(super::merge::merged(runs), k) == super::of_key(
                    super::concat(runs),
                    k,
                ));
            }
        }
        let sorted = SortedIter::Merged { merge };
        proof {
            sorted.law_only_what_was_written_is_read();
        }
        (spill, sorted)
    }
}

} // verus!
