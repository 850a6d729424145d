//! The bytes of a pack index, version 2.
//!
//! A header with the fan-out table is followed by four sections, each with one
//! fixed-size value per object in name order: names, CRC32s, 32-bit offsets,
//! and, only for those that do not fit 31 bits, 64-bit offsets. The hash of the
//! pack and the hash of everything before it close the file.
//!
//! Entries arrive one at a time, so the sections are staged next to each other
//! and joined at the end.
use vstd::prelude::*;

use super::write::IndexEntry;
use crate::bytes::put_be;
use crate::hash::HashedOutput;
use crate::object::ObjectId;
use crate::sort::Record;

verus! {

/// The greatest offset that the 32-bit section holds itself.
pub const LARGE_OFFSET_THRESHOLD: u64 = 0x7fff_ffff;

/// Marks a value of the 32-bit section that is a position in the 64-bit section.
pub const HIGH_BIT: u32 = 0x8000_0000;

/// How many bytes of `s` are not greater than `b`.
pub open spec fn count_upto(s: Seq<u8>, b: int) -> nat
    decreases s.len(),
{
    if s.len() == 0 {
        0
    } else {
        count_upto(s.drop_last(), b) + if s.last() <= b {
            1nat
        } else {
            0nat
        }
    }
}

/// How many bytes of `s` are `b`.
pub open spec fn count_of(s: Seq<u8>, b: int) -> nat
    decreases s.len(),
{
    if s.len() == 0 {
        0
    } else {
        count_of(s.drop_last(), b) + if s.last() == b {
            1nat
        } else {
            0nat
        }
    }
}

proof fn lemma_count_next(s: Seq<u8>, b: int)
    ensures
        count_upto(s, b) == count_upto(s, b - 1) + count_of(s, b),
    decreases s.len(),
{
    if s.len() > 0 {
        lemma_count_next(s.drop_last(), b);
    }
}

proof fn lemma_count_bound(s: Seq<u8>, b: int)
    ensures
        count_upto(s, b) <= s.len(),
        count_of(s, b) <= s.len(),
        b < 0 ==> count_upto(s, b) == 0,
        b >= 255 ==> count_upto(s, b) == s.len(),
    decreases s.len(),
{
    if s.len() > 0 {
        lemma_count_bound(s.drop_last(), b);
    }
}

/// In an ascending sequence the count of bytes up to `b` is where those beyond it begin.
proof fn lemma_count_sorted(s: Seq<u8>, b: int, n: int)
    requires
        0 <= n <= s.len(),
        forall|i: int| 0 <= i < n ==> (#[trigger] s[i]) <= b,
        forall|i: int| n <= i < s.len() ==> (#[trigger] s[i]) > b,
    ensures
        count_upto(s, b) == n,
    decreases s.len(),
{
    if s.len() > 0 {
        let init = s.drop_last();
        let m = if n == s.len() {
            n - 1
        } else {
            n
        };
        assert forall|i: int| 0 <= i < m implies (#[trigger] init[i]) <= b by {
            assert(init[i] == s[i]);
        }
        assert forall|i: int| m <= i < init.len() implies (#[trigger] init[i]) > b by {
            assert(init[i] == s[i]);
        }
        lemma_count_sorted(init, b, m);
        assert(s.last() == s[s.len() - 1]);
    }
}

/// The fan-out table of ascending first bytes: for each byte, how many of them
/// are not greater.
pub fn fanout(first_bytes: &[u8]) -> (fan_out: [u32; 256])
    requires
        first_bytes@.len() <= u32::MAX,
        forall|i: int, j: int|
            0 <= i <= j < first_bytes@.len() ==> (#[trigger] first_bytes@[i]) <= (
            #[trigger] first_bytes@[j]),
    ensures
        forall|b: int| 0 <= b < 256 ==> #[trigger] fan_out@[b] == count_upto(first_bytes@, b),
{
    let mut fan_out: [u32; 256] = [0u32; 256];
    let n: usize = first_bytes.len();
    let mut upper_bound: usize = 0;
    let mut byte: usize = 0;
    while byte < 256
        invariant
            byte <= 256,
            upper_bound <= n,
            n == first_bytes@.len(),
            n <= u32::MAX,
            forall|i: int, j: int|
                0 <= i <= j < first_bytes@.len() ==> (#[trigger] first_bytes@[i]) <= (
                #[trigger] first_bytes@[j]),
            forall|i: int| 0 <= i < upper_bound ==> (#[trigger] first_bytes@[i]) < byte,
            forall|b: int| 0 <= b < byte ==> #[trigger] fan_out@[b] == count_upto(first_bytes@, b),
        decreases 256 - byte,
    {
        while upper_bound < n && first_bytes[upper_bound] as usize <= byte
            invariant
                upper_bound <= n,
                n == first_bytes@.len(),
                forall|i: int| 0 <= i < upper_bound ==> (#[trigger] first_bytes@[i]) <= byte,
            decreases n - upper_bound,
        {
            upper_bound = upper_bound + 1;
        }
        proof {
            assert forall|i: int| upper_bound <= i < first_bytes@.len() implies (
            #[trigger] first_bytes@[i]) > byte by {
                assert(first_bytes@[upper_bound as int] <= first_bytes@[i]);
            }
            lemma_count_sorted(first_bytes@, byte as int, upper_bound as int);
        }
        fan_out[byte] = upper_bound as u32;
        byte = byte + 1;
    }
    fan_out
}

/// The first bytes of the names of `entries`.
pub open spec fn first_bytes(entries: Seq<IndexEntry>) -> Seq<u8> {
    entries.map_values(|e: IndexEntry| e.id.bytes@[0])
}

/// The offset of the entry does not fit 31 bits.
pub open spec fn is_large(e: IndexEntry) -> bool {
    e.offset > 0x7fff_ffff
}

/// How many entries have offsets that do not fit 31 bits.
pub open spec fn large_count(entries: Seq<IndexEntry>) -> nat
    decreases entries.len(),
{
    if entries.len() == 0 {
        0
    } else {
        large_count(entries.drop_last()) + if is_large(entries.last()) {
            1nat
        } else {
            0nat
        }
    }
}

/// The value of an entry in the 32-bit section: the offset, or, marked with the
/// high bit, the position of the offset in the 64-bit section.
pub open spec fn offset32(e: IndexEntry, large_before: nat) -> nat {
    if is_large(e) {
        0x8000_0000 + large_before
    } else {
        e.offset as nat
    }
}

pub open spec fn section_ids(entries: Seq<IndexEntry>) -> Seq<u8>
    decreases entries.len(),
{
    if entries.len() == 0 {
        Seq::empty()
    } else {
        section_ids(entries.drop_last()) + entries.last().id.bytes@
    }
}

pub open spec fn section_crc32s(entries: Seq<IndexEntry>) -> Seq<u8>
    decreases entries.len(),
{
    if entries.len() == 0 {
        Seq::empty()
    } else {
        section_crc32s(entries.drop_last()) + crate::bytes::be_bytes(
            entries.last().crc32 as nat,
            4,
        )
    }
}

pub open spec fn section_offsets32(entries: Seq<IndexEntry>) -> Seq<u8>
    decreases entries.len(),
{
    if entries.len() == 0 {
        Seq::empty()
    } else {
        let init = entries.drop_last();
        section_offsets32(init) + crate::bytes::be_bytes(
            offset32(entries.last(), large_count(init)),
            4,
        )
    }
}

pub open spec fn section_offsets64(entries: Seq<IndexEntry>) -> Seq<u8>
    decreases entries.len(),
{
    if entries.len() == 0 {
        Seq::empty()
    } else {
        let front = section_offsets64(entries.drop_last());
        if is_large(entries.last()) {
            front + crate::bytes::be_bytes(entries.last().offset as nat, 8)
        } else {
            front
        }
    }
}

/// The first `n` values of the fan-out table.
pub open spec fn fan_out_table(entries: Seq<IndexEntry>, n: nat) -> Seq<u8>
    decreases n,
{
    if n == 0 {
        Seq::empty()
    } else {
        fan_out_table(entries, (n - 1) as nat) + crate::bytes::be_bytes(
            count_upto(first_bytes(entries), n - 1),
            4,
        )
    }
}

/// The signature, the version and the fan-out table.
pub open spec fn index_header(entries: Seq<IndexEntry>) -> Seq<u8> {
    seq![0xffu8, 0x74u8, 0x4fu8, 0x63u8] + crate::bytes::be_bytes(2, 4) + fan_out_table(
        entries,
        256,
    )
}

/// All of an index but the hash that closes it.
pub open spec fn index_body(entries: Seq<IndexEntry>, pack_hash: ObjectId) -> Seq<u8> {
    index_header(entries) + section_ids(entries) + section_crc32s(entries) + section_offsets32(
        entries,
    ) + section_offsets64(entries) + pack_hash.bytes@
}

/// A part of an index.
#[derive(Debug, Clone, Copy, PartialEq, Eq, Structural)]
pub enum Part {
    /// The signature, the version and the fan-out table.
    Header,
    Ids,
    Crc32s,
    Offsets32,
    Offsets64,
    /// The hash of the pack.
    PackHash,
}

/// The parts in the order in which they are written.
pub open spec fn part_order() -> Seq<Part> {
    seq![
        Part::Header,
        Part::Ids,
        Part::Crc32s,
        Part::Offsets32,
        Part::Offsets64,
        Part::PackHash,
    ]
}

/// The bytes of a part.
pub open spec fn part_bytes(part: Part, entries: Seq<IndexEntry>, pack_hash: ObjectId) -> Seq<u8> {
    match part {
        Part::Header => index_header(entries),
        Part::Ids => section_ids(entries),
        Part::Crc32s => section_crc32s(entries),
        Part::Offsets32 => section_offsets32(entries),
        Part::Offsets64 => section_offsets64(entries),
        Part::PackHash => pack_hash.bytes@,
    }
}

/// The first `n` parts, one after the other.
pub open spec fn parts_joined(n: nat, entries: Seq<IndexEntry>, pack_hash: ObjectId) -> Seq<u8>
    decreases n,
{
    if n == 0 {
        Seq::empty()
    } else {
        parts_joined((n - 1) as nat, entries, pack_hash) + part_bytes(
            part_order()[n - 1],
            entries,
            pack_hash,
        )
    }
}

/// All parts in their order make up the index, but for the hash that closes it.
pub proof fn law_parts_make_up_the_index(entries: Seq<IndexEntry>, pack_hash: ObjectId)
    ensures
        parts_joined(part_order().len(), entries, pack_hash) == index_body(entries, pack_hash),
{
    reveal_with_fuel(parts_joined, 7);
    assert(parts_joined(6, entries, pack_hash) =~= index_body(entries, pack_hash));
}

/// The part to be written after `written` parts were, if any is left.
pub fn next_part(written: usize) -> (part: Option<Part>)
    ensures
        part == if written < part_order().len() {
            Some(part_order()[written as int])
        } else {
            None
        },
{
    match written {
        0 => Some(Part::Header),
        1 => Some(Part::Ids),
        2 => Some(Part::Crc32s),
        3 => Some(Part::Offsets32),
        4 => Some(Part::Offsets64),
        5 => Some(Part::PackHash),
        _ => None,
    }
}

/// What to append to the staged sections for one entry.
#[derive(Debug)]
pub struct Staged {
    pub id: Vec<u8>,
    pub crc32: Vec<u8>,
    pub offset32: Vec<u8>,
    /// Only for an offset that does not fit 31 bits.
    pub offset64: Option<Vec<u8>>,
}

/// Encodes entries that arrive in name order.
pub struct IndexEncoder {
    fan_out_counts: [u32; 256],
    offsets64_count: u32,
    seen: u32,
    expected_entry_count: u32,
    entries: Ghost<Seq<IndexEntry>>,
}

impl IndexEncoder {
    pub closed spec fn wf(self) -> bool {
        &&& self.entries@.len() == self.seen
        &&& self.seen <= self.expected_entry_count
        &&& self.offsets64_count == large_count(self.entries@)
        &&& forall|b: int|
            0 <= b < 256 ==> #[trigger] self.fan_out_counts@[b] == count_of(
                first_bytes(self.entries@),
                b,
            )
    }

    /// The entries encoded so far.
    pub closed spec fn entries(self) -> Seq<IndexEntry> {
        self.entries@
    }

    /// How many entries there will be.
    pub closed spec fn expected(self) -> nat {
        self.expected_entry_count as nat
    }

    /// An encoder for that many entries.
    pub fn new(expected_entry_count: u32) -> (encoder: Self)
        ensures
            encoder.wf(),
            encoder.entries() == Seq::<IndexEntry>::empty(),
            encoder.expected() == expected_entry_count,
    {
        let encoder = IndexEncoder {
            fan_out_counts: [0u32; 256],
            offsets64_count: 0,
            seen: 0,
            expected_entry_count,
            entries: Ghost(Seq::empty()),
        };
        assert(first_bytes(encoder.entries@) =~= Seq::<u8>::empty());
        encoder
    }

    /// How many entries were encoded so far.
    pub fn seen(&self) -> (n: u32)
        requires
            self.wf(),
        ensures
            n == self.entries().len(),
    {
        self.seen
    }

    /// How many entries encoded so far have offsets that do not fit 31 bits.
    pub fn offsets64_count(&self) -> (n: u32)
        requires
            self.wf(),
        ensures
            n == large_count(self.entries()),
    {
        self.offsets64_count
    }

    /// Encode one more entry.
    pub fn stage(&mut self, entry: IndexEntry) -> (staged: Staged)
        requires
            old(self).wf(),
            old(self).entries().len() < old(self).expected(),
            is_large(entry) ==> large_count(old(self).entries()) < 0x7fff_ffff,
        ensures
            final(self).wf(),
            final(self).entries() == old(self).entries().push(entry),
            final(self).expected() == old(self).expected(),
            staged.id@ == entry.id.bytes@,
            staged.crc32@ == crate::bytes::be_bytes(entry.crc32 as nat, 4),
            staged.offset32@ == crate::bytes::be_bytes(
                offset32(entry, large_count(old(self).entries())),
                4,
            ),
            staged.offset64 is Some <==> is_large(entry),
            staged.offset64 matches Some(bytes) ==> bytes@ == crate::bytes::be_bytes(
                entry.offset as nat,
                8,
            ),
    {
        let ghost before = self.entries@;
        let first: usize = entry.id.first_byte() as usize;
        proof {
            lemma_count_bound(first_bytes(before), first as int);
        }
        let count: u32 = self.fan_out_counts[first];
        self.fan_out_counts[first] = count + 1;
        let mut id: Vec<u8> = Vec::new();
        entry.id.append_to(&mut id);
        let mut crc32: Vec<u8> = Vec::new();
        put_be(&mut crc32, entry.crc32 as u64, 4);
        let mut offset32_bytes: Vec<u8> = Vec::new();
        let mut offset64: Option<Vec<u8>> = None;
        if entry.offset > LARGE_OFFSET_THRESHOLD {
            let mut bytes: Vec<u8> = Vec::new();
            put_be(&mut bytes, entry.offset, 8);
            assert(bytes@ =~= crate::bytes::be_bytes(entry.offset as nat, 8));
            let c: u32 = self.offsets64_count;
            assert(c | 0x8000_0000u32 == c + 0x8000_0000u32) by (bit_vector)
                requires
                    c < 0x8000_0000u32,
            ;
            let v: u32 = c | HIGH_BIT;
            put_be(&mut offset32_bytes, v as u64, 4);
            self.offsets64_count = c + 1;
            offset64 = Some(bytes);
        } else {
            put_be(&mut offset32_bytes, entry.offset, 4);
        }
        self.seen = self.seen + 1;
        proof {
            let now = before.push(entry);
            self.entries = Ghost(now);
            assert(now.drop_last() =~= before);
            assert(first_bytes(now).drop_last() =~= first_bytes(before));
            assert(first_bytes(now).last() == entry.id.bytes@[0]);
            assert(id@ =~= entry.id.bytes@);
            assert(crc32@ =~= crate::bytes::be_bytes(entry.crc32 as nat, 4));
            assert(offset32_bytes@ =~= crate::bytes::be_bytes(
                offset32(entry, large_count(before)),
                4,
            ));
        }
        Staged { id, crc32, offset32: offset32_bytes, offset64 }
    }

    /// The header, once all entries were encoded.
    pub fn header(&self) -> (header: Vec<u8>)
        requires
            self.wf(),
            self.entries().len() == self.expected(),
        ensures
            header@ == index_header(self.entries()),
    {
        let ghost firsts = first_bytes(self.entries@);
        let mut header: Vec<u8> = Vec::new();
        header.push(0xff);
        header.push(0x74);
        header.push(0x4f);
        header.push(0x63);
        put_be(&mut header, 2, 4);
        let ghost front = header@;
        let mut acc: u32 = 0;
        let mut b: usize = 0;
        proof {
            lemma_count_bound(firsts, -1);
            assert(front + fan_out_table(self.entries@, 0) =~= front);
        }
        while b < 256
            invariant
                b <= 256,
                self.wf(),
                firsts == first_bytes(self.entries@),
                acc == count_upto(firsts, b - 1),
                header@ == front + fan_out_table(self.entries@, b as nat),
            decreases 256 - b,
        {
            proof {
                lemma_count_next(firsts, b as int);
                lemma_count_bound(firsts, b as int);
                assert(firsts.len() == self.entries@.len());
            }
            acc = acc + self.fan_out_counts[b];
            put_be(&mut header, acc as u64, 4);
            proof {
                assert(header@ =~= front + fan_out_table(self.entries@, (b + 1) as nat));
            }
            b = b + 1;
        }
        assert(header@ =~= index_header(self.entries@));
        header
    }
}

/// Staging an entry appends to every section what the section has for it.
pub proof fn lemma_sections_push(entries: Seq<IndexEntry>, e: IndexEntry)
    ensures
        section_ids(entries.push(e)) == section_ids(entries) + e.id.bytes@,
        section_crc32s(entries.push(e)) == section_crc32s(entries) + crate::bytes::be_bytes(
            e.crc32 as nat,
            4,
        ),
        section_offsets32(entries.push(e)) == section_offsets32(entries) + crate::bytes::be_bytes(
            offset32(e, large_count(entries)),
            4,
        ),
        section_offsets64(entries.push(e)) == if is_large(e) {
            section_offsets64(entries) + crate::bytes::be_bytes(e.offset as nat, 8)
        } else {
            section_offsets64(entries)
        },
{
    assert(entries.push(e).drop_last() =~= entries);
}

proof fn lemma_section_lens(entries: Seq<IndexEntry>)
    ensures
        section_ids(entries).len() == 20 * entries.len(),
        section_crc32s(entries).len() == 4 * entries.len(),
        section_offsets32(entries).len() == 4 * entries.len(),
        section_offsets64(entries).len() == 8 * large_count(entries),
        large_count(entries) <= entries.len(),
    decreases entries.len(),
{
    if entries.len() > 0 {
        let init = entries.drop_last();
        lemma_section_lens(init);
        crate::bytes::lemma_be_len(entries.last().crc32 as nat, 4);
        crate::bytes::lemma_be_len(offset32(entries.last(), large_count(init)), 4);
        crate::bytes::lemma_be_len(entries.last().offset as nat, 8);
    }
}

proof fn lemma_fan_out_len(entries: Seq<IndexEntry>, n: nat)
    ensures
        fan_out_table(entries, n).len() == 4 * n,
    decreases n,
{
    if n > 0 {
        lemma_fan_out_len(entries, (n - 1) as nat);
        crate::bytes::lemma_be_len(count_upto(first_bytes(entries), n - 1), 4);
    }
}

/// No index is longer than a `u64` counts.
proof fn lemma_parts_len(n: nat, entries: Seq<IndexEntry>, pack_hash: ObjectId)
    requires
        n <= part_order().len(),
        entries.len() <= u32::MAX,
    ensures
        parts_joined(n, entries, pack_hash).len() <= u64::MAX,
{
    lemma_section_lens(entries);
    lemma_fan_out_len(entries, 256);
    crate::bytes::lemma_be_len(2, 4);
    reveal_with_fuel(parts_joined, 7);
}

/// The first `n` entries have no more large offsets than all of them.
proof fn lemma_large_count_take(entries: Seq<IndexEntry>, n: int)
    requires
        0 <= n <= entries.len(),
    ensures
        large_count(entries.take(n)) <= large_count(entries),
        n < entries.len() && is_large(entries[n]) ==> large_count(entries.take(n)) < large_count(
            entries,
        ),
    decreases entries.len() - n,
{
    if n < entries.len() {
        lemma_large_count_take(entries, n + 1);
        assert(entries.take(n + 1).drop_last() =~= entries.take(n));
        assert(entries.take(n + 1).last() == entries[n]);
    } else {
        assert(entries.take(n) =~= entries);
    }
}

/// Append the index of `sorted`, entries in ascending name order, to `out`, and
/// return the hash that closes it.
///
/// Returns nothing, and leaves `out` without the closing hash, if the bytes look
/// like an attempt to forge a hash.
pub fn write_to(out: &mut Vec<u8>, sorted: &Vec<IndexEntry>, pack_hash: &ObjectId) -> (hash: Option<
    ObjectId,
>)
    requires
        sorted@.len() <= u32::MAX,
        large_count(sorted@) <= 0x7fff_ffff,
    ensures
        hash == crate::hash::digest_of(index_body(sorted@, *pack_hash)),
        match hash {
            Some(id) => final(out)@ == old(out)@ + index_body(sorted@, *pack_hash) + id.bytes@,
            None => final(out)@ == old(out)@ + index_body(sorted@, *pack_hash),
        },
{
    let ghost entries = sorted@;
    let mut encoder = IndexEncoder::new(sorted.len() as u32);
    let mut ids: Vec<u8> = Vec::new();
    let mut crc32s: Vec<u8> = Vec::new();
    let mut offsets32: Vec<u8> = Vec::new();
    let mut offsets64: Vec<u8> = Vec::new();
    let mut i: usize = 0;
    assert(entries.take(0) =~= Seq::<IndexEntry>::empty());
    while i < sorted.len()
        invariant
            i <= sorted.len(),
            entries == sorted@,
            encoder.wf(),
            encoder.entries() == entries.take(i as int),
            encoder.expected() == entries.len(),
            large_count(entries) <= 0x7fff_ffff,
            ids@ == section_ids(entries.take(i as int)),
            crc32s@ == section_crc32s(entries.take(i as int)),
            offsets32@ == section_offsets32(entries.take(i as int)),
            offsets64@ == section_offsets64(entries.take(i as int)),
        decreases sorted.len() - i,
    {
        let entry = sorted[i];
        proof {
            lemma_large_count_take(entries, i as int);
            lemma_sections_push(entries.take(i as int), entry);
            assert(entries.take(i as int).push(entry) =~= entries.take(i + 1));
        }
        let mut staged = encoder.stage(entry);
        ids.append(&mut staged.id);
        crc32s.append(&mut staged.crc32);
        offsets32.append(&mut staged.offset32);
        match staged.offset64 {
            Some(mut bytes) => {
                offsets64.append(&mut bytes);
            },
            None => {},
        }
        i = i + 1;
    }
    assert(entries.take(entries.len() as int) =~= entries);
    let header = encoder.header();
    let mut sink = HashedOutput::new();
    let ghost before = out@;
    let mut written: usize = 0;
    loop
        invariant
            written <= part_order().len(),
            entries.len() <= u32::MAX,
            entries == sorted@,
            header@ == index_header(entries),
            ids@ == section_ids(entries),
            crc32s@ == section_crc32s(entries),
            offsets32@ == section_offsets32(entries),
            offsets64@ == section_offsets64(entries),
            sink.wf(),
            sink.emitted() == parts_joined(written as nat, entries, *pack_hash),
            out@ == before + sink.emitted(),
        ensures
            written == part_order().len(),
            sink.emitted() == parts_joined(written as nat, entries, *pack_hash),
            out@ == before + sink.emitted(),
        decreases part_order().len() - written,
    {
        let part = match next_part(written) {
            Some(part) => part,
            None => {
                break;
            },
        };
        let bytes: &[u8] = match part {
            Part::Header => header.as_slice(),
            Part::Ids => ids.as_slice(),
            Part::Crc32s => crc32s.as_slice(),
            Part::Offsets32 => offsets32.as_slice(),
            Part::Offsets64 => offsets64.as_slice(),
            Part::PackHash => pack_hash.bytes.as_slice(),
        };
        proof {
            lemma_parts_len(written as nat, entries, *pack_hash);
            lemma_parts_len((written + 1) as nat, entries, *pack_hash);
        }
        sink.write(bytes);
        out.extend_from_slice(bytes);
        written = written + 1;
        proof {
            assert(out@ =~= before + sink.emitted());
        }
    }
    proof {
        law_parts_make_up_the_index(entries, *pack_hash);
    }
    let hash = sink.finalize();
    match &hash {
        Some(id) => {
            id.append_to(out);
        },
        None => {},
    }
    hash
}

/// The index depends on the objects alone: however they were divided into runs
/// while they were sorted, the bytes are the same.
pub proof fn law_index_is_independent_of_runs(
    a: Seq<IndexEntry>,
    b: Seq<IndexEntry>,
    objects: Seq<IndexEntry>,
    pack_hash: ObjectId,
)
    requires
        crate::sort::stably_sorted(a, objects),
        crate::sort::stably_sorted(b, objects),
    ensures
        index_body(a, pack_hash) == index_body(b, pack_hash),
{
    crate::sort::law_stable_order_is_unique(a, b, objects);
}

/// The index of a pack in which no object occurs twice depends on nothing but its
/// objects: not on the order in which they were resolved, and not on the memory
/// that there was to sort them.
pub proof fn law_index_depends_on_objects_only(
    a: Seq<IndexEntry>,
    x: Seq<IndexEntry>,
    b: Seq<IndexEntry>,
    y: Seq<IndexEntry>,
    pack_hash: ObjectId,
)
    requires
        crate::sort::stably_sorted(a, x),
        crate::sort::stably_sorted(b, y),
        crate::sort::keys_distinct(x),
        crate::sort::keys_distinct(y),
        forall|e: IndexEntry| #[trigger] x.contains(e) <==> y.contains(e),
    ensures
        index_body(a, pack_hash) == index_body(b, pack_hash),
{
    crate::sort::law_distinct_keys_have_one_order(a, x, b, y);
}

/// The name and the CRC32 of entry `i` stand in their sections at place `i`.
pub proof fn law_index_holds_names_and_crc32s(entries: Seq<IndexEntry>, i: int)
    requires
        0 <= i < entries.len(),
    ensures
        section_ids(entries).subrange(20 * i, 20 * i + 20) == entries[i].id.bytes@,
        crate::bytes::be_value(section_crc32s(entries).subrange(4 * i, 4 * i + 4))
            == entries[i].crc32,
    decreases entries.len(),
{
    let init = entries.drop_last();
    lemma_section_lens(init);
    lemma_section_lens(entries);
    crate::bytes::lemma_range_of();
    crate::bytes::lemma_be_roundtrip(entries.last().crc32 as nat, 4);
    if i == entries.len() - 1 {
        assert(section_ids(entries).subrange(20 * i, 20 * i + 20) =~= entries[i].id.bytes@);
        assert(section_crc32s(entries).subrange(4 * i, 4 * i + 4) =~= crate::bytes::be_bytes(
            entries[i].crc32 as nat,
            4,
        ));
    } else {
        law_index_holds_names_and_crc32s(init, i);
        assert(section_ids(entries).subrange(20 * i, 20 * i + 20) =~= section_ids(init).subrange(
            20 * i,
            20 * i + 20,
        ));
        assert(section_crc32s(entries).subrange(4 * i, 4 * i + 4) =~= section_crc32s(
            init,
        ).subrange(4 * i, 4 * i + 4));
    }
}

/// The offset of entry `i` can be read back: it is the value at place `i` of the
/// 32-bit section or, if that has its high bit set, the value of the 64-bit
/// section at the place that the other bits name.
pub proof fn law_index_holds_offsets(entries: Seq<IndexEntry>, i: int)
    requires
        0 <= i < entries.len(),
        large_count(entries) <= 0x7fff_ffff,
    ensures
        ({
            let v = crate::bytes::be_value(section_offsets32(entries).subrange(4 * i, 4 * i + 4));
            if v < 0x8000_0000 {
                entries[i].offset == v
            } else {
                let at = 8 * (v - 0x8000_0000);
                &&& at + 8 <= section_offsets64(entries).len()
                &&& crate::bytes::be_value(section_offsets64(entries).subrange(at, at + 8))
                    == entries[i].offset
            }
        }),
    decreases entries.len(),
{
    let init = entries.drop_last();
    let last = entries.last();
    lemma_section_lens(init);
    lemma_section_lens(entries);
    crate::bytes::lemma_range_of();
    crate::bytes::lemma_be_roundtrip(offset32(last, large_count(init)), 4);
    crate::bytes::lemma_be_roundtrip(last.offset as nat, 8);
    let s32 = section_offsets32(entries);
    let s64 = section_offsets64(entries);
    if i == entries.len() - 1 {
        assert(s32.subrange(4 * i, 4 * i + 4) =~= crate::bytes::be_bytes(
            offset32(last, large_count(init)),
            4,
        ));
        if is_large(last) {
            let at = 8 * large_count(init) as int;
            assert(s64.subrange(at, at + 8) =~= crate::bytes::be_bytes(last.offset as nat, 8));
        }
    } else {
        law_index_holds_offsets(init, i);
        assert(s32.subrange(4 * i, 4 * i + 4) =~= section_offsets32(init).subrange(
            4 * i,
            4 * i + 4,
        ));
        let v = crate::bytes::be_value(s32.subrange(4 * i, 4 * i + 4));
        if v >= 0x8000_0000 {
            let at = 8 * (v - 0x8000_0000);
            assert(s64.subrange(at, at + 8) =~= section_offsets64(init).subrange(at, at + 8));
        }
    }
}

/// The fan-out table brackets every name by its first byte: entry `i` lies
/// between the counts for the byte before its first one and for its first one.
pub proof fn law_fan_out_brackets_names(entries: Seq<IndexEntry>, i: int)
    requires
        0 <= i < entries.len(),
        crate::sort::sorted(entries),
    ensures
        ({
            let b = entries[i].id.bytes@[0] as int;
            count_upto(first_bytes(entries), b - 1) <= i < count_upto(first_bytes(entries), b)
        }),
{
    let firsts = first_bytes(entries);
    let b = entries[i].id.bytes@[0] as int;
    assert forall|x: int, y: int| 0 <= x <= y < firsts.len() implies (#[trigger] firsts[x]) <= (
    #[trigger] firsts[y]) by {
        assert(entries[x].key() <= entries[y].key());
        crate::object::law_first_byte_orders(entries[x].id, entries[y].id);
    }
    assert(firsts[i] == b);
    lemma_sorted_count(firsts, b);
    lemma_sorted_count(firsts, b - 1);
    let hi = count_upto(firsts, b) as int;
    let lo = count_upto(firsts, b - 1) as int;
    if i >= hi {
        assert(firsts[i] > b);
    }
    if i < lo {
        assert(firsts[i] <= b - 1);
    }
}

/// The big-endian number in the four bytes of `s` from `at` on.
pub open spec fn u32_at(s: Seq<u8>, at: int) -> nat {
    crate::bytes::be_value(s.subrange(at, at + 4))
}

/// What is counted are the entries with such a first byte.
proof fn lemma_count_is_filter(
    entries: Seq<IndexEntry>,
    b: int,
    pred: spec_fn(IndexEntry) -> bool,
)
    requires
        forall|e: IndexEntry| #[trigger] pred(e) <==> e.id.bytes@[0] <= b,
    ensures
        count_upto(first_bytes(entries), b) == entries.filter(pred).len(),
    decreases entries.len(),
{
    reveal(Seq::filter);
    if entries.len() > 0 {
        let init = entries.drop_last();
        lemma_count_is_filter(init, b, pred);
        assert(first_bytes(entries).drop_last() =~= first_bytes(init));
        assert(first_bytes(entries).last() == entries.last().id.bytes@[0]);
        assert(pred(entries.last()) <==> entries.last().id.bytes@[0] <= b);
    } else {
        assert(first_bytes(entries) =~= Seq::<u8>::empty());
    }
}

/// What is counted are the entries with such an offset.
proof fn lemma_large_count_is_filter(
    entries: Seq<IndexEntry>,
    pred: spec_fn(IndexEntry) -> bool,
)
    requires
        forall|e: IndexEntry| #[trigger] pred(e) <==> e.offset > 0x7fff_ffff,
    ensures
        large_count(entries) == entries.filter(pred).len(),
    decreases entries.len(),
{
    reveal(Seq::filter);
    if entries.len() > 0 {
        lemma_large_count_is_filter(entries.drop_last(), pred);
        assert(pred(entries.last()) <==> is_large(entries.last()));
    }
}

/// Value `b` of the fan-out table stands at its place.
proof fn lemma_fan_out_at(entries: Seq<IndexEntry>, n: nat, b: int)
    requires
        0 <= b < n,
        entries.len() <= u32::MAX,
    ensures
        u32_at(fan_out_table(entries, n), 4 * b) == count_upto(first_bytes(entries), b),
    decreases n,
{
    let m = (n - 1) as nat;
    let table = fan_out_table(entries, n);
    let count = count_upto(first_bytes(entries), n - 1);
    lemma_fan_out_len(entries, m);
    lemma_fan_out_len(entries, n);
    lemma_count_bound(first_bytes(entries), n - 1);
    crate::bytes::lemma_range_of();
    crate::bytes::lemma_be_roundtrip(count, 4);
    if b == m {
        assert(table.subrange(4 * b, 4 * b + 4) =~= crate::bytes::be_bytes(count, 4));
    } else {
        lemma_fan_out_at(entries, m, b);
        assert(table.subrange(4 * b, 4 * b + 4) =~= fan_out_table(entries, m).subrange(
            4 * b,
            4 * b + 4,
        ));
    }
}

/// Where the header and the sections stand in an index.
proof fn lemma_sections_in_index(entries: Seq<IndexEntry>, pack_hash: ObjectId)
    ensures
        ({
            let body = index_body(entries, pack_hash);
            let n = entries.len() as int;
            let large = 8 * large_count(entries) as int;
            &&& body.len() == 1052 + 28 * n + large
            &&& body.subrange(0, 1032) == index_header(entries)
            &&& body.subrange(1032, 1032 + 20 * n) == section_ids(entries)
            &&& body.subrange(1032 + 20 * n, 1032 + 24 * n) == section_crc32s(entries)
            &&& body.subrange(1032 + 24 * n, 1032 + 28 * n) == section_offsets32(entries)
            &&& body.subrange(1032 + 28 * n, 1032 + 28 * n + large) == section_offsets64(entries)
            &&& body.subrange(1032 + 28 * n + large, 1052 + 28 * n + large) == pack_hash.bytes@
        }),
{
    let body = index_body(entries, pack_hash);
    let n = entries.len() as int;
    let large = 8 * large_count(entries) as int;
    lemma_section_lens(entries);
    lemma_fan_out_len(entries, 256);
    crate::bytes::lemma_be_len(2, 4);
    assert(body.subrange(0, 1032) =~= index_header(entries));
    assert(body.subrange(1032, 1032 + 20 * n) =~= section_ids(entries));
    assert(body.subrange(1032 + 20 * n, 1032 + 24 * n) =~= section_crc32s(entries));
    assert(body.subrange(1032 + 24 * n, 1032 + 28 * n) =~= section_offsets32(entries));
    assert(body.subrange(1032 + 28 * n, 1032 + 28 * n + large) =~= section_offsets64(entries));
    assert(body.subrange(1032 + 28 * n + large, 1052 + 28 * n + large) =~= pack_hash.bytes@);
}

/// For every byte, the index says how many names begin with that byte or a
/// smaller one: the number at that place of the fan-out table is how many such
/// entries there are. For the greatest byte that is all of them.
pub proof fn law_fan_out_counts_names(entries: Seq<IndexEntry>, pack_hash: ObjectId, b: int)
    requires
        0 <= b < 256,
        entries.len() <= u32::MAX,
    ensures
        u32_at(index_header(entries), 8 + 4 * b) == entries.filter(
            |e: IndexEntry| e.id.bytes@[0] <= b,
        ).len(),
        u32_at(index_body(entries, pack_hash), 8 + 4 * b) == entries.filter(
            |e: IndexEntry| e.id.bytes@[0] <= b,
        ).len(),
        u32_at(index_body(entries, pack_hash), 8 + 4 * 255int) == entries.len(),
{
    let pred = |e: IndexEntry| e.id.bytes@[0] <= b;
    let header = index_header(entries);
    let body = index_body(entries, pack_hash);
    lemma_sections_in_index(entries, pack_hash);
    lemma_fan_out_len(entries, 256);
    crate::bytes::lemma_be_len(2, 4);
    lemma_count_is_filter(entries, b, pred);
    lemma_fan_out_at(entries, 256, b);
    lemma_fan_out_at(entries, 256, 255);
    lemma_count_bound(first_bytes(entries), 255);
    assert forall|c: int| 0 <= c < 256 implies #[trigger] u32_at(body, 8 + 4 * c) == u32_at(
        header,
        8 + 4 * c,
    ) && u32_at(header, 8 + 4 * c) == u32_at(fan_out_table(entries, 256), 4 * c) by {
        assert(header.subrange(8 + 4 * c, 12 + 4 * c) =~= fan_out_table(entries, 256).subrange(
            4 * c,
            4 * c + 4,
        ));
        assert(body.subrange(8 + 4 * c, 12 + 4 * c) =~= body.subrange(0, 1032).subrange(
            8 + 4 * c,
            12 + 4 * c,
        ));
    }
    assert(u32_at(body, 8 + 4 * b) == u32_at(header, 8 + 4 * b));
    assert(u32_at(body, 8 + 4 * 255int) == u32_at(header, 8 + 4 * 255int));
}

/// A name is found between two values of the fan-out table that is written, the
/// one for the byte before its first byte and the one for its first byte: of
/// entries in the order of their names, those below the value for a byte are the
/// ones whose names begin with that byte or a smaller one.
pub proof fn law_fan_out_leads_to_names(entries: Seq<IndexEntry>, pack_hash: ObjectId, i: int)
    requires
        0 <= i < entries.len() <= u32::MAX,
        forall|x: int, y: int|
            0 <= x <= y < entries.len() ==> (#[trigger] entries[x]).id.bytes@[0] <= (
            #[trigger] entries[y]).id.bytes@[0],
    ensures
        forall|b: int|
            0 <= b < 256 ==> (i < #[trigger] u32_at(index_body(entries, pack_hash), 8 + 4 * b)
                <==> entries[i].id.bytes@[0] <= b),
        ({
            let body = index_body(entries, pack_hash);
            let b = entries[i].id.bytes@[0] as int;
            &&& i < u32_at(body, 8 + 4 * b)
            &&& b > 0 ==> u32_at(body, 4 + 4 * b) <= i
        }),
{
    let body = index_body(entries, pack_hash);
    let firsts = first_bytes(entries);
    assert forall|x: int, y: int| 0 <= x <= y < firsts.len() implies (#[trigger] firsts[x]) <= (
    #[trigger] firsts[y]) by {
        assert(entries[x].id.bytes@[0] <= entries[y].id.bytes@[0]);
    }
    assert forall|b: int| 0 <= b < 256 implies (i < #[trigger] u32_at(body, 8 + 4 * b)
        <==> entries[i].id.bytes@[0] <= b) by {
        law_fan_out_counts_names(entries, pack_hash, b);
        lemma_count_is_filter(entries, b, |e: IndexEntry| e.id.bytes@[0] <= b);
        lemma_sorted_count(firsts, b);
        assert(firsts[i] == entries[i].id.bytes@[0]);
    }
    let b = entries[i].id.bytes@[0] as int;
    assert(i < u32_at(body, 8 + 4 * b));
    if b > 0 {
        assert(8 + 4 * (b - 1) == 4 + 4 * b);
        assert(!(i < u32_at(body, 8 + 4 * (b - 1))));
    }
}

/// An index begins with its signature and its version, has room for 24 bytes and
/// a 32-bit offset of every entry and for the 64-bit offsets of those beyond
/// 31 bits, and closes with the hash of the pack.
pub proof fn law_index_begins_and_ends(entries: Seq<IndexEntry>, pack_hash: ObjectId)
    ensures
        ({
            let body = index_body(entries, pack_hash);
            let large = entries.filter(|e: IndexEntry| e.offset > 0x7fff_ffff).len();
            &&& body.subrange(0, 4) == seq![0xffu8, 0x74u8, 0x4fu8, 0x63u8]
            &&& u32_at(body, 4) == 2
            &&& body.len() == 8 + 4 * 256 + (20 + 4 + 4) * entries.len() + 8 * large + 20
            &&& body.subrange(body.len() - 20, body.len() as int) == pack_hash.bytes@
        }),
{
    let body = index_body(entries, pack_hash);
    lemma_sections_in_index(entries, pack_hash);
    lemma_large_count_is_filter(entries, |e: IndexEntry| e.offset > 0x7fff_ffff);
    lemma_fan_out_len(entries, 256);
    crate::bytes::lemma_range_of();
    crate::bytes::lemma_be_roundtrip(2, 4);
    assert(body.subrange(0, 4) =~= body.subrange(0, 1032).subrange(0, 4));
    assert(index_header(entries).subrange(0, 4) =~= seq![0xffu8, 0x74u8, 0x4fu8, 0x63u8]);
    assert(body.subrange(4, 8) =~= body.subrange(0, 1032).subrange(4, 8));
    assert(index_header(entries).subrange(4, 8) =~= crate::bytes::be_bytes(2, 4));
}

/// Everything that is known of entry `i` can be read from the index: its name
/// from the 20 bytes at its place, its CRC32 and its offset from the four bytes
/// at its place of their sections. An offset that does not fit 31 bits stands in
/// the last section instead, behind as many others as come before it, and the
/// four bytes name that place, with the high bit set.
pub proof fn law_index_holds_entries(entries: Seq<IndexEntry>, pack_hash: ObjectId, i: int)
    requires
        0 <= i < entries.len(),
        large_count(entries) <= 0x7fff_ffff,
    ensures
        ({
            let body = index_body(entries, pack_hash);
            let n = entries.len() as int;
            let e = entries[i];
            let v = u32_at(body, 1032 + 24 * n + 4 * i);
            let before = entries.take(i).filter(|e: IndexEntry| e.offset > 0x7fff_ffff).len() as int;
            let at = 1032 + 28 * n + 8 * before;
            &&& body.subrange(1032 + 20 * i, 1052 + 20 * i) == e.id.bytes@
            &&& u32_at(body, 1032 + 20 * n + 4 * i) == e.crc32
            &&& e.offset <= 0x7fff_ffff ==> v == e.offset
            &&& e.offset > 0x7fff_ffff ==> {
                &&& v == 0x8000_0000 + before
                &&& at + 8 <= body.len() - 20
                &&& crate::bytes::be_value(body.subrange(at, at + 8)) == e.offset
            }
        }),
{
    let body = index_body(entries, pack_hash);
    let n = entries.len() as int;
    let e = entries[i];
    let large = 8 * large_count(entries) as int;
    let before = large_count(entries.take(i)) as int;
    lemma_sections_in_index(entries, pack_hash);
    lemma_section_lens(entries);
    lemma_large_count_is_filter(entries.take(i), |e: IndexEntry| e.offset > 0x7fff_ffff);
    lemma_large_count_take(entries, i);
    law_index_holds_names_and_crc32s(entries, i);
    lemma_offset_at(entries, i);
    assert(body.subrange(1032 + 20 * i, 1052 + 20 * i) =~= section_ids(entries).subrange(
        20 * i,
        20 * i + 20,
    ));
    let crc = 1032 + 20 * n + 4 * i;
    assert(body.subrange(crc, crc + 4) =~= section_crc32s(entries).subrange(4 * i, 4 * i + 4));
    let off = 1032 + 24 * n + 4 * i;
    assert(body.subrange(off, off + 4) =~= section_offsets32(entries).subrange(4 * i, 4 * i + 4));
    if is_large(e) {
        let at = 1032 + 28 * n + 8 * before;
        assert(body.subrange(at, at + 8) =~= section_offsets64(entries).subrange(
            8 * before,
            8 * before + 8,
        ));
    }
}

/// What the sections hold of the offset of entry `i`.
proof fn lemma_offset_at(entries: Seq<IndexEntry>, i: int)
    requires
        0 <= i < entries.len(),
        large_count(entries) <= 0x7fff_ffff,
    ensures
        ({
            let v = u32_at(section_offsets32(entries), 4 * i);
            let at = 8 * large_count(entries.take(i)) as int;
            &&& v == offset32(entries[i], large_count(entries.take(i)))
            &&& is_large(entries[i]) ==> {
                &&& at + 8 <= section_offsets64(entries).len()
                &&& crate::bytes::be_value(section_offsets64(entries).subrange(at, at + 8))
                    == entries[i].offset
            }
        }),
    decreases entries.len(),
{
    let init = entries.drop_last();
    let last = entries.last();
    lemma_section_lens(init);
    lemma_section_lens(entries);
    crate::bytes::lemma_range_of();
    crate::bytes::lemma_be_roundtrip(offset32(last, large_count(init)), 4);
    crate::bytes::lemma_be_roundtrip(last.offset as nat, 8);
    let s32 = section_offsets32(entries);
    let s64 = section_offsets64(entries);
    let at = 8 * large_count(entries.take(i)) as int;
    if i == entries.len() - 1 {
        assert(entries.take(i) =~= init);
        assert(s32.subrange(4 * i, 4 * i + 4) =~= crate::bytes::be_bytes(
            offset32(last, large_count(init)),
            4,
        ));
        if is_large(last) {
            assert(s64.subrange(at, at + 8) =~= crate::bytes::be_bytes(last.offset as nat, 8));
        }
    } else {
        lemma_offset_at(init, i);
        assert(entries.take(i) =~= init.take(i));
        assert(s32.subrange(4 * i, 4 * i + 4) =~= section_offsets32(init).subrange(
            4 * i,
            4 * i + 4,
        ));
        if is_large(entries[i]) {
            assert(s64.subrange(at, at + 8) =~= section_offsets64(init).subrange(at, at + 8));
        }
    }
}

/// In an ascending sequence, the bytes up to `b` come first.
proof fn lemma_sorted_count(s: Seq<u8>, b: int)
    requires
        forall|x: int, y: int| 0 <= x <= y < s.len() ==> (#[trigger] s[x]) <= (#[trigger] s[y]),
    ensures
        count_upto(s, b) <= s.len(),
        forall|x: int| 0 <= x < count_upto(s, b) ==> (#[trigger] s[x]) <= b,
        forall|x: int| count_upto(s, b) <= x < s.len() ==> (#[trigger] s[x]) > b,
    decreases s.len(),
{
    if s.len() > 0 {
        let init = s.drop_last();
        assert forall|x: int, y: int| 0 <= x <= y < init.len() implies (#[trigger] init[x]) <= (
        #[trigger] init[y]) by {
            assert(s[x] <= s[y]);
        }
        lemma_sorted_count(init, b);
        let n = count_upto(init, b) as int;
        assert forall|x: int| 0 <= x < init.len() implies (#[trigger] s[x]) == init[x] by {}
        if s.last() <= b {
            assert forall|x: int| 0 <= x < init.len() implies (#[trigger] s[x]) <= b by {
                assert(s[x] <= s[s.len() - 1]);
            }
            if n < init.len() {
                assert(init[n] > b);
                assert(s[n] <= b);
            }
        }
    }
}

} // verus!
