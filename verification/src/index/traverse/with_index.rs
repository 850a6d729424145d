//! Statistics of all objects of a pack, gathered in the order of the delta tree.
use std::collections::BTreeMap;

use vstd::prelude::*;

use crate::object::{Kind, ObjectId};

verus! {

/// How to traverse.
pub struct Options {
    /// If set, use no more than that many threads.
    pub thread_limit: Option<usize>,
    /// Whether an object that cannot be decoded ends the traversal.
    pub fatal_decode_error: bool,
}

impl Default for Options {
    fn default() -> (options: Self)
        ensures
            options.thread_limit is None,
            options.fatal_decode_error,
    {
        Options { thread_limit: None, fatal_decode_error: true }
    }
}

/// The steps of a traversal that report progress.
#[derive(Debug, Copy, Clone)]
pub enum ProgressId {
    /// The amount of bytes hashed of the pack.
    HashPackDataBytes,
    /// The amount of bytes hashed of the index.
    HashPackIndexBytes,
    /// The amount of index entries put in the order of the pack.
    CollectSortedIndexEntries,
    /// The amount of objects put into the delta tree.
    TreeFromOffsetsObjects,
    /// The amount of objects which were decoded.
    DecodedObjects,
    /// The amount of bytes of all decoded objects.
    DecodedBytes,
}

/// The four letters that a step is known by.
pub open spec fn id_of(step: ProgressId) -> Seq<u8> {
    match step {
        ProgressId::HashPackDataBytes => seq![0x50u8, 0x54, 0x48, 0x50],
        ProgressId::HashPackIndexBytes => seq![0x50u8, 0x54, 0x48, 0x49],
        ProgressId::CollectSortedIndexEntries => seq![0x50u8, 0x54, 0x43, 0x45],
        ProgressId::TreeFromOffsetsObjects => seq![0x50u8, 0x54, 0x44, 0x49],
        ProgressId::DecodedObjects => seq![0x50u8, 0x54, 0x52, 0x4f],
        ProgressId::DecodedBytes => seq![0x50u8, 0x54, 0x44, 0x42],
    }
}

/// No two steps are known by the same letters, so that the progress of interest
/// can be picked out by them.
pub proof fn law_steps_have_ids_of_their_own()
    ensures
        forall|a: ProgressId, b: ProgressId| a != b ==> #[trigger] id_of(a) != #[trigger] id_of(b),
{
    assert forall|a: ProgressId, b: ProgressId| a != b implies #[trigger] id_of(a)
        != #[trigger] id_of(b) by {
        assert(id_of(a)[2] != id_of(b)[2] || id_of(a)[3] != id_of(b)[3]);
    }
}

impl ProgressId {
    /// The four letters that a step is known by.
    pub fn id(self) -> (id: [u8; 4])
        ensures
            id@ == id_of(self),
    {
        let id: [u8; 4] = match self {
            ProgressId::HashPackDataBytes => [0x50, 0x54, 0x48, 0x50],
            ProgressId::HashPackIndexBytes => [0x50, 0x54, 0x48, 0x49],
            ProgressId::CollectSortedIndexEntries => [0x50, 0x54, 0x43, 0x45],
            ProgressId::TreeFromOffsetsObjects => [0x50, 0x54, 0x44, 0x49],
            ProgressId::DecodedObjects => [0x50, 0x54, 0x52, 0x4f],
            ProgressId::DecodedBytes => [0x50, 0x54, 0x44, 0x42],
        };
        assert(id@ =~= id_of(self));
        id
    }
}

/// An entry of an index.
#[derive(Clone, Copy, Debug)]
pub struct Entry {
    pub oid: ObjectId,
    /// Where the object's entry begins in the pack.
    pub pack_offset: u64,
    pub crc32: Option<u32>,
}

/// The entry at `offset`, among entries in ascending offset order.
pub fn find_by_offset(sorted_entries: &Vec<Entry>, offset: u64) -> (at: Option<usize>)
    requires
        forall|i: int, j: int|
            0 <= i <= j < sorted_entries@.len() ==> (#[trigger] sorted_entries@[i]).pack_offset <= (
            #[trigger] sorted_entries@[j]).pack_offset,
    ensures
        match at {
            Some(i) => i < sorted_entries@.len() && sorted_entries@[i as int].pack_offset
                == offset,
            None => forall|i: int|
                0 <= i < sorted_entries@.len() ==> (#[trigger] sorted_entries@[i]).pack_offset
                    != offset,
        },
{
    let mut lo: usize = 0;
    let mut hi: usize = sorted_entries.len();
    while lo < hi
        invariant
            lo <= hi <= sorted_entries@.len(),
            forall|i: int, j: int|
                0 <= i <= j < sorted_entries@.len() ==> (#[trigger] sorted_entries@[i]).pack_offset
                    <= (#[trigger] sorted_entries@[j]).pack_offset,
            forall|i: int| 0 <= i < lo ==> (#[trigger] sorted_entries@[i]).pack_offset < offset,
            forall|i: int|
                hi <= i < sorted_entries@.len() ==> (#[trigger] sorted_entries@[i]).pack_offset
                    > offset,
        decreases hi - lo,
    {
        let mid: usize = lo + (hi - lo) / 2;
        let found: u64 = sorted_entries[mid].pack_offset;
        if found == offset {
            return Some(mid);
        } else if found < offset {
            lo = mid + 1;
        } else {
            hi = mid;
        }
    }
    None
}

/// What handling an object came to.
#[derive(Clone, Copy, Debug, PartialEq, Eq, Structural)]
pub enum Processed {
    Done,
    /// The object could not be decoded.
    DecodeError,
    /// Anything else went wrong.
    OtherError,
}

/// Whether the traversal ends there. An object that could not be decoded is
/// passed over, and counted, unless that is said to be fatal.
pub fn ends_traversal(result: Processed, fatal_decode_error: bool) -> (r: bool)
    ensures
        r == match result {
            Processed::Done => false,
            Processed::DecodeError => fatal_decode_error,
            Processed::OtherError => true,
        },
{
    match result {
        Processed::Done => false,
        Processed::DecodeError => fatal_decode_error,
        Processed::OtherError => true,
    }
}

/// What is known of one object.
#[derive(Clone, Copy, Debug)]
pub struct Sample {
    pub kind: Kind,
    /// The size of the object's data in the pack.
    pub compressed_size: u64,
    /// The size of the entry's data once it is decompressed.
    pub decompressed_size: u64,
    /// The size of the object itself.
    pub object_size: u64,
    /// How many bases the object is built upon.
    pub level: u16,
}

/// The sample of an object whose entry's data begins at `data_offset` and ends at
/// `entry_end`.
pub fn sample(
    kind: Kind,
    data_offset: u64,
    entry_end: u64,
    decompressed_size: u64,
    object_size: u64,
    level: u16,
) -> (s: Sample)
    requires
        data_offset <= entry_end,
    ensures
        s == (Sample {
            kind,
            compressed_size: (entry_end - data_offset) as u64,
            decompressed_size,
            object_size,
            level,
        }),
{
    Sample {
        kind,
        compressed_size: entry_end - data_offset,
        decompressed_size,
        object_size,
        level,
    }
}

/// Sums, and later averages, over all objects.
#[derive(Clone, Copy, Debug)]
pub struct Average {
    pub num_deltas: u32,
    pub decompressed_size: u64,
    pub compressed_size: u64,
    pub object_size: u64,
}

/// Statistics of a pack.
pub struct Statistics {
    pub average: Average,
    /// How many objects are built upon that many bases.
    pub objects_per_chain_length: BTreeMap<u32, u32>,
    pub total_compressed_entries_size: u64,
    pub total_decompressed_entries_size: u64,
    pub total_object_size: u64,
    pub pack_size: u64,
    pub num_commits: u32,
    pub num_trees: u32,
    pub num_tags: u32,
    pub num_blobs: u32,
    /// How many objects there are.
    pub num_nodes: u64,
    pub samples: Ghost<Seq<Sample>>,
}

pub open spec fn sum_compressed(samples: Seq<Sample>) -> nat
    decreases samples.len(),
{
    if samples.len() == 0 {
        0
    } else {
        sum_compressed(samples.drop_last()) + samples.last().compressed_size as nat
    }
}

pub open spec fn sum_decompressed(samples: Seq<Sample>) -> nat
    decreases samples.len(),
{
    if samples.len() == 0 {
        0
    } else {
        sum_decompressed(samples.drop_last()) + samples.last().decompressed_size as nat
    }
}

pub open spec fn sum_object_size(samples: Seq<Sample>) -> nat
    decreases samples.len(),
{
    if samples.len() == 0 {
        0
    } else {
        sum_object_size(samples.drop_last()) + samples.last().object_size as nat
    }
}

pub open spec fn sum_levels(samples: Seq<Sample>) -> nat
    decreases samples.len(),
{
    if samples.len() == 0 {
        0
    } else {
        sum_levels(samples.drop_last()) + samples.last().level as nat
    }
}

/// How many samples are of that kind.
pub open spec fn count_kind(samples: Seq<Sample>, kind: Kind) -> nat
    decreases samples.len(),
{
    if samples.len() == 0 {
        0
    } else {
        count_kind(samples.drop_last(), kind) + if samples.last().kind == kind {
            1nat
        } else {
            0nat
        }
    }
}

/// How many samples have that level.
pub open spec fn count_level(samples: Seq<Sample>, level: u32) -> nat
    decreases samples.len(),
{
    if samples.len() == 0 {
        0
    } else {
        count_level(samples.drop_last(), level) + if samples.last().level as u32 == level {
            1nat
        } else {
            0nat
        }
    }
}

/// The sums over `samples` can be counted.
pub open spec fn is_countable(samples: Seq<Sample>) -> bool {
    &&& samples.len() <= u32::MAX
    &&& sum_compressed(samples) <= u64::MAX
    &&& sum_decompressed(samples) <= u64::MAX
    &&& sum_object_size(samples) <= u64::MAX
    &&& sum_levels(samples) <= u32::MAX
}

impl Statistics {
    /// The objects taken into account.
    pub open spec fn samples(self) -> Seq<Sample> {
        self.samples@
    }

    /// The statistics are those of `samples`, with sums in place of averages.
    pub open spec fn is_of(self, samples: Seq<Sample>) -> bool {
        &&& self.num_nodes == samples.len()
        &&& self.total_compressed_entries_size == sum_compressed(samples)
        &&& self.total_decompressed_entries_size == sum_decompressed(samples)
        &&& self.total_object_size == sum_object_size(samples)
        &&& self.average.compressed_size == sum_compressed(samples)
        &&& self.average.decompressed_size == sum_decompressed(samples)
        &&& self.average.object_size == sum_object_size(samples)
        &&& self.average.num_deltas == sum_levels(samples)
        &&& self.num_blobs == count_kind(samples, Kind::Blob)
        &&& self.num_trees == count_kind(samples, Kind::Tree)
        &&& self.num_tags == count_kind(samples, Kind::Tag)
        &&& self.num_commits == count_kind(samples, Kind::Commit)
        &&& forall|level: u32|
            self.objects_per_chain_length@.dom().contains(level) <==> #[trigger] count_level(
                samples,
                level,
            ) > 0
        &&& forall|level: u32| #[trigger]
            self.objects_per_chain_length@.dom().contains(level)
                ==> self.objects_per_chain_length@[level] == count_level(samples, level)
    }

    /// The statistics of nothing.
    pub fn new() -> (stats: Self)
        ensures
            stats.is_of(stats.samples()),
            stats.samples() == Seq::<Sample>::empty(),
            stats.pack_size == 0,
    {
        Statistics {
            average: Average {
                num_deltas: 0,
                decompressed_size: 0,
                compressed_size: 0,
                object_size: 0,
            },
            objects_per_chain_length: BTreeMap::new(),
            total_compressed_entries_size: 0,
            total_decompressed_entries_size: 0,
            total_object_size: 0,
            pack_size: 0,
            num_commits: 0,
            num_trees: 0,
            num_tags: 0,
            num_blobs: 0,
            num_nodes: 0,
            samples: Ghost(Seq::empty()),
        }
    }

    /// Take one more object into account.
    pub fn add(&mut self, s: Sample)
        requires
            old(self).is_of(old(self).samples()),
            is_countable(old(self).samples().push(s)),
        ensures
            final(self).samples() == old(self).samples().push(s),
            final(self).is_of(final(self).samples()),
            final(self).pack_size == old(self).pack_size,
            final(self).num_nodes == old(self).num_nodes + 1,
            final(self).num_commits == old(self).num_commits + if s.kind is Commit {
                1int
            } else {
                0
            },
            final(self).num_trees == old(self).num_trees + if s.kind is Tree {
                1int
            } else {
                0
            },
            final(self).num_tags == old(self).num_tags + if s.kind is Tag {
                1int
            } else {
                0
            },
            final(self).num_blobs == old(self).num_blobs + if s.kind is Blob {
                1int
            } else {
                0
            },
            final(self).total_compressed_entries_size == old(self).total_compressed_entries_size
                + s.compressed_size,
            final(self).total_decompressed_entries_size == old(
                self,
            ).total_decompressed_entries_size + s.decompressed_size,
            final(self).total_object_size == old(self).total_object_size + s.object_size,
            final(self).average.compressed_size == old(self).average.compressed_size
                + s.compressed_size,
            final(self).average.decompressed_size == old(self).average.decompressed_size
                + s.decompressed_size,
            final(self).average.object_size == old(self).average.object_size + s.object_size,
            final(self).average.num_deltas == old(self).average.num_deltas + s.level,
    {
        let ghost samples = self.samples@;
        let ghost now = samples.push(s);
        let ghost chains = self.objects_per_chain_length@;
        proof {
            assert(now.drop_last() =~= samples);
            lemma_counts(samples, s.level as u32);
            lemma_counts(now, s.level as u32);
        }
        self.num_nodes = self.num_nodes + 1;
        self.total_compressed_entries_size = self.total_compressed_entries_size + s.compressed_size;
        self.total_decompressed_entries_size = self.total_decompressed_entries_size
            + s.decompressed_size;
        self.total_object_size = self.total_object_size + s.object_size;
        let level: u32 = s.level as u32;
        let count: u32 = match self.objects_per_chain_length.get(&level) {
            Some(n) => *n,
            None => 0,
        };
        assert(count == count_level(samples, level));
        self.objects_per_chain_length.insert(level, count + 1);
        self.average.decompressed_size = self.average.decompressed_size + s.decompressed_size;
        self.average.compressed_size = self.average.compressed_size + s.compressed_size;
        self.average.object_size = self.average.object_size + s.object_size;
        self.average.num_deltas = self.average.num_deltas + level;
        match s.kind {
            Kind::Blob => {
                self.num_blobs = self.num_blobs + 1;
            },
            Kind::Tree => {
                self.num_trees = self.num_trees + 1;
            },
            Kind::Tag => {
                self.num_tags = self.num_tags + 1;
            },
            Kind::Commit => {
                self.num_commits = self.num_commits + 1;
            },
        }
        proof {
            self.samples = Ghost(now);
            let new = self.objects_per_chain_length@;
            assert(new == chains.insert(level, (count + 1) as u32));
            assert forall|l: u32|
                new.dom().contains(l) <==> #[trigger] count_level(now, l) > 0 by {
                assert(count_level(now, l) == count_level(samples, l) + if level == l {
                    1nat
                } else {
                    0nat
                });
                assert(chains.dom().contains(l) <==> count_level(samples, l) > 0);
            }
            assert forall|l: u32| #[trigger] new.dom().contains(l) implies new[l] == count_level(
                now,
                l,
            ) by {
                if l != level {
                    assert(chains.dom().contains(l));
                }
            }
        }
    }
}

/// Counts never exceed the number of samples.
proof fn lemma_counts(samples: Seq<Sample>, level: u32)
    ensures
        count_level(samples, level) <= samples.len(),
        count_kind(samples, Kind::Blob) <= samples.len(),
        count_kind(samples, Kind::Tree) <= samples.len(),
        count_kind(samples, Kind::Tag) <= samples.len(),
        count_kind(samples, Kind::Commit) <= samples.len(),
    decreases samples.len(),
{
    if samples.len() > 0 {
        lemma_counts(samples.drop_last(), level);
    }
}

/// Turn the sums over all objects into averages, rounded down.
pub fn finalize_statistics_averages(stats: &mut Statistics, num_nodes: usize)
    requires
        num_nodes > 0,
        num_nodes as u64 % 0x1_0000_0000 != 0,
    ensures
        final(stats).average.decompressed_size == old(stats).average.decompressed_size
            / num_nodes as u64,
        final(stats).average.compressed_size == old(stats).average.compressed_size
            / num_nodes as u64,
        final(stats).average.object_size == old(stats).average.object_size / num_nodes as u64,
        final(stats).average.num_deltas == old(stats).average.num_deltas as u64 / (
        num_nodes as u64 % 0x1_0000_0000),
        *final(stats) == (Statistics { average: final(stats).average, ..*old(stats) }),
{
    let n: u64 = num_nodes as u64;
    let n32: u32 = (n % 0x1_0000_0000) as u32;
    stats.average.decompressed_size = stats.average.decompressed_size / n;
    stats.average.compressed_size = stats.average.compressed_size / n;
    stats.average.object_size = stats.average.object_size / n;
    stats.average.num_deltas = stats.average.num_deltas / n32;
}

/// Complete the statistics once all objects were taken into account.
pub fn conclude(stats: &mut Statistics, pack_size: u64)
    requires
        old(stats).is_of(old(stats).samples()),
        is_countable(old(stats).samples()),
        old(stats).samples().len() > 0,
    ensures
        final(stats).average.compressed_size == sum_compressed(old(stats).samples())
            / old(stats).samples().len(),
        final(stats).average.decompressed_size == sum_decompressed(old(stats).samples())
            / old(stats).samples().len(),
        final(stats).average.object_size == sum_object_size(old(stats).samples())
            / old(stats).samples().len(),
        final(stats).average.num_deltas == sum_levels(old(stats).samples())
            / old(stats).samples().len(),
        final(stats).average.compressed_size == old(stats).total_compressed_entries_size
            / old(stats).num_nodes,
        final(stats).average.decompressed_size == old(stats).total_decompressed_entries_size
            / old(stats).num_nodes,
        final(stats).average.object_size == old(stats).total_object_size / old(stats).num_nodes,
        final(stats).average.num_deltas == old(stats).average.num_deltas as u64 / old(
            stats,
        ).num_nodes,
        *final(stats) == (Statistics { average: final(stats).average, pack_size, ..*old(stats) }),
{
    let num_nodes: usize = stats.num_nodes as usize;
    finalize_statistics_averages(stats, num_nodes);
    stats.pack_size = pack_size;
}

/// What a traversal gives.
pub struct Outcome {
    /// The checksum of the index, if it was computed.
    pub actual_index_checksum: Option<ObjectId>,
    pub statistics: Statistics,
}

/// Put together what came of verifying the files and of looking at all objects,
/// which go on side by side. If both fail, the files are to blame.
pub fn outcome<E>(
    verified: Result<Option<ObjectId>, E>,
    traversed: Result<Statistics, E>,
) -> (r: Result<Outcome, E>)
    ensures
        match verified {
            Err(e) => r == Err::<Outcome, E>(e),
            Ok(actual_index_checksum) => match traversed {
                Err(e) => r == Err::<Outcome, E>(e),
                Ok(statistics) => r == Ok::<Outcome, E>(
                    Outcome { actual_index_checksum, statistics },
                ),
            },
        },
{
    match verified {
        Err(e) => Err(e),
        Ok(actual_index_checksum) => match traversed {
            Err(e) => Err(e),
            Ok(statistics) => Ok(Outcome { actual_index_checksum, statistics }),
        },
    }
}

/// One more sample raises the count of its own kind by one and no other, the
/// number of objects by one, the sums by what it tells of itself, and by one the
/// number of objects that are built upon as many bases as it.
pub proof fn law_sample_counts_under_its_kind(
    before: Statistics,
    after: Statistics,
    samples: Seq<Sample>,
    s: Sample,
)
    requires
        before.is_of(samples),
        after.is_of(samples.push(s)),
    ensures
        after.num_commits - before.num_commits == if s.kind is Commit {
            1int
        } else {
            0
        },
        after.num_trees - before.num_trees == if s.kind is Tree {
            1int
        } else {
            0
        },
        after.num_tags - before.num_tags == if s.kind is Tag {
            1int
        } else {
            0
        },
        after.num_blobs - before.num_blobs == if s.kind is Blob {
            1int
        } else {
            0
        },
        after.num_nodes - before.num_nodes == 1,
        after.total_compressed_entries_size - before.total_compressed_entries_size
            == s.compressed_size,
        after.total_decompressed_entries_size - before.total_decompressed_entries_size
            == s.decompressed_size,
        after.total_object_size - before.total_object_size == s.object_size,
        after.average.compressed_size - before.average.compressed_size == s.compressed_size,
        after.average.decompressed_size - before.average.decompressed_size == s.decompressed_size,
        after.average.object_size - before.average.object_size == s.object_size,
        after.average.num_deltas - before.average.num_deltas == s.level,
        ({
            let was = before.objects_per_chain_length@;
            let is = after.objects_per_chain_length@;
            let level = s.level as u32;
            &&& is.dom().contains(level)
            &&& is[level] == if was.dom().contains(level) {
                was[level] + 1
            } else {
                1
            }
            &&& forall|l: u32|
                l != level ==> (#[trigger] is.dom().contains(l) <==> was.dom().contains(l)) && (
                was.dom().contains(l) ==> is[l] == was[l])
        }),
{
    let now = samples.push(s);
    assert(now.drop_last() =~= samples);
    let was = before.objects_per_chain_length@;
    let is = after.objects_per_chain_length@;
    let level = s.level as u32;
    assert forall|l: u32|
        (#[trigger] is.dom().contains(l) <==> count_level(now, l) > 0) && (was.dom().contains(l)
            <==> count_level(samples, l) > 0) by {
        assert(is.dom().contains(l) <==> count_level(now, l) > 0);
        assert(was.dom().contains(l) <==> count_level(samples, l) > 0);
    }
    assert(is.dom().contains(level));
}

/// Without samples, every count and every sum is zero.
pub proof fn law_nothing_counts_nothing(stats: Statistics)
    requires
        stats.is_of(Seq::<Sample>::empty()),
    ensures
        stats.num_nodes == 0,
        stats.num_commits == 0,
        stats.num_trees == 0,
        stats.num_tags == 0,
        stats.num_blobs == 0,
        stats.total_compressed_entries_size == 0,
        stats.total_decompressed_entries_size == 0,
        stats.total_object_size == 0,
        stats.average.compressed_size == 0,
        stats.average.decompressed_size == 0,
        stats.average.object_size == 0,
        stats.average.num_deltas == 0,
        forall|level: u32| !(#[trigger] stats.objects_per_chain_length@.dom().contains(level)),
{
    assert forall|level: u32| !(#[trigger] stats.objects_per_chain_length@.dom().contains(
        level,
    )) by {
        assert(count_level(Seq::<Sample>::empty(), level) == 0);
    }
}

/// Each count is how many of the samples are of the kind that it is named after,
/// and a number of bases is listed with how many samples are built upon as many.
pub proof fn law_counts_are_of_kinds_and_levels(
    stats: Statistics,
    samples: Seq<Sample>,
    level: u32,
)
    requires
        stats.is_of(samples),
    ensures
        stats.num_commits == samples.filter(|s: Sample| s.kind is Commit).len(),
        stats.num_trees == samples.filter(|s: Sample| s.kind is Tree).len(),
        stats.num_tags == samples.filter(|s: Sample| s.kind is Tag).len(),
        stats.num_blobs == samples.filter(|s: Sample| s.kind is Blob).len(),
        ({
            let of_level = samples.filter(|s: Sample| s.level == level).len();
            &&& stats.objects_per_chain_length@.dom().contains(level) <==> of_level > 0
            &&& of_level > 0 ==> stats.objects_per_chain_length@[level] == of_level
        }),
{
    lemma_kind_is_filter(samples, Kind::Commit, |s: Sample| s.kind is Commit);
    lemma_kind_is_filter(samples, Kind::Tree, |s: Sample| s.kind is Tree);
    lemma_kind_is_filter(samples, Kind::Tag, |s: Sample| s.kind is Tag);
    lemma_kind_is_filter(samples, Kind::Blob, |s: Sample| s.kind is Blob);
    lemma_level_is_filter(samples, level, |s: Sample| s.level == level);
    assert(stats.objects_per_chain_length@.dom().contains(level) <==> count_level(samples, level)
        > 0);
}

proof fn lemma_kind_is_filter(samples: Seq<Sample>, kind: Kind, pred: spec_fn(Sample) -> bool)
    requires
        forall|s: Sample| #[trigger] pred(s) <==> s.kind == kind,
    ensures
        count_kind(samples, kind) == samples.filter(pred).len(),
    decreases samples.len(),
{
    reveal(Seq::filter);
    if samples.len() > 0 {
        lemma_kind_is_filter(samples.drop_last(), kind, pred);
        assert(pred(samples.last()) <==> samples.last().kind == kind);
    }
}

proof fn lemma_level_is_filter(samples: Seq<Sample>, level: u32, pred: spec_fn(Sample) -> bool)
    requires
        forall|s: Sample| #[trigger] pred(s) <==> s.level == level,
    ensures
        count_level(samples, level) == samples.filter(pred).len(),
    decreases samples.len(),
{
    reveal(Seq::filter);
    if samples.len() > 0 {
        lemma_level_is_filter(samples.drop_last(), level, pred);
        assert(pred(samples.last()) <==> samples.last().level == level);
    }
}

/// Every object is counted under exactly one kind.
pub proof fn law_kinds_add_up(stats: Statistics, samples: Seq<Sample>)
    requires
        stats.is_of(samples),
    ensures
        stats.num_blobs + stats.num_trees + stats.num_tags + stats.num_commits == samples.len(),
{
    lemma_kinds_add_up(samples);
}

proof fn lemma_kinds_add_up(samples: Seq<Sample>)
    ensures
        count_kind(samples, Kind::Blob) + count_kind(samples, Kind::Tree) + count_kind(
            samples,
            Kind::Tag,
        ) + count_kind(samples, Kind::Commit) == samples.len(),
    decreases samples.len(),
{
    if samples.len() > 0 {
        lemma_kinds_add_up(samples.drop_last());
    }
}

} // verus!
