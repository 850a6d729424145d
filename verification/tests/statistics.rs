//! Statistics of a pack.
use gitx_bounded::index::traverse::with_index::{
    conclude, ends_traversal, finalize_statistics_averages, find_by_offset, outcome, sample, Entry,
    Options, Processed, ProgressId, Statistics,
};
use gitx_bounded::object::{Kind, ObjectId};

fn index_entry(pack_offset: u64) -> Entry {
    Entry { oid: ObjectId { bytes: [0; 20] }, pack_offset, crc32: None }
}

fn four_objects() -> Statistics {
    let mut stats = Statistics::new();
    stats.add(sample(Kind::Blob, 14, 24, 100, 100, 0));
    stats.add(sample(Kind::Blob, 26, 31, 7, 120, 1));
    stats.add(sample(Kind::Tree, 33, 43, 30, 30, 0));
    stats.add(sample(Kind::Blob, 45, 47, 4, 121, 2));
    stats
}

#[test]
fn objects_are_counted_and_summed() {
    let stats = four_objects();
    assert_eq!(stats.num_nodes, 4);
    assert_eq!((stats.num_blobs, stats.num_trees, stats.num_tags, stats.num_commits), (3, 1, 0, 0));
    assert_eq!(stats.total_compressed_entries_size, 27);
    assert_eq!(stats.total_decompressed_entries_size, 141);
    assert_eq!(stats.total_object_size, 371);
    let chains: Vec<(u32, u32)> = stats.objects_per_chain_length.iter().map(|(k, v)| (*k, *v)).collect();
    assert_eq!(chains, vec![(0, 2), (1, 1), (2, 1)]);
}

#[test]
fn kinds_add_up() {
    let stats = four_objects();
    assert_eq!(
        u64::from(stats.num_blobs + stats.num_trees + stats.num_tags + stats.num_commits),
        stats.num_nodes
    );
}

#[test]
fn averages_are_rounded_down() {
    let mut stats = four_objects();
    conclude(&mut stats, 1000);
    assert_eq!(stats.average.compressed_size, 6);
    assert_eq!(stats.average.decompressed_size, 35);
    assert_eq!(stats.average.object_size, 92);
    assert_eq!(stats.average.num_deltas, 0);
    assert_eq!(stats.pack_size, 1000);
    assert_eq!(stats.total_object_size, 371, "sums stay");

    let mut stats = four_objects();
    finalize_statistics_averages(&mut stats, 3);
    assert_eq!(stats.average.num_deltas, 1);
    assert_eq!(stats.average.object_size, 123);
}

#[test]
fn entries_are_found_by_offset() {
    let sorted: Vec<Entry> = [12, 30, 31, 90].iter().map(|o| index_entry(*o)).collect();
    assert_eq!(find_by_offset(&sorted, 12), Some(0));
    assert_eq!(find_by_offset(&sorted, 31), Some(2));
    assert_eq!(find_by_offset(&sorted, 90), Some(3));
    assert_eq!(find_by_offset(&sorted, 11), None);
    assert_eq!(find_by_offset(&sorted, 32), None);
    assert_eq!(find_by_offset(&Vec::new(), 0), None);
}

#[test]
fn decode_errors_end_a_traversal_only_where_fatal() {
    assert!(!ends_traversal(Processed::Done, true));
    assert!(ends_traversal(Processed::DecodeError, true));
    assert!(!ends_traversal(Processed::DecodeError, false));
    assert!(ends_traversal(Processed::OtherError, false));
    assert!(Options::default().fatal_decode_error);
    assert!(Options::default().thread_limit.is_none());
}

#[test]
fn files_are_to_blame_first() {
    let id = ObjectId { bytes: [3; 20] };
    let done = outcome::<&str>(Ok(Some(id)), Ok(four_objects())).unwrap_or_else(|e| panic!("{e}"));
    assert_eq!(done.actual_index_checksum, Some(id));
    assert_eq!(done.statistics.num_nodes, 4);
    assert_eq!(outcome(Err("files"), Err("objects")).err(), Some("files"));
    assert_eq!(outcome(Err("files"), Ok(four_objects())).err(), Some("files"));
    assert_eq!(outcome(Ok(None), Err("objects")).err(), Some("objects"));
}

#[test]
fn steps_of_a_traversal_are_known_by_four_letters() {
    assert_eq!(&ProgressId::HashPackDataBytes.id(), b"PTHP");
    assert_eq!(&ProgressId::HashPackIndexBytes.id(), b"PTHI");
    assert_eq!(&ProgressId::CollectSortedIndexEntries.id(), b"PTCE");
    assert_eq!(&ProgressId::TreeFromOffsetsObjects.id(), b"PTDI");
    assert_eq!(&ProgressId::DecodedObjects.id(), b"PTRO");
    assert_eq!(&ProgressId::DecodedBytes.id(), b"PTDB");
}
