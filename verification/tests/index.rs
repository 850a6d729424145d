//! The pack index as bytes.
use gitx_bounded::hash::digest;
use gitx_bounded::index::encode::{fanout, next_part, write_to, IndexEncoder, Part};
use gitx_bounded::index::write::{
    outcome_of, write_index, Batch, Error, IndexEntry, Indexer, InputEntry, ProgressId,
    SORT_BATCH_SIZE,
};
use gitx_bounded::index::Version;
use gitx_bounded::budget::MemoryBudget;
use gitx_bounded::cache::delta;
use gitx_bounded::data::Header;
use gitx_bounded::object::ObjectId;

fn entry(first: u8, last: u8, crc32: u32, offset: u64) -> IndexEntry {
    let mut bytes = [0u8; 20];
    bytes[0] = first;
    bytes[19] = last;
    IndexEntry { id: ObjectId { bytes }, crc32, offset }
}

fn be32(b: &[u8], at: usize) -> u32 {
    u32::from_be_bytes(b[at..at + 4].try_into().unwrap())
}

fn input(header: Header, pack_offset: u64) -> InputEntry {
    InputEntry {
        header,
        pack_offset,
        header_size: 2,
        compressed_size: 8,
        decompressed_size: 20,
        trailer: None,
    }
}

#[test]
fn fanout_counts_names_up_to_each_byte() {
    let table = fanout(&[0, 0, 1, 255]);
    assert_eq!(table[0], 2);
    assert_eq!(table[1], 3);
    assert_eq!(table[2], 3);
    assert_eq!(table[254], 3);
    assert_eq!(table[255], 4);
    assert_eq!(fanout(&[])[255], 0);
}

#[test]
fn index_of_nothing() {
    let pack = ObjectId { bytes: [9; 20] };
    let mut out = Vec::new();
    let hash = write_to(&mut out, &Vec::new(), &pack).unwrap();
    assert_eq!(out.len(), 8 + 1024 + 20 + 20);
    assert_eq!(out[..8], [0xff, b't', b'O', b'c', 0, 0, 0, 2]);
    assert_eq!(out[8..1032], [0u8; 1024]);
    assert_eq!(out[1032..1052], [9u8; 20]);
    assert_eq!(out[1052..], hash.bytes);
    assert_eq!(digest(&out[..1052]), Some(hash));
}

#[test]
fn index_has_all_sections() {
    let pack = ObjectId { bytes: [9; 20] };
    let entries = vec![
        entry(1, 1, 0x11, 12),
        entry(1, 2, 0x22, 0x7fff_ffff),
        entry(3, 1, 0x33, 0x8000_0000),
        entry(3, 2, 0x44, 0x1_0000_0000),
    ];
    let mut out = b"before".to_vec();
    let hash = write_to(&mut out, &entries, &pack).unwrap();
    let index = &out[6..];
    assert_eq!(be32(index, 8), 0);
    assert_eq!(be32(index, 8 + 4), 2);
    assert_eq!(be32(index, 8 + 8), 2);
    assert_eq!(be32(index, 8 + 12), 4);
    assert_eq!(be32(index, 8 + 255 * 4), 4);
    let ids = 8 + 1024;
    assert_eq!(index[ids..ids + 20], entries[0].id.bytes);
    assert_eq!(index[ids + 60..ids + 80], entries[3].id.bytes);
    let crcs = ids + 80;
    assert_eq!(be32(index, crcs), 0x11);
    assert_eq!(be32(index, crcs + 12), 0x44);
    let offsets = crcs + 16;
    assert_eq!(be32(index, offsets), 12);
    assert_eq!(be32(index, offsets + 4), 0x7fff_ffff);
    assert_eq!(be32(index, offsets + 8), 0x8000_0000, "the first large offset");
    assert_eq!(be32(index, offsets + 12), 0x8000_0001, "the second large offset");
    let large = offsets + 16;
    assert_eq!(index[large..large + 8], 0x8000_0000u64.to_be_bytes());
    assert_eq!(index[large + 8..large + 16], 0x1_0000_0000u64.to_be_bytes());
    let pack_hash = large + 16;
    assert_eq!(index[pack_hash..pack_hash + 20], pack.bytes);
    assert_eq!(index[pack_hash + 20..], hash.bytes);
    assert_eq!(digest(&index[..pack_hash + 20]), Some(hash));
}

#[test]
fn staging_gives_the_sections_piece_by_piece() {
    let mut encoder = IndexEncoder::new(2);
    let small = encoder.stage(entry(0, 1, 0x0102_0304, 5));
    assert_eq!(small.id, entry(0, 1, 0, 0).id.bytes);
    assert_eq!(small.crc32, vec![1, 2, 3, 4]);
    assert_eq!(small.offset32, vec![0, 0, 0, 5]);
    assert!(small.offset64.is_none());
    let large = encoder.stage(entry(1, 1, 0, u64::MAX));
    assert_eq!(large.offset32, vec![0x80, 0, 0, 0]);
    assert_eq!(large.offset64.unwrap(), vec![0xff; 8]);
    assert_eq!(encoder.seen(), 2);
    assert_eq!(encoder.offsets64_count(), 1);
    let header = encoder.header();
    assert_eq!(header.len(), 1032);
    assert_eq!(be32(&header, 8), 1);
    assert_eq!(be32(&header, 12), 2);
}

#[test]
fn batches_lose_nothing() {
    let mut batch = Batch::new();
    let mut seen = Vec::new();
    for i in 0..(SORT_BATCH_SIZE as u64 * 2 + 10) {
        if let Some(full) = batch.push(entry(0, 0, 0, i)) {
            assert_eq!(full.len(), SORT_BATCH_SIZE);
            seen.extend(full.iter().map(|e| e.offset));
        }
    }
    let rest = batch.into_rest();
    assert_eq!(rest.len(), 10);
    seen.extend(rest.iter().map(|e| e.offset));
    assert_eq!(seen, (0..2058).collect::<Vec<u64>>());
}

#[test]
fn only_version_two_is_written() {
    let r = Indexer::new(Version::V1, 0, MemoryBudget::unlimited());
    assert!(matches!(r, Err(Error::Unsupported(Version::V1))));
    assert!(Indexer::new(Version::default(), 0, MemoryBudget::unlimited()).is_ok());
}

#[test]
fn indexer_takes_in_entries_in_pack_order() {
    let mut indexer = Indexer::new(Version::V2, 3, MemoryBudget::unlimited()).unwrap();
    assert_eq!(indexer.num_objects().unwrap(), 0);
    assert_eq!(indexer.pack_entries_end(), 0);
    let first = indexer.add(input(Header::Blob, 12)).unwrap();
    assert_eq!(first.record[..8], 12u64.to_le_bytes());
    assert!(first.edges.is_none());
    assert_eq!(indexer.pack_entries_end(), 22);
    let trailer = ObjectId { bytes: [5; 20] };
    let last = InputEntry { trailer: Some(trailer), ..input(Header::OfsDelta { base_distance: 10 }, 22) };
    indexer.add(last).unwrap();
    assert_eq!(indexer.num_objects().unwrap(), 2);
    assert_eq!(indexer.last_seen_trailer(), Some(trailer));
    assert_eq!(indexer.into_tree().num_items(), 2);
}

#[test]
fn indexer_refuses_what_cannot_stand_in_the_tree() {
    let mut indexer = Indexer::new(Version::V2, 3, MemoryBudget::unlimited()).unwrap();
    let by_name = Header::RefDelta { base_id: ObjectId { bytes: [0; 20] } };
    assert!(matches!(indexer.add(input(by_name, 12)), Err(Error::IteratorInvariantNoRefDelta)));
    for distance in [0, 13] {
        let r = indexer.add(input(Header::OfsDelta { base_distance: distance }, 12));
        assert!(
            matches!(r, Err(Error::IteratorInvariantBaseOffset { pack_offset: 12, distance: d }) if d == distance)
        );
    }
    indexer.add(input(Header::Tree, 12)).unwrap();
    let r = indexer.add(input(Header::Commit, 12));
    assert!(matches!(
        r,
        Err(Error::Tree(delta::Error::InvariantIncreasingPackOffset {
            last_pack_offset: 12,
            pack_offset: 12
        }))
    ));
    assert_eq!(indexer.num_objects().unwrap(), 1);
}

#[test]
fn steps_are_known_by_four_letters() {
    assert_eq!(&ProgressId::IndexObjects.id(), b"IWIO");
    assert_eq!(&ProgressId::DecompressedBytes.id(), b"IWDB");
    assert_eq!(&ProgressId::ResolveObjects.id(), b"IWRO");
    assert_eq!(&ProgressId::DecodedBytes.id(), b"IWRB");
    assert_eq!(&ProgressId::IndexBytesWritten.id(), b"IWBW");
    let mut ids = [
        ProgressId::IndexObjects.id(),
        ProgressId::DecompressedBytes.id(),
        ProgressId::ResolveObjects.id(),
        ProgressId::DecodedBytes.id(),
        ProgressId::IndexBytesWritten.id(),
    ]
    .to_vec();
    ids.sort();
    ids.dedup();
    assert_eq!(ids.len(), 5, "each step has an id of its own");
}

#[test]
fn index_is_written_with_the_hash_of_its_pack() {
    let entries = vec![entry(1, 1, 2, 3)];
    let trailer = ObjectId { bytes: [6; 20] };
    let mut out = Vec::new();
    let outcome = write_index(&mut out, &entries, Some(trailer), 1, 2).unwrap();
    let mut expected = Vec::new();
    let hash = write_to(&mut expected, &entries, &trailer).unwrap();
    assert_eq!(out, expected);
    assert_eq!(outcome, outcome_of(hash, trailer, 1));
    assert_eq!(outcome.index_version, Version::V2);

    let mut out = Vec::new();
    let r = write_index(&mut out, &entries, None, 1, 2);
    assert!(matches!(r, Err(Error::IteratorInvariantTrailer)));
    assert!(out.is_empty());
    let outcome = write_index(&mut out, &Vec::new(), None, 0, 2).unwrap();
    assert_eq!(Some(outcome.data_hash), digest(b"PACK\0\0\0\x02\0\0\0\0"));
}

#[test]
fn parts_follow_one_another() {
    let mut parts = Vec::new();
    while let Some(part) = next_part(parts.len()) {
        parts.push(part);
    }
    let expected =
        [Part::Header, Part::Ids, Part::Crc32s, Part::Offsets32, Part::Offsets64, Part::PackHash];
    assert_eq!(parts, expected.to_vec());
    assert_eq!(next_part(usize::MAX), None);
}
