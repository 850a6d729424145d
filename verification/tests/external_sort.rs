//! Sorting index entries by name within a budget.
use gitx_bounded::budget::MemoryBudget;
use gitx_bounded::index::write::external_sort::{
    chunk_for, Error, ExternalSorter, DEFAULT_CHUNK_ENTRIES, MIN_CHUNK_ENTRIES, SERIALIZED_ENTRY_SIZE,
};
use gitx_bounded::index::write::IndexEntry;
use gitx_bounded::object::ObjectId;
use gitx_bounded::sort::merge::stable_sort;
use gitx_bounded::sort::spill::{Spill, Step};

fn make_entry(byte: u8, offset: u64) -> IndexEntry {
    let mut id_bytes = [0u8; 20];
    id_bytes[19] = byte;
    IndexEntry { id: ObjectId { bytes: id_bytes }, crc32: u32::from(byte) * 0x01010101, offset }
}

fn numbered(i: usize, crc32: u32, offset: u64) -> IndexEntry {
    let mut id_bytes = [0u8; 20];
    id_bytes[16..20].copy_from_slice(&(i as u32).to_be_bytes());
    IndexEntry { id: ObjectId { bytes: id_bytes }, crc32, offset }
}

fn write(file: &mut Vec<u8>, spill: Option<Spill>) {
    if let Some(spill) = spill {
        assert_eq!(spill.offset, file.len() as u64, "runs are appended");
        file.extend_from_slice(&spill.bytes);
    }
}

/// All entries in order, and the bytes that were spooled.
fn collect(sorter: ExternalSorter, mut file: Vec<u8>) -> (Vec<IndexEntry>, Vec<u8>) {
    let (spill, mut out) = sorter.finish();
    write(&mut file, spill);
    let mut collected = Vec::new();
    loop {
        match out.try_next() {
            Step::Item(e) => collected.push(e),
            Step::Read(read) => {
                let start = read.offset as usize;
                out.supply(&file[start..start + read.len]);
            }
            Step::Done => return (collected, file),
        }
    }
}

#[test]
fn in_memory_fast_path_sorts_without_spilling() {
    let budget = MemoryBudget::unlimited();
    let mut sorter = ExternalSorter::with_budget(&budget).unwrap();
    let mut file = Vec::new();
    for i in (0u8..20).rev() {
        write(&mut file, sorter.push(make_entry(i, u64::from(i) * 1000)));
    }

    let (collected, file) = collect(sorter, file);
    assert_eq!(collected.len(), 20);
    for (i, e) in collected.iter().enumerate() {
        assert_eq!(e.offset, (i as u64) * 1000, "position {i}");
        assert_eq!(e.crc32, (i as u32) * 0x01010101, "crc32 at {i}");
    }
    assert_eq!(file.len(), 0, "unlimited budget must not trigger any spill");
}

#[test]
fn tight_budget_forces_spill_and_still_sorts_correctly() {
    let budget = MemoryBudget::bytes((MIN_CHUNK_ENTRIES * SERIALIZED_ENTRY_SIZE) as u64);
    let mut sorter = ExternalSorter::with_budget(&budget).unwrap();
    let mut file = Vec::new();

    let total = MIN_CHUNK_ENTRIES * 5;
    for i in (0..total).rev() {
        let byte = (i % 256) as u8;
        write(&mut file, sorter.push(make_entry(byte, i as u64)));
    }

    let (collected, file) = collect(sorter, file);
    assert_eq!(collected.len(), total);
    for pair in collected.windows(2) {
        assert!(
            pair[0].id <= pair[1].id,
            "ids must be non-decreasing: {:?} <= {:?}",
            pair[0].id,
            pair[1].id,
        );
    }
    assert!(!file.is_empty(), "tight budget must trigger spill, got bytes_written=0");
}

#[test]
fn roundtrip_serialization_is_byte_exact() {
    let budget = MemoryBudget::bytes((MIN_CHUNK_ENTRIES * SERIALIZED_ENTRY_SIZE) as u64);
    let mut sorter = ExternalSorter::with_budget(&budget).unwrap();
    let mut file = Vec::new();

    let mut want = Vec::new();
    for i in 0..(MIN_CHUNK_ENTRIES * 3) {
        let e = numbered(i, (i as u32) ^ 0xDEADBEEF, (i as u64) * 42 + 7);
        want.push(e);
        write(&mut file, sorter.push(e));
    }

    let (got, _) = collect(sorter, file);
    assert_eq!(got.len(), want.len());
    for (i, (g, w)) in got.iter().zip(want.iter()).enumerate() {
        assert_eq!(g.id, w.id, "id mismatch at {i}");
        assert_eq!(g.crc32, w.crc32, "crc32 mismatch at {i}");
        assert_eq!(g.offset, w.offset, "offset mismatch at {i}");
    }
}

#[test]
fn empty_input_produces_empty_iterator() {
    let budget = MemoryBudget::unlimited();
    let sorter = ExternalSorter::with_budget(&budget).unwrap();
    let (_, mut out) = sorter.finish();
    assert!(matches!(out.try_next(), Step::Done));
}

#[test]
fn sorter_falls_back_to_unaccounted_minimum_under_tight_budget() {
    let budget = MemoryBudget::bytes(16);
    let mut sorter = ExternalSorter::with_budget(&budget).expect("graceful fallback must succeed");
    let mut file = Vec::new();
    for i in 0..(MIN_CHUNK_ENTRIES * 2) {
        write(&mut file, sorter.push(numbered(i, i as u32, i as u64)));
    }
    let (collected, file) = collect(sorter, file);
    let mut count = 0usize;
    let mut prev_id: Option<ObjectId> = None;
    for e in collected {
        if let Some(p) = prev_id.as_ref() {
            assert!(*p <= e.id, "sort order must be preserved across the floor");
        }
        prev_id = Some(e.id);
        count += 1;
    }
    assert_eq!(count, MIN_CHUNK_ENTRIES * 2);
    assert!(!file.is_empty(), "tight-budget sorter with 2x capacity worth of pushes must spill");
}

#[test]
fn sorter_construction_with_zero_budget_succeeds() {
    let budget = MemoryBudget::bytes(0);
    let sorter = ExternalSorter::with_budget(&budget).unwrap();
    assert_eq!(sorter.chunk_capacity(), MIN_CHUNK_ENTRIES);
    drop(sorter);
    assert_eq!(budget.used(), 0);
}

#[test]
fn sorter_takes_half_of_what_is_unused() {
    let unlimited = MemoryBudget::unlimited();
    let sorter = ExternalSorter::with_budget(&unlimited).unwrap();
    assert_eq!(sorter.chunk_capacity(), DEFAULT_CHUNK_ENTRIES);
    assert_eq!(unlimited.used(), 65_536 * 32);

    let budget = MemoryBudget::bytes(1_000_000);
    let sorter = ExternalSorter::with_budget(&budget).unwrap();
    assert_eq!(sorter.chunk_capacity(), 15_625);
    assert_eq!(budget.used(), 500_000);
    let second = ExternalSorter::with_budget(&budget).unwrap();
    assert_eq!(second.chunk_capacity(), 7_812, "rounded down to whole entries");
    drop((sorter, second));
    assert_eq!(budget.used(), 0);
}

#[test]
fn sorter_goes_by_the_answer() {
    let budget = MemoryBudget::bytes(8192);
    let sorter = ExternalSorter::with_budget(&budget).unwrap();
    assert_eq!((sorter.chunk_capacity(), budget.used()), (128, 4096));
    drop(sorter);
    let sorter = ExternalSorter::with_unused(&budget, 0).unwrap();
    assert_eq!((sorter.chunk_capacity(), budget.used()), (64, 2048));
    drop(sorter);
    let sorter = ExternalSorter::with_answer(100, budget.reserve(3200)).unwrap();
    assert_eq!((sorter.chunk_capacity(), budget.used()), (100, 3200));
    let refused = budget.reserve(8192).unwrap_err();
    let failed = ExternalSorter::with_answer(100, Err(refused)).err();
    assert_eq!(failed, Some(Error::OutOfBudget(refused)));
}

#[test]
fn run_size_stays_within_bounds() {
    assert_eq!(chunk_for(0), 64);
    assert_eq!(chunk_for(4_096), 64);
    assert_eq!(chunk_for(6_464), 101);
    assert_eq!(chunk_for(6_463), 100);
    assert_eq!(chunk_for(4_194_304), 65_536);
    assert_eq!(chunk_for(u64::MAX), 65_536);
}

#[test]
fn entries_are_spooled_big_endian() {
    let budget = MemoryBudget::bytes(0);
    let mut sorter = ExternalSorter::with_budget(&budget).unwrap();
    let mut file = Vec::new();
    for i in 0..MIN_CHUNK_ENTRIES {
        write(&mut file, sorter.push(numbered(i, 0x0102_0304, 0x1112_1314_1516_1718)));
    }
    assert_eq!(sorter.bytes_written(), 64 * 32);
    assert_eq!(file.len(), 64 * 32);
    assert_eq!(file[..20], [0u8; 20]);
    assert_eq!(file[20..32], [1, 2, 3, 4, 0x11, 0x12, 0x13, 0x14, 0x15, 0x16, 0x17, 0x18]);
}

#[test]
fn order_is_the_same_with_and_without_spilling() {
    let entries: Vec<IndexEntry> = (0..500u64).map(|i| make_entry((i * 7 % 50) as u8, i)).collect();
    let mut orders = Vec::new();
    for budget in [MemoryBudget::unlimited(), MemoryBudget::bytes(0), MemoryBudget::bytes(128 * 32)] {
        let mut sorter = ExternalSorter::with_budget(&budget).unwrap();
        let mut file = Vec::new();
        for e in &entries {
            write(&mut file, sorter.push(*e));
        }
        let (collected, _) = collect(sorter, file);
        orders.push(collected.iter().map(|e| (e.id, e.offset)).collect::<Vec<_>>());
    }
    assert_eq!(orders[0], orders[1]);
    assert_eq!(orders[0], orders[2]);
    for pair in orders[0].windows(2) {
        assert!(pair[0] < pair[1], "entries of one name keep their order");
    }
}

#[test]
fn stable_sort_keeps_the_order_of_equals() {
    let records = vec![make_entry(3, 0), make_entry(1, 1), make_entry(3, 2), make_entry(1, 3)];
    let sorted = stable_sort(&records);
    let offsets: Vec<u64> = sorted.iter().map(|e| e.offset).collect();
    assert_eq!(offsets, vec![1, 3, 0, 2]);
}
