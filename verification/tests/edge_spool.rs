//! From delta edges to the children of every item.
use gitx_bounded::budget::{MemoryBudget, OutOfBudget};
use gitx_bounded::cache::delta::edge_spool::{EdgeSpool, Resolved, MIN_CHUNK_EDGES};
use gitx_bounded::cache::delta::item_store::{ItemStore, ItemStoreBuilder};
use gitx_bounded::sort::chunk::{next_target, probe, probe_after, settle, Probe};
use gitx_bounded::sort::spill::Spill;

struct Items {
    store: ItemStore,
    items: Vec<u8>,
    edges: Vec<u8>,
}

fn build_metadata_items(offsets: &[u64]) -> Items {
    let mut b = ItemStoreBuilder::new(offsets.len());
    let mut items = Vec::new();
    for &off in offsets {
        items.extend_from_slice(&b.push(off).unwrap().record);
    }
    let end = offsets.last().copied().unwrap_or(0) + 100;
    let done = b.finish(&mut items, &Vec::new(), end).unwrap();
    Items { store: done.store, items, edges: done.edges }
}

fn write(file: &mut Vec<u8>, spill: Option<Spill>) {
    if let Some(spill) = spill {
        assert_eq!(spill.offset, file.len() as u64, "runs are appended");
        file.extend_from_slice(&spill.bytes);
    }
}

fn resolve(spool: EdgeSpool, mut file: Vec<u8>, items: &Items) -> Vec<Result<(u32, u32), u64>> {
    let (spill, mut edges) = spool.resolve(items.store.metadata(&items.items, &items.edges));
    write(&mut file, spill);
    let mut out = Vec::new();
    loop {
        match edges.next() {
            Resolved::Pair(parent, child) => out.push(Ok((parent, child))),
            Resolved::Unresolved { base_offset } => out.push(Err(base_offset)),
            Resolved::Read(read) => {
                let start = read.offset as usize;
                edges.supply(&file[start..start + read.len]);
            }
            Resolved::Done => return out,
        }
    }
}

fn all_resolved(results: Vec<Result<(u32, u32), u64>>) -> Vec<(u32, u32)> {
    results.into_iter().collect::<Result<Vec<_>, _>>().expect("all edges resolve")
}

#[test]
fn empty_spool_resolves_empty() {
    let budget = MemoryBudget::unlimited();
    let spool = EdgeSpool::new(0, budget);
    let store = build_metadata_items(&[100, 200, 300]);
    assert!(resolve(spool, Vec::new(), &store).is_empty());
}

#[test]
fn resolve_preserves_parent_idx_sort_order() {
    let offsets: Vec<u64> = (1..=10u64).map(|i| i * 100).collect();
    let store = build_metadata_items(&offsets);

    let pushes: &[(u64, u32)] = &[
        (500, 7),
        (100, 2),
        (800, 9),
        (200, 3),
        (500, 5),
        (300, 4),
        (100, 1),
        (700, 8),
    ];
    let budget = MemoryBudget::unlimited();
    let mut spool = EdgeSpool::new(pushes.len(), budget);
    let mut file = Vec::new();
    for &(bo, ci) in pushes {
        write(&mut file, spool.push(bo, ci));
    }

    let resolved = all_resolved(resolve(spool, file, &store));
    assert_eq!(resolved.len(), pushes.len(), "every pushed edge must come out");
    for pair in resolved.windows(2) {
        assert!(
            pair[0].0 <= pair[1].0,
            "parent_idx must be non-decreasing: {:?} then {:?}",
            pair[0],
            pair[1],
        );
    }

    let parent_0: Vec<u32> = resolved.iter().filter(|&&(p, _)| p == 0).map(|&(_, c)| c).collect();
    assert_eq!(parent_0, vec![2, 1], "equal-base_offset edges must preserve push order");
    let parent_4: Vec<u32> = resolved.iter().filter(|&&(p, _)| p == 4).map(|&(_, c)| c).collect();
    assert_eq!(parent_4, vec![7, 5]);
}

#[test]
fn resolve_handles_fanout() {
    let offsets: Vec<u64> = std::iter::once(100).chain((1..=1000u64).map(|i| 100 + i * 10)).collect();
    assert_eq!(offsets.len(), 1001);
    let store = build_metadata_items(&offsets);

    let budget = MemoryBudget::unlimited();
    let mut spool = EdgeSpool::new(1000, budget);
    let mut file = Vec::new();
    for i in 1..=1000u32 {
        write(&mut file, spool.push(100, i));
    }

    let resolved = all_resolved(resolve(spool, file, &store));
    assert_eq!(resolved.len(), 1000);
    for (i, &(p, c)) in resolved.iter().enumerate() {
        assert_eq!(p, 0, "all children have parent_idx 0 (the root)");
        assert_eq!(c, (i as u32) + 1, "children must emerge in push order");
    }
}

#[test]
fn resolve_handles_chain() {
    let offsets: Vec<u64> = (1..=5u64).map(|i| i * 100).collect();
    let store = build_metadata_items(&offsets);

    let budget = MemoryBudget::unlimited();
    let mut spool = EdgeSpool::new(4, budget);
    let mut file = Vec::new();
    write(&mut file, spool.push(400, 4));
    write(&mut file, spool.push(100, 1));
    write(&mut file, spool.push(300, 3));
    write(&mut file, spool.push(200, 2));

    let resolved = all_resolved(resolve(spool, file, &store));
    assert_eq!(resolved, vec![(0, 1), (1, 2), (2, 3), (3, 4)]);
}

#[test]
fn resolve_under_tight_budget_spills_and_still_completes() {
    let total = MIN_CHUNK_EDGES * 5;
    let offsets: Vec<u64> = (0..total as u64).map(|i| (i + 1) * 10).collect();
    let store = build_metadata_items(&offsets);

    let budget = MemoryBudget::bytes(0);
    let mut spool = EdgeSpool::new(total, budget);
    let mut file = Vec::new();
    for i in (0..total).rev() {
        let off = offsets[i];
        write(&mut file, spool.push(off, i as u32));
    }
    assert_eq!(spool.bytes_written(), (total * 12) as u64);

    let resolved = all_resolved(resolve(spool, file, &store));
    assert_eq!(resolved.len(), total);
    for (i, &(p, c)) in resolved.iter().enumerate() {
        assert_eq!(p as usize, i, "strictly monotonic parent_idx");
        assert_eq!(c as usize, i, "child_idx from the original push");
    }
}

#[test]
fn unresolved_base_offset_surfaces_as_error() {
    let store = build_metadata_items(&[100, 200, 300]);
    let budget = MemoryBudget::unlimited();
    let mut spool = EdgeSpool::new(2, budget);
    let mut file = Vec::new();
    write(&mut file, spool.push(100, 1));
    write(&mut file, spool.push(250, 2));
    let results = resolve(spool, file, &store);
    assert_eq!(results.len(), 2);
    assert!(matches!(results[0], Ok((0, 1))));
    assert!(matches!(results[1], Err(250)));
}

#[test]
fn run_size_follows_hint_and_budget() {
    assert_eq!(EdgeSpool::new(0, MemoryBudget::unlimited()).chunk_capacity(), 128);
    assert_eq!(EdgeSpool::new(1000, MemoryBudget::unlimited()).chunk_capacity(), 1000);
    assert_eq!(EdgeSpool::new(usize::MAX, MemoryBudget::unlimited()).chunk_capacity(), 65_536);
    let budget = MemoryBudget::bytes(300 * 16);
    let spool = EdgeSpool::new(1000, budget.clone());
    assert_eq!(spool.chunk_capacity(), 250, "halved twice");
    assert_eq!(budget.used(), 250 * 16);
    drop(spool);
    assert_eq!(budget.used(), 0);
}

#[test]
fn targets_are_halved_down_to_the_minimum() {
    assert_eq!(next_target(65_536, 64), Some(32_768));
    assert_eq!(next_target(100, 64), Some(64));
    assert_eq!(next_target(64, 64), None);
    let budget = MemoryBudget::bytes(1000);
    let (found, granted) = probe(&budget, 512, 8, 10);
    assert_eq!(found, 64);
    assert_eq!(granted.unwrap().bytes(), 640);
    let (found, granted) = probe(&MemoryBudget::bytes(10), 512, 8, 10);
    assert_eq!(found, 8);
    assert!(granted.is_none());
}

#[test]
fn edges_are_spooled_little_endian() {
    let mut spool = EdgeSpool::new(0, MemoryBudget::unlimited());
    let mut file = Vec::new();
    for i in 0..128u32 {
        write(&mut file, spool.push(0x0102_0304_0506_0708 + u64::from(i), 0x0a0b_0c0d));
    }
    assert_eq!(file.len(), 128 * 12);
    assert_eq!(file[..12], [8, 7, 6, 5, 4, 3, 2, 1, 0x0d, 0x0c, 0x0b, 0x0a]);
}

#[test]
fn each_block_is_asked_for_once_and_read_as_supplied() {
    let items = build_metadata_items(&[100]);
    let mut spool = EdgeSpool::new(0, MemoryBudget::unlimited());
    let mut file = Vec::new();
    for i in 0..256u32 {
        write(&mut file, spool.push(100, i));
    }
    let (spill, mut edges) = spool.resolve(items.store.metadata(&items.items, &items.edges));
    write(&mut file, spill);
    let mut asked = Vec::new();
    let mut children = Vec::new();
    loop {
        match edges.next() {
            Resolved::Pair(_, child) => children.push(child),
            Resolved::Unresolved { .. } => unreachable!(),
            Resolved::Read(read) => {
                assert!(children.is_empty(), "both runs fit their first block");
                let start = read.offset as usize;
                let mut bytes = file[start..start + read.len].to_vec();
                bytes[8..12].copy_from_slice(&7777u32.to_le_bytes());
                edges.supply(&bytes);
                asked.push((read.offset, read.len));
            }
            Resolved::Done => break,
        }
    }
    asked.sort();
    assert_eq!(asked, vec![(0, 128 * 12), (128 * 12, 128 * 12)]);
    let mut expected: Vec<u32> = (0..256).collect();
    expected[0] = 7777;
    expected[128] = 7777;
    assert_eq!(children, expected);
}

#[test]
fn a_granted_run_is_kept_and_accounted_for() {
    let budget = MemoryBudget::bytes(10_000);
    let spool = EdgeSpool::new(1000, budget.clone());
    assert_eq!(spool.chunk_capacity(), 500);
    assert_eq!(budget.used(), 8_000);
    drop(spool);
    assert_eq!(budget.used(), 0);
    let spool = EdgeSpool::with_run(7, budget.reserve(112).unwrap());
    assert_eq!((spool.chunk_capacity(), budget.used()), (7, 112));
}

#[test]
fn probing_goes_by_the_answers() {
    let budget = MemoryBudget::bytes(10_000);
    let refused = || Err(OutOfBudget { requested: 16_000, available: 10_000 });
    assert!(matches!(settle(1000, 128, refused()), Probe::Ask(500)));
    assert!(matches!(settle(200, 128, refused()), Probe::Ask(128)));
    assert!(matches!(settle(128, 128, refused()), Probe::GaveUp(128)));
    match settle(500, 128, budget.reserve(8_000)) {
        Probe::Granted(500, r) => assert_eq!(r.bytes(), 8_000),
        _ => unreachable!(),
    }
}

#[test]
fn probing_takes_what_is_granted_first() {
    let budget = MemoryBudget::bytes(100);
    let (found, granted) = probe_after(budget.reserve(80), &budget, 8, 2, 10);
    assert_eq!((found, granted.map(|r| r.bytes())), (8, Some(80)));
    let (found, granted) = probe_after(budget.reserve(160), &budget, 16, 2, 10);
    assert_eq!((found, granted.map(|r| r.bytes())), (8, Some(80)));
    let (found, granted) = probe_after(budget.reserve(160), &budget, 16, 16, 10);
    assert_eq!((found, granted.is_none()), (16, true));
}

#[test]
fn small_budgets_hold_nothing() {
    let budget = MemoryBudget::bytes(2047);
    let spool = EdgeSpool::new(1000, budget.clone());
    assert_eq!((spool.chunk_capacity(), budget.used()), (128, 0));
}
