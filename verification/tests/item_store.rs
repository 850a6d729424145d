//! The items of a delta tree as byte images.
use gitx_bounded::cache::delta::item_store::{ItemStoreBuilder, Patch};

fn push(b: &mut ItemStoreBuilder, items: &mut Vec<u8>, offset: u64) -> u32 {
    let new = b.push(offset).unwrap();
    items.extend_from_slice(&new.record);
    new.idx
}

fn apply(items: &mut [u8], patch: Patch) {
    let at = patch.at as usize;
    items[at..at + patch.bytes.len()].copy_from_slice(&patch.bytes);
}

#[test]
fn empty_store_constructs_cleanly() {
    let b = ItemStoreBuilder::new(0);
    let mut items = Vec::new();
    let done = b.finish(&mut items, &Vec::new(), 0).expect("finish");
    assert_eq!(done.store.num_items(), 0);
    assert_eq!(done.store.num_edges(), 0);
    let md = done.store.metadata(&items, &done.edges);
    assert_eq!(md.num_items(), 0);
}

#[test]
fn push_then_read_back_offsets() {
    let mut b = ItemStoreBuilder::new(4);
    let mut items = Vec::new();
    assert_eq!(push(&mut b, &mut items, 100), 0);
    assert_eq!(push(&mut b, &mut items, 200), 1);
    assert_eq!(push(&mut b, &mut items, 300), 2);
    let done = b.finish(&mut items, &Vec::new(), 400).unwrap();
    let md = done.store.metadata(&items, &done.edges);
    assert_eq!(md.num_items(), 3);
    assert_eq!(md.offset(0), 100);
    assert_eq!(md.offset(1), 200);
    assert_eq!(md.offset(2), 300);
    assert_eq!(md.next_offset(0), 200);
    assert_eq!(md.next_offset(1), 300);
    assert_eq!(md.next_offset(2), 400);
    assert_eq!(md.children(0), &[] as &[u32]);
    assert_eq!(md.children(1), &[] as &[u32]);
    assert_eq!(md.children(2), &[] as &[u32]);
}

#[test]
fn children_assembled_from_sorted_edges() {
    let mut b = ItemStoreBuilder::new(5);
    let mut items = Vec::new();
    for (i, offs) in [100u64, 200, 300, 400, 500].iter().copied().enumerate() {
        let idx = push(&mut b, &mut items, offs);
        assert_eq!(idx, i as u32);
    }
    let edges: Vec<(u32, u32)> = vec![(0, 1), (0, 3), (1, 2), (3, 4)];
    let done = b.finish(&mut items, &edges, 600).unwrap();
    assert_eq!(done.store.num_edges(), 4);
    let md = done.store.metadata(&items, &done.edges);
    assert_eq!(md.children(0), &[1, 3]);
    assert_eq!(md.children(1), &[2]);
    assert_eq!(md.children(2), &[] as &[u32]);
    assert_eq!(md.children(3), &[4]);
    assert_eq!(md.children(4), &[] as &[u32]);
    assert_eq!(md.num_children(0), 2);
    assert_eq!(md.next_offset(0), 200);
    assert_eq!(md.next_offset(1), 300);
    assert_eq!(md.next_offset(2), 400);
    assert_eq!(md.next_offset(3), 500);
    assert_eq!(md.next_offset(4), 600);
}

#[test]
fn large_fanout_tree() {
    let n = 1001u32;
    let mut b = ItemStoreBuilder::new(n as usize);
    let mut items = Vec::new();
    for i in 0..n {
        push(&mut b, &mut items, u64::from(i) * 10 + 1);
    }
    let edges: Vec<(u32, u32)> = (1..n).map(|i| (0, i)).collect();
    let done = b.finish(&mut items, &edges, u64::from(n) * 10 + 100).unwrap();
    let md = done.store.metadata(&items, &done.edges);
    let ch = md.children(0);
    assert_eq!(ch.len(), (n - 1) as usize);
    for (i, &c) in ch.iter().enumerate() {
        assert_eq!(c, (i as u32) + 1);
    }
}

#[test]
fn num_items_reflects_push_count() {
    let mut b = ItemStoreBuilder::new(0);
    let mut items = Vec::new();
    assert_eq!(b.num_items(), 0);
    push(&mut b, &mut items, 10);
    assert_eq!(b.num_items(), 1);
    push(&mut b, &mut items, 20);
    push(&mut b, &mut items, 30);
    assert_eq!(b.num_items(), 3);
    apply(&mut items, b.set_next_offset(0, 20));
    assert_eq!(b.num_items(), 3);
}

#[test]
fn interim_metadata_reads_partial_items_file() {
    let mut b = ItemStoreBuilder::new(4);
    let mut items = Vec::new();
    push(&mut b, &mut items, 100);
    push(&mut b, &mut items, 200);
    push(&mut b, &mut items, 300);
    apply(&mut items, b.set_next_offset(0, 200));
    apply(&mut items, b.set_next_offset(1, 300));
    apply(&mut items, b.set_next_offset(2, 999));

    let md = b.interim_metadata(&items);
    assert_eq!(md.num_items(), 3);
    assert_eq!(md.offset(0), 100);
    assert_eq!(md.offset(1), 200);
    assert_eq!(md.offset(2), 300);
    assert_eq!(md.next_offset(0), 200);
    assert_eq!(md.next_offset(1), 300);
    assert_eq!(md.next_offset(2), 999);
    assert_eq!(md.children(0), &[] as &[u32]);
}

#[test]
fn interim_metadata_then_push_then_interim_again() {
    let mut b = ItemStoreBuilder::new(8);
    let mut items = Vec::new();
    push(&mut b, &mut items, 100);
    push(&mut b, &mut items, 200);
    {
        let md = b.interim_metadata(&items);
        assert_eq!(md.num_items(), 2);
        assert_eq!(md.offset(1), 200);
    }
    push(&mut b, &mut items, 300);
    push(&mut b, &mut items, 400);
    let md = b.interim_metadata(&items);
    assert_eq!(md.num_items(), 4);
    assert_eq!(md.offset(0), 100);
    assert_eq!(md.offset(2), 300);
    assert_eq!(md.offset(3), 400);
}

#[test]
fn interim_metadata_on_empty_builder() {
    let b = ItemStoreBuilder::new(0);
    let md = b.interim_metadata(&[]);
    assert_eq!(md.num_items(), 0);
}

#[test]
fn set_next_offset_is_idempotent_cheap_accessor() {
    let mut b = ItemStoreBuilder::new(2);
    let mut items = Vec::new();
    push(&mut b, &mut items, 100);
    push(&mut b, &mut items, 200);
    apply(&mut items, b.set_next_offset(0, 200));
    apply(&mut items, b.set_next_offset(1, 999));
    apply(&mut items, b.set_next_offset(0, 201));
    let md = b.interim_metadata(&items);
    assert_eq!(md.offset(0), 100);
    assert_eq!(md.offset(1), 200);
    assert_eq!(md.next_offset(0), 201, "re-patched next_offset");
    assert_eq!(md.next_offset(1), 999, "neighbour must be untouched");
}

#[test]
fn records_are_stored_little_endian() {
    let mut b = ItemStoreBuilder::new(1);
    let new = b.push(0x0102_0304_0506_0708).unwrap();
    assert_eq!(new.record[..8], [8, 7, 6, 5, 4, 3, 2, 1]);
    assert_eq!(new.record[8..], [0u8; 16]);
    let patch = b.set_next_offset(0, 0x1112_1314_1516_1718);
    assert_eq!(patch.at, 8);
    assert_eq!(patch.bytes, vec![0x18, 0x17, 0x16, 0x15, 0x14, 0x13, 0x12, 0x11]);
}
