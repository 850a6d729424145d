//! From the entries of a pack to its index.
use std::collections::BTreeMap;

use gitx_bounded::budget::MemoryBudget;
use gitx_bounded::cache::delta;
use gitx_bounded::cache::delta::traverse::resolve::{
    BaseSource, ChildStep, DecodedDelta, Node, Parts, Traversal,
};
use gitx_bounded::cache::delta::traverse::spool::{SpoolFile, SpoolHandle};
use gitx_bounded::cache::delta::traverse::{root_indices, Error as TraverseError};
use gitx_bounded::cache::delta::tree::{FinishedTree, Progress, Tree};
use gitx_bounded::data::{Entry, Header};
use gitx_bounded::hash::compute_hash;
use gitx_bounded::index::encode::write_to;
use gitx_bounded::index::write::external_sort::ExternalSorter;
use gitx_bounded::index::write::{index_entry, Indexer, InputEntry};
use gitx_bounded::index::Version;
use gitx_bounded::object::{Kind, ObjectId};
use gitx_bounded::sort::spill::{Spill, Step};

fn write(file: &mut Vec<u8>, spill: Option<Spill>) {
    if let Some(spill) = spill {
        assert_eq!(spill.offset, file.len() as u64, "scratch files are appended to");
        file.extend_from_slice(&spill.bytes);
    }
}

/// A pack: where each entry is, what it is a delta of, and the bytes of the
/// object, or those that its base has to be extended with.
struct Pack {
    entries: Vec<(u64, Option<u64>, Vec<u8>)>,
    end: u64,
}

impl Pack {
    fn at(&self, offset: u64) -> &[u8] {
        &self.entries.iter().find(|e| e.0 == offset).unwrap().2
    }
}

/// `roots` blobs, each with a chain of `depth` deltas and a second delta of the
/// blob itself.
fn pack(roots: u64, depth: u64) -> Pack {
    let mut entries = Vec::new();
    let mut offset = 12;
    for r in 0..roots {
        let root = offset;
        entries.push((root, None, format!("root {r}").into_bytes()));
        offset += 10;
        let mut base = root;
        for d in 0..depth {
            entries.push((offset, Some(base), format!(" + {d}").into_bytes()));
            base = offset;
            offset += 10;
        }
        entries.push((offset, Some(root), b" & twig".to_vec()));
        offset += 10;
    }
    Pack { entries, end: offset }
}

struct Resolved {
    finished: FinishedTree,
    items: Vec<u8>,
    edge_bytes: usize,
}

fn build(pack: &Pack, budget: &MemoryBudget) -> Resolved {
    let mut indexer = Indexer::new(Version::V2, pack.entries.len(), budget.clone()).unwrap();
    let mut items = Vec::new();
    let mut edges = Vec::new();
    for (offset, base, _) in &pack.entries {
        let header = match base {
            None => Header::Blob,
            Some(base) => Header::OfsDelta { base_distance: offset - base },
        };
        let added = indexer.add(InputEntry {
            header,
            pack_offset: *offset,
            header_size: 2,
            compressed_size: 8,
            decompressed_size: 1,
            trailer: None,
        });
        let writes = added.unwrap();
        items.extend_from_slice(&writes.record);
        write(&mut edges, writes.edges);
    }
    assert_eq!(indexer.pack_entries_end(), pack.end);
    resolve(indexer.into_tree(), items, edges, pack.end).unwrap()
}

fn resolve(tree: Tree, items: Vec<u8>, mut edges: Vec<u8>, end: u64) -> Result<Resolved, TraverseError> {
    let view = items.clone();
    let (spill, mut resolution) = tree.set_pack_entries_end_and_resolve_ref_offsets(&view, end);
    write(&mut edges, spill);
    loop {
        match resolution.advance() {
            Progress::Read(read) => {
                let start = read.offset as usize;
                resolution.supply(&edges[start..start + read.len]);
            }
            Progress::Done => break,
            Progress::Failed(e) => return Err(e),
        }
    }
    let mut items = items;
    let finished = resolution.complete().finish(&mut items)?;
    Ok(Resolved { finished, items, edge_bytes: edges.len() })
}

/// What a traversal handed out: offset, level and bytes of every object.
type Objects = Vec<(u64, u16, Vec<u8>)>;

/// Traverse everything below all roots. Also gives how many bytes were spooled.
fn traverse(pack: &Pack, tree: &Resolved, budget: &MemoryBudget) -> (Objects, u64) {
    let metadata = tree.finished.store.metadata(&tree.items, &tree.finished.edges);
    let mut out = Vec::new();
    let mut spool = SpoolHandle::new();
    let mut file = Vec::new();
    for root in root_indices(&tree.finished.is_root) {
        let mut traversal = Traversal::new(root, &metadata);
        while let Some(base) = traversal.pop(&metadata) {
            let (entry, _end, bytes) = match base.source {
                BaseSource::Pack(range) => {
                    let entry = Entry { header: Header::Blob, decompressed_size: 0, data_offset: range.start + 2 };
                    (entry, range.end, pack.at(range.start).to_vec())
                }
                BaseSource::Stored(delta) => match delta.into_parts() {
                    Parts::Ready { entry, entry_end, bytes } => (entry, entry_end, bytes),
                    Parts::OnSpool { entry, entry_end, read } => {
                        (entry, entry_end, SpoolFile::read_exact(&file, read.offset, read.len).unwrap())
                    }
                },
            };
            out.push((metadata.offset(base.idx), base.level, bytes.clone()));
            for child in metadata.children(base.idx) {
                let range = Node::new(child, &metadata).entry_slice();
                let mut resolved = bytes.clone();
                resolved.extend_from_slice(pack.at(range.start));
                let child_entry = Entry {
                    header: Header::OfsDelta { base_distance: 1 },
                    decompressed_size: 0,
                    data_offset: range.start + 2,
                };
                match traversal.child(
                    &metadata,
                    base.idx,
                    base.level,
                    entry.header,
                    child,
                    child_entry,
                    range.end,
                    resolved,
                    budget,
                    &mut spool,
                ) {
                    ChildStep::Leaf { offset, level, entry, entry_end, bytes } => {
                        assert!(matches!(entry.header, Header::Blob), "the header of the base");
                        assert_eq!(entry_end, range.end);
                        out.push((offset, level, bytes));
                    }
                    ChildStep::Queued(spill) => write(&mut file, spill),
                }
            }
        }
        assert_eq!(traversal.num_waiting(&metadata), 0);
    }
    assert_eq!(spool.bytes_written(), file.len() as u64);
    (out, spool.bytes_written())
}

fn index(objects: &Objects, budget: &MemoryBudget) -> Vec<u8> {
    let mut sorter = ExternalSorter::with_budget(budget).unwrap();
    let mut file = Vec::new();
    for (offset, _, bytes) in objects {
        let entry = index_entry(&Header::Blob, bytes, *offset as u32, *offset).unwrap();
        write(&mut file, sorter.push(entry));
    }
    let (spill, mut sorted) = sorter.finish();
    write(&mut file, spill);
    let mut entries = Vec::new();
    loop {
        match sorted.try_next() {
            Step::Item(e) => entries.push(e),
            Step::Read(read) => {
                let start = read.offset as usize;
                sorted.supply(&file[start..start + read.len]);
            }
            Step::Done => break,
        }
    }
    let mut out = Vec::new();
    write_to(&mut out, &entries, &ObjectId { bytes: [1; 20] }).unwrap();
    out
}

#[test]
fn every_object_is_handed_out_once() {
    let pack = pack(20, 5);
    let budget = MemoryBudget::unlimited();
    let tree = build(&pack, &budget);
    let (objects, spooled) = traverse(&pack, &tree, &budget);
    assert_eq!(spooled, 0);
    let mut offsets: Vec<u64> = objects.iter().map(|o| o.0).collect();
    offsets.sort();
    let all: Vec<u64> = pack.entries.iter().map(|e| e.0).collect();
    assert_eq!(offsets, all);
    assert_eq!(budget.used(), 0, "nothing is held in the end");
}

#[test]
fn objects_are_built_upon_their_bases() {
    let pack = pack(1, 3);
    let budget = MemoryBudget::unlimited();
    let tree = build(&pack, &budget);
    let (objects, _) = traverse(&pack, &tree, &budget);
    let by_offset: BTreeMap<u64, (u16, String)> = objects
        .into_iter()
        .map(|(o, level, b)| (o, (level, String::from_utf8(b).unwrap())))
        .collect();
    assert_eq!(by_offset[&12], (0, "root 0".to_string()));
    assert_eq!(by_offset[&22], (1, "root 0 + 0".to_string()));
    assert_eq!(by_offset[&32], (2, "root 0 + 0 + 1".to_string()));
    assert_eq!(by_offset[&42], (3, "root 0 + 0 + 1 + 2".to_string()));
    assert_eq!(by_offset[&52], (1, "root 0 & twig".to_string()));
}

#[test]
fn index_does_not_depend_on_the_budget() {
    let pack = pack(60, 5);
    let mut indices = Vec::new();
    for budget in [MemoryBudget::unlimited(), MemoryBudget::bytes(0), MemoryBudget::bytes(4096)] {
        let tree = build(&pack, &budget);
        let (objects, spooled) = traverse(&pack, &tree, &budget);
        assert_eq!(objects.len(), 420);
        if budget.cap() == 0 {
            assert!(spooled > 0, "every base with children is spooled");
            assert!(tree.edge_bytes > 0, "runs of edges are spooled");
        }
        indices.push(index(&objects, &budget));
        assert!(budget.peak_used() <= budget.cap());
        assert_eq!(budget.used(), 0);
    }
    assert_eq!(indices[0], indices[1]);
    assert_eq!(indices[0], indices[2]);
    let some = compute_hash(Kind::Blob, b"root 7 & twig").unwrap();
    assert!(indices[0].windows(20).any(|w| w == some.bytes));
}

#[test]
fn roots_are_those_that_are_no_deltas() {
    let pack = pack(3, 1);
    let tree = build(&pack, &MemoryBudget::unlimited());
    assert_eq!(root_indices(&tree.finished.is_root), vec![0, 3, 6]);
    let metadata = tree.finished.store.metadata(&tree.items, &tree.finished.edges);
    assert_eq!(metadata.children(0), vec![1, 2]);
    assert_eq!(metadata.children(3), vec![4, 5]);
    let node = Node::new(3, &metadata);
    assert_eq!(node.offset(), 42);
    assert!(node.has_children());
    assert_eq!(node.into_child_iter(), vec![4, 5]);
    assert!(!Node::new(5, &metadata).has_children());
}

#[test]
fn children_may_come_before_their_base() {
    let mut tree = Tree::with_capacity_unlimited(3);
    let mut items = Vec::new();
    items.extend_from_slice(&tree.add_child(30, 10).unwrap().record);
    items.extend_from_slice(&tree.add_child(30, 20).unwrap().record);
    items.extend_from_slice(&tree.add_root(30).unwrap().record);
    let done = resolve(tree, items, Vec::new(), 40).unwrap_or_else(|e| panic!("{e:?}"));
    let metadata = done.finished.store.metadata(&done.items, &done.finished.edges);
    assert_eq!(metadata.children(2), vec![0, 1]);
    assert_eq!(metadata.next_offset(2), 40);
    assert_eq!(root_indices(&done.finished.is_root), vec![2]);
}

#[test]
fn a_missing_base_is_an_error() {
    let mut tree = Tree::with_capacity_unlimited(2);
    let mut items = Vec::new();
    items.extend_from_slice(&tree.add_root(10).unwrap().record);
    items.extend_from_slice(&tree.add_child(15, 20).unwrap().record);
    let failed = resolve(tree, items, Vec::new(), 30).err();
    assert!(matches!(failed, Some(TraverseError::OutOfPackRefDelta { base_pack_offset: 15 })));
}

#[test]
fn the_first_of_several_missing_bases_is_named() {
    let mut tree = Tree::with_capacity_unlimited(4);
    let mut items = Vec::new();
    items.extend_from_slice(&tree.add_child(35, 10).unwrap().record);
    items.extend_from_slice(&tree.add_child(25, 20).unwrap().record);
    items.extend_from_slice(&tree.add_child(10, 30).unwrap().record);
    items.extend_from_slice(&tree.add_child(55, 40).unwrap().record);
    let failed = resolve(tree, items, Vec::new(), 50).err();
    assert!(matches!(failed, Some(TraverseError::OutOfPackRefDelta { base_pack_offset: 25 })));
}

#[test]
fn the_answer_decides_where_an_object_is_kept() {
    let entry = Entry { header: Header::Tag, decompressed_size: 5, data_offset: 14 };
    let budget = MemoryBudget::bytes(5);
    let mut spool = SpoolHandle::new();
    let granted = budget.reserve(5);
    let (kept, spill) = DecodedDelta::store_reserved(entry, 30, b"hello".to_vec(), granted, &mut spool);
    assert!(spill.is_none());
    let refused = budget.reserve(1);
    let (_spilled, spill) = DecodedDelta::store_reserved(entry, 31, b"x".to_vec(), refused, &mut spool);
    let spill = spill.unwrap();
    assert_eq!((spill.offset, &spill.bytes[..]), (0, &b"x"[..]));
    let (_empty, spill) = DecodedDelta::store(entry, 32, Vec::new(), &budget, &mut spool);
    assert!(spill.is_none(), "nothing takes no memory");
    assert_eq!(budget.used(), 5);
    assert!(matches!(kept.into_parts(), Parts::Ready { entry_end: 30, .. }));
}

#[test]
fn objects_are_handed_out_where_bases_come_last() {
    let mut tree = Tree::with_capacity_unlimited(3);
    let mut items = Vec::new();
    items.extend_from_slice(&tree.add_child(20, 10).unwrap().record);
    items.extend_from_slice(&tree.add_child(30, 20).unwrap().record);
    items.extend_from_slice(&tree.add_root(30).unwrap().record);
    let done = resolve(tree, items, Vec::new(), 40).unwrap_or_else(|e| panic!("{e:?}"));
    let pack = Pack {
        entries: vec![(10, Some(20), b"c".to_vec()), (20, Some(30), b"b".to_vec()), (30, None, b"a".to_vec())],
        end: 40,
    };
    let (objects, _) = traverse(&pack, &done, &MemoryBudget::unlimited());
    let expected = vec![(30, 0, b"a".to_vec()), (20, 1, b"ab".to_vec()), (10, 2, b"abc".to_vec())];
    assert_eq!(objects, expected);
}

#[test]
fn offsets_only_increment() {
    let mut tree = Tree::with_capacity(2, MemoryBudget::bytes(0));
    tree.add_root(10).unwrap();
    assert!(tree.assert_is_incrementing(11).is_ok());
    for offset in [3, 10] {
        let expected = |r: Result<_, delta::Error>| {
            matches!(r, Err(delta::Error::InvariantIncreasingPackOffset { last_pack_offset: 10, pack_offset: o }) if o == offset)
        };
        assert!(expected(tree.add_root(offset).map(|_| ())));
        assert!(expected(tree.add_child(1, offset).map(|_| ())));
        assert!(expected(tree.assert_is_incrementing(offset)));
    }
    assert_eq!(tree.num_items(), 1);
    assert_eq!(tree.edge_bytes_written(), 0);
}

#[test]
fn objects_are_kept_in_memory_or_on_the_spool() {
    let entry = Entry { header: Header::Tag, decompressed_size: 5, data_offset: 14 };
    let budget = MemoryBudget::bytes(5);
    let mut spool = SpoolHandle::new();
    let mut file = b"".to_vec();

    let (kept, spill) = DecodedDelta::store(entry, 30, b"hello".to_vec(), &budget, &mut spool);
    assert!(spill.is_none());
    assert_eq!(budget.used(), 5);
    let (spilled, spill) = DecodedDelta::store(entry, 31, b"world!".to_vec(), &budget, &mut spool);
    write(&mut file, spill);
    let (more, spill) = DecodedDelta::store(entry, 32, b"x".to_vec(), &budget, &mut spool);
    write(&mut file, spill);
    assert_eq!(file, b"world!x");

    match kept.into_parts() {
        Parts::Ready { entry_end, bytes, .. } => {
            assert_eq!((entry_end, bytes), (30, b"hello".to_vec()));
        }
        Parts::OnSpool { .. } => panic!("it was kept in memory"),
    }
    assert_eq!(budget.used(), 0, "no longer accounted for");
    for (delta, end, content) in [(spilled, 31, &b"world!"[..]), (more, 32, &b"x"[..])] {
        match delta.into_parts() {
            Parts::OnSpool { entry_end, read, .. } => {
                assert_eq!(entry_end, end);
                assert_eq!(SpoolFile::read_exact(&file, read.offset, read.len).unwrap(), content);
            }
            Parts::Ready { .. } => panic!("it was spooled"),
        }
    }
}

#[test]
fn index_depends_on_objects_only() {
    let pack = pack(30, 4);
    let budget = MemoryBudget::unlimited();
    let tree = build(&pack, &budget);
    let (mut objects, _) = traverse(&pack, &tree, &budget);
    let forward = index(&objects, &budget);
    objects.reverse();
    assert_eq!(index(&objects, &MemoryBudget::bytes(0)), forward);
}

#[test]
fn index_lists_every_object_once() {
    let pack = pack(25, 3);
    let budget = MemoryBudget::bytes(2048);
    let tree = build(&pack, &budget);
    let (objects, _) = traverse(&pack, &tree, &budget);
    let index = index(&objects, &budget);
    let number = |at: usize| u32::from_be_bytes(index[at..at + 4].try_into().unwrap());
    let n = number(8 + 255 * 4) as usize;
    assert_eq!(n, pack.entries.len());
    let offsets_at = 8 + 1024 + n * 24;
    let mut offsets: Vec<u64> = (0..n).map(|i| u64::from(number(offsets_at + i * 4))).collect();
    offsets.sort();
    let all: Vec<u64> = pack.entries.iter().map(|e| e.0).collect();
    assert_eq!(offsets, all);
}

#[test]
fn edges_of_a_tree_are_accounted_for() {
    let budget = MemoryBudget::bytes(10_000);
    let tree = Tree::with_capacity(1000, budget.clone());
    assert_eq!(budget.used(), 8_000);
    drop(tree);
    assert_eq!(budget.used(), 0);
    let indexer = Indexer::new(Version::V2, 200, budget.clone()).unwrap();
    assert_eq!(budget.used(), 3_200);
    let tree = indexer.into_tree();
    assert_eq!(budget.used(), 3_200);
    drop(tree);
    let _unlimited = Tree::with_capacity_unlimited(1000);
    assert_eq!(budget.used(), 0);
}
