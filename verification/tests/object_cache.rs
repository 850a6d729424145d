//! Caches of whole objects.
use gitx_bounded::budget::MemoryBudget;
use gitx_bounded::cache::object::{Entry, MemoryCappedHashmap, Never};
use gitx_bounded::cache::Object;
use gitx_bounded::object::{Kind, ObjectId};

fn id_with_first_byte(b: u8) -> ObjectId {
    let mut bytes = [0u8; 20];
    bytes[0] = b;
    ObjectId { bytes }
}

#[test]
fn object_put_over_budget_is_dropped_silently() {
    let budget = MemoryBudget::bytes(16); // smaller than even one entry's weight
    let mut c = MemoryCappedHashmap::with_memory_budget(1024, budget.clone());

    c.put(id_with_first_byte(1), Kind::Blob, &vec![0u8; 100]);

    let mut out = Vec::new();
    assert!(
        c.get(&id_with_first_byte(1), &mut out).is_none(),
        "a put that cannot be accounted for must not land in the cache",
    );
    assert_eq!(
        budget.used(),
        0,
        "a rejected put must not leave bytes reserved against the budget",
    );
}

#[test]
fn put_within_budget_reserves_bytes_matching_clru_weight() {
    let budget = MemoryBudget::bytes(10 * 1024);
    let mut c = MemoryCappedHashmap::with_memory_budget(10 * 1024, budget.clone());

    let data = vec![7u8; 100];
    let id = id_with_first_byte(1);
    c.put(id, Kind::Blob, &data);

    let mut out = Vec::new();
    assert!(c.get(&id, &mut out).is_some(), "stored entry should be retrievable");
    assert_eq!(out, data);
    let min = data.len() + id.bytes.len();
    assert!(
        budget.used() > min as u64,
        "expected > {} used (data + key), got {}",
        min,
        budget.used(),
    );
}

#[test]
fn object_dropping_cache_releases_all_reservations() {
    let budget = MemoryBudget::bytes(10 * 1024);
    {
        let mut c = MemoryCappedHashmap::with_memory_budget(10 * 1024, budget.clone());
        c.put(id_with_first_byte(1), Kind::Blob, &[0u8; 100]);
        assert!(budget.used() > 0);
    }
    assert_eq!(
        budget.used(),
        0,
        "dropping the cache must drop every Entry and release its Reservation",
    );
}

#[test]
fn object_legacy_new_participates_in_no_external_budget() {
    let external_budget = MemoryBudget::bytes(16);
    let mut c = MemoryCappedHashmap::new(10 * 1024);
    c.put(id_with_first_byte(1), Kind::Blob, &vec![0u8; 200]);
    let mut out = Vec::new();
    assert!(
        c.get(&id_with_first_byte(1), &mut out).is_some(),
        "legacy constructor must store entries regardless of any external budget",
    );
    assert_eq!(
        external_budget.used(),
        0,
        "legacy constructor must not touch unrelated budgets",
    );
}

#[test]
fn weight_is_data_entry_and_name() {
    let budget = MemoryBudget::unlimited();
    let mut c = MemoryCappedHashmap::with_memory_budget(1024, budget.clone());
    assert_eq!(c.capacity(), 1024);
    c.put(id_with_first_byte(1), Kind::Blob, &[0; 100]);
    let overhead = std::mem::size_of::<Entry>() as u64 + 20;
    assert_eq!(budget.used(), 100 + overhead);
    c.put(id_with_first_byte(1), Kind::Blob, &[0; 50]);
    assert_eq!(budget.used(), 50 + overhead, "the former one is let go");
}

#[test]
fn names_tell_objects_apart() {
    let mut c = MemoryCappedHashmap::new(10 * 1024);
    let mut out = Vec::new();
    c.put(id_with_first_byte(1), Kind::Tree, b"one");
    c.put(id_with_first_byte(2), Kind::Commit, b"two");
    assert_eq!(c.get(&id_with_first_byte(1), &mut out), Some(Kind::Tree));
    assert_eq!(out, b"one");
    assert_eq!(c.get(&id_with_first_byte(2), &mut out), Some(Kind::Commit));
    assert_eq!(out, b"two");
    assert_eq!(c.get(&id_with_first_byte(3), &mut out), None);
    assert_eq!(out, b"two");
}

#[test]
fn least_recently_used_object_goes_first() {
    let overhead = std::mem::size_of::<Entry>() + 20 + 1;
    let mut c = MemoryCappedHashmap::new(2 * (100 + overhead));
    let mut out = Vec::new();
    c.put(id_with_first_byte(1), Kind::Blob, &[1; 100]);
    c.put(id_with_first_byte(2), Kind::Blob, &[2; 100]);
    assert!(c.get(&id_with_first_byte(1), &mut out).is_some());
    c.put(id_with_first_byte(3), Kind::Blob, &[3; 100]);
    assert!(c.get(&id_with_first_byte(2), &mut out).is_none());
    assert!(c.get(&id_with_first_byte(1), &mut out).is_some());
    assert!(c.get(&id_with_first_byte(3), &mut out).is_some());
}

#[test]
fn object_too_heavy_for_the_cache_is_ignored() {
    let budget = MemoryBudget::unlimited();
    let mut c = MemoryCappedHashmap::with_memory_budget(100, budget.clone());
    let mut out = Vec::new();
    c.put(id_with_first_byte(1), Kind::Blob, &[1; 100]);
    assert!(c.get(&id_with_first_byte(1), &mut out).is_none());
    assert_eq!(budget.used(), 0);
}

#[test]
fn never_keeps_nothing() {
    let mut c = Never;
    let mut out = vec![1, 2, 3];
    c.put(id_with_first_byte(1), Kind::Blob, b"x");
    assert_eq!(c.get(&id_with_first_byte(1), &mut out), None);
    assert_eq!(out, vec![1, 2, 3]);
}

#[test]
fn a_box_forwards_to_what_is_in_it() {
    let mut c = Box::new(MemoryCappedHashmap::new(1024));
    let mut out = Vec::new();
    Object::put(&mut c, id_with_first_byte(1), Kind::Tag, b"boxed");
    assert_eq!(Object::get(&mut c, &id_with_first_byte(1), &mut out), Some(Kind::Tag));
    assert_eq!(out, b"boxed");
}

#[test]
fn object_cache_of_any_limit_takes_what_it_can_count() {
    let mut c = MemoryCappedHashmap::new(usize::MAX);
    let mut out = Vec::new();
    assert!(c.accepts(10));
    c.put(id_with_first_byte(1), Kind::Blob, &[1; 10]);
    assert_eq!(c.get(&id_with_first_byte(1), &mut out), Some(Kind::Blob));
    assert_eq!(out, vec![1; 10]);
    assert!(!c.accepts(usize::MAX));
}
