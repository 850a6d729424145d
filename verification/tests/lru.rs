//! Caches of decoded pack entries.
use gitx_bounded::budget::{MemoryBudget, OutOfBudget};
use gitx_bounded::cache::lru::{MemoryCappedHashmap, StaticLinkedList};
use gitx_bounded::cache::lru::linked_list::Lookup;
use gitx_bounded::cache::{fill, set_vec_to_slice, DecodeEntry};
use gitx_bounded::object::Kind;

#[test]
fn lru_put_over_budget_is_dropped_silently() {
    {
        let budget = MemoryBudget::bytes(10);
        let mut c = MemoryCappedHashmap::with_memory_budget(1024, budget.clone());

        c.put(0, 0, &vec![0u8; 100], Kind::Blob, 100);

        let mut out = Vec::new();
        assert!(
            c.get(0, 0, &mut out).is_none(),
            "a put that cannot be accounted for must not land in the cache",
        );
        assert_eq!(
            budget.used(),
            0,
            "a rejected put must not leave bytes reserved against the budget",
        );
    }
    {
        let budget = MemoryBudget::bytes(10);
        let mut c = StaticLinkedList::<10>::with_memory_budget(1_000_000, budget.clone());

        c.put(0, 0, &vec![0u8; 100], Kind::Blob, 100);

        let mut out = Vec::new();
        assert!(
            c.get(0, 0, &mut out).is_none(),
            "a put that cannot be accounted for must not land in the cache",
        );
        assert_eq!(
            budget.used(),
            0,
            "a rejected put must not leave bytes reserved against the budget",
        );
        assert_eq!(
            c.num_entries(),
            0,
            "a budget rejection must not mutate the cache state",
        );
    }
}

#[test]
fn put_within_budget_reserves_exactly_data_len_bytes() {
    let budget = MemoryBudget::bytes(1024);
    let mut c = MemoryCappedHashmap::with_memory_budget(1024, budget.clone());

    let data = vec![7u8; 100];
    c.put(0, 0, &data, Kind::Blob, data.len());

    let mut out = Vec::new();
    assert!(c.get(0, 0, &mut out).is_some(), "stored entry should be retrievable");
    assert_eq!(out, data);
    assert_eq!(
        budget.used(),
        100,
        "per-entry accounting must match the clru weight function (data.len())",
    );
}

#[test]
fn lru_dropping_cache_releases_all_reservations() {
    {
        let budget = MemoryBudget::bytes(1024);
        {
            let mut c = MemoryCappedHashmap::with_memory_budget(1024, budget.clone());
            c.put(0, 0, &vec![3u8; 100], Kind::Blob, 100);
            assert_eq!(budget.used(), 100);
        }
        assert_eq!(
            budget.used(),
            0,
            "dropping the cache must drop every Entry and release its Reservation",
        );
    }
    {
        let budget = MemoryBudget::bytes(1024);
        {
            let mut c = StaticLinkedList::<10>::with_memory_budget(1_000_000, budget.clone());
            c.put(0, 0, &vec![1u8; 100], Kind::Blob, 100);
            c.put(0, 1, &vec![2u8; 100], Kind::Blob, 100);
            assert_eq!(budget.used(), 200);
        }
        assert_eq!(
            budget.used(),
            0,
            "dropping the cache must drop every Entry and release its Reservation",
        );
    }
}

#[test]
fn lru_legacy_new_participates_in_no_external_budget() {
    {
        let external_budget = MemoryBudget::bytes(10);
        let mut c = MemoryCappedHashmap::new(1024);
        c.put(0, 0, &vec![0u8; 200], Kind::Blob, 200);
        let mut out = Vec::new();
        assert!(
            c.get(0, 0, &mut out).is_some(),
            "legacy constructor must store entries regardless of any external budget",
        );
        assert_eq!(
            external_budget.used(),
            0,
            "legacy constructor must not touch unrelated budgets",
        );
    }
    {
        let external_budget = MemoryBudget::bytes(10);
        let mut c = StaticLinkedList::<10>::new(1_000_000);
        c.put(0, 0, &vec![0u8; 200], Kind::Blob, 200);
        let mut out = Vec::new();
        assert!(
            c.get(0, 0, &mut out).is_some(),
            "legacy constructor must store entries regardless of any external budget",
        );
        assert_eq!(
            external_budget.used(),
            0,
            "legacy constructor must not touch unrelated budgets",
        );
    }
}

#[test]
fn no_limit() {
    let c = StaticLinkedList::<10>::new(0);
    assert_eq!(
        c.mem_limit(),
        usize::MAX,
        "zero is automatically turned into a large limit that is equivalent to unlimited"
    );
}

#[test]
fn journey() {
    let mut c = StaticLinkedList::<10>::new(100);
    assert_eq!(c.mem_limit(), 100);
    assert_eq!(c.mem_used(), 0);

    let mut last_mem_used = 0;
    for _ in 0..10 {
        c.put(0, 0, &[0], Kind::Blob, 1);
        assert!(c.mem_used() > last_mem_used);
        last_mem_used = c.mem_used();
    }
    assert_eq!(c.mem_used(), 80, "there is a minimal vec size");
    assert_eq!(c.num_entries(), 10);
    assert_eq!(c.last_evicted_len(), 0);

    c.put(0, 0, &(0..20).collect::<Vec<_>>(), Kind::Blob, 1);
    assert_eq!(c.num_entries(), 10);
    assert_eq!(c.mem_used(), 80 + 20);
    assert_eq!(c.last_evicted_len(), 1);

    c.put(0, 0, &(0..50).collect::<Vec<_>>(), Kind::Blob, 1);
    assert_eq!(c.num_entries(), 1, "cache clearance wasn't necessary");
    assert_eq!(c.last_evicted_len(), 0, "the free list was cleared");
    assert_eq!(c.mem_used(), 50);

    c.put(0, 0, &(0..101).collect::<Vec<_>>(), Kind::Blob, 1);
    assert_eq!(
        c.num_entries(),
        1,
        "objects that won't ever fit within the memory limit are ignored"
    );
}

#[test]
fn put_within_budget_reserves_data_len_bytes() {
    let budget = MemoryBudget::bytes(1024);
    let mut c = StaticLinkedList::<10>::with_memory_budget(1_000_000, budget.clone());

    c.put(0, 0, &vec![7u8; 100], Kind::Blob, 100);
    let mut out = Vec::new();
    assert!(c.get(0, 0, &mut out).is_some(), "stored entry should be retrievable");
    assert_eq!(
        budget.used(),
        100,
        "per-entry accounting must match data.len() for StaticLinkedList",
    );
}

#[test]
fn evicted_entry_releases_budget() {
    let budget = MemoryBudget::bytes(1024);
    let mut c = StaticLinkedList::<2>::with_memory_budget(1_000_000, budget.clone());

    c.put(0, 0, &vec![1u8; 10], Kind::Blob, 10);
    c.put(0, 1, &vec![2u8; 20], Kind::Blob, 20);
    assert_eq!(budget.used(), 30, "two entries: 10 + 20 bytes");

    c.put(0, 2, &vec![3u8; 30], Kind::Blob, 30);
    assert_eq!(
        budget.used(),
        50,
        "evicted entry must release its reserved bytes back to the shared budget",
    );
}

#[test]
fn cache_clear_via_local_limit_releases_all_budget() {
    let budget = MemoryBudget::bytes(1024);
    let mut c = StaticLinkedList::<10>::with_memory_budget(200, budget.clone());

    c.put(0, 0, &vec![1u8; 20], Kind::Blob, 20);
    c.put(0, 1, &vec![2u8; 30], Kind::Blob, 30);
    assert!(budget.used() > 0);

    c.put(0, 2, &vec![3u8; 190], Kind::Blob, 190);

    assert_eq!(
        budget.used(),
        190,
        "inner.clear() must drop every held Entry and release its reservation",
    );
}

#[test]
fn set_vec_replaces_what_was_there() {
    let mut v = vec![1, 2, 3];
    assert_eq!(set_vec_to_slice(&mut v, &[4, 5]), Some(()));
    assert_eq!(v, vec![4, 5]);
    assert_eq!(set_vec_to_slice(&mut v, &[]), Some(()));
    assert!(v.is_empty());
}

#[test]
fn hashmap_evicts_the_least_recently_used() {
    let budget = MemoryBudget::unlimited();
    let mut c = MemoryCappedHashmap::with_memory_budget(100, budget.clone());
    let mut out = Vec::new();
    c.put(0, 1, &[1; 30], Kind::Blob, 11);
    c.put(0, 2, &[2; 30], Kind::Tree, 12);
    c.put(0, 3, &[3; 30], Kind::Tag, 13);
    assert_eq!(c.get(0, 1, &mut out), Some((Kind::Blob, 11)));
    assert_eq!(out, vec![1; 30]);
    c.put(0, 4, &[4; 30], Kind::Commit, 14);
    assert_eq!(c.get(0, 2, &mut out), None, "used longest ago");
    assert_eq!(out, vec![1; 30], "a miss leaves the buffer alone");
    assert_eq!(c.get(0, 1, &mut out), Some((Kind::Blob, 11)));
    assert_eq!(c.get(0, 3, &mut out), Some((Kind::Tag, 13)));
    assert_eq!(c.get(0, 4, &mut out), Some((Kind::Commit, 14)));
    assert_eq!(budget.used(), 90);
}

#[test]
fn hashmap_counts_one_more_per_entry() {
    let mut out = Vec::new();
    let mut c = MemoryCappedHashmap::new(100);
    c.put(0, 1, &[1; 50], Kind::Blob, 1);
    c.put(0, 2, &[2; 48], Kind::Blob, 1);
    assert!(c.get(0, 1, &mut out).is_some(), "50 + 48 + 2 is the limit");
    c.put(0, 2, &[2; 49], Kind::Blob, 1);
    assert!(c.get(0, 1, &mut out).is_none(), "50 + 49 + 2 is more");
    assert!(c.get(0, 2, &mut out).is_some());
}

#[test]
fn hashmap_ignores_what_reaches_the_limit() {
    let budget = MemoryBudget::unlimited();
    let mut c = MemoryCappedHashmap::with_memory_budget(100, budget.clone());
    let mut out = Vec::new();
    c.put(0, 1, &[1; 10], Kind::Blob, 1);
    c.put(0, 1, &[2; 100], Kind::Blob, 2);
    assert_eq!(c.get(0, 1, &mut out), Some((Kind::Blob, 1)), "the former one stays");
    assert_eq!(budget.used(), 10);
    c.put(0, 2, &[2; 99], Kind::Blob, 2);
    assert_eq!(c.get(0, 2, &mut out), Some((Kind::Blob, 2)));
    assert_eq!(budget.used(), 99);
}

#[test]
fn hashmap_replaces_the_entry_of_a_key() {
    let budget = MemoryBudget::unlimited();
    let mut c = MemoryCappedHashmap::with_memory_budget(100, budget.clone());
    let mut out = Vec::new();
    c.put(7, 1, &[1; 10], Kind::Blob, 1);
    c.put(7, 1, &[2; 20], Kind::Tree, 2);
    assert_eq!(budget.used(), 20, "the former one is let go");
    assert_eq!(c.get(7, 1, &mut out), Some((Kind::Tree, 2)));
    assert_eq!(out, vec![2; 20]);
    assert_eq!(c.get(8, 1, &mut out), None, "the pack counts too");
}

#[test]
fn put_reserved_follows_the_answer() {
    let budget = MemoryBudget::bytes(1000);
    let mut c = MemoryCappedHashmap::with_memory_budget(100, budget.clone());
    let mut out = Vec::new();
    c.put_reserved(0, 1, vec![1; 10], Kind::Blob, 5, budget.reserve(10));
    assert_eq!(c.get(0, 1, &mut out), Some((Kind::Blob, 5)));
    let refused = Err(OutOfBudget { requested: 10, available: 0 });
    c.put_reserved(0, 2, vec![2; 10], Kind::Blob, 5, refused);
    assert_eq!(c.get(0, 2, &mut out), None);
    assert_eq!(budget.used(), 10);
}

#[test]
fn list_finds_the_latest_first() {
    let mut c = StaticLinkedList::<3>::new(0);
    let mut out = Vec::new();
    c.put(0, 1, &[1], Kind::Blob, 1);
    c.put(0, 1, &[2], Kind::Tree, 2);
    assert_eq!(c.num_entries(), 2, "a key may be there twice");
    assert_eq!(c.first_at(0, 1, 0), Some(0));
    assert_eq!(c.first_at(0, 1, 1), Some(1));
    assert_eq!(c.first_at(0, 1, 2), None);
    assert_eq!(c.first_at(0, 2, 0), None);
    assert_eq!(c.get(0, 1, &mut out), Some((Kind::Tree, 2)));
    assert_eq!(out, vec![2]);
}

#[test]
fn list_moves_what_is_used_to_the_front() {
    let mut c = StaticLinkedList::<2>::default();
    assert_eq!(c.mem_limit(), 96 * 1024 * 1024);
    let mut out = Vec::new();
    c.put(0, 1, &[1], Kind::Blob, 1);
    c.put(0, 2, &[2], Kind::Blob, 2);
    assert!(c.get(0, 1, &mut out).is_some());
    c.put(0, 3, &[3], Kind::Blob, 3);
    assert_eq!(c.get(0, 2, &mut out), None, "used longest ago");
    assert!(c.get(0, 1, &mut out).is_some());
    assert!(c.get(0, 3, &mut out).is_some());
    assert_eq!(c.num_entries(), 2);
}

#[test]
fn entries_without_data_need_no_budget() {
    let budget = MemoryBudget::bytes(10);
    let full = budget.reserve(10).unwrap();
    let mut out = vec![1];

    let mut c = MemoryCappedHashmap::with_memory_budget(1024, budget.clone());
    c.put(3, 4, &[], Kind::Tree, 9);
    assert_eq!(c.get(3, 4, &mut out), Some((Kind::Tree, 9)));
    assert!(out.is_empty());

    let mut c = StaticLinkedList::<2>::with_memory_budget(1024, budget.clone());
    c.put(3, 4, &[], Kind::Tag, 8);
    assert_eq!(c.num_entries(), 1);
    assert_eq!(c.get(3, 4, &mut out), Some((Kind::Tag, 8)));

    drop(c);
    assert_eq!(budget.used(), 10);
    drop(full);
    assert_eq!(budget.used(), 0);
}

#[test]
fn fill_follows_whether_there_is_room() {
    let mut v = vec![1, 2, 3];
    assert_eq!(fill(&mut v, &[4, 5], true), Some(()));
    assert_eq!(v, vec![4, 5]);
    assert_eq!(fill(&mut v, &[6], false), None);
    assert!(v.is_empty());
}

#[test]
fn list_takes_what_fits_the_limit_whatever_was_allocated() {
    let mut c = StaticLinkedList::<10>::new(1);
    let mut out = Vec::new();
    c.put(0, 0, &[0], Kind::Blob, 1);
    assert!(c.mem_used() > c.mem_limit(), "there is a minimal vec size");
    assert!(c.accepts(1));
    c.put(0, 1, &[7], Kind::Blob, 1);
    assert_eq!(c.get(0, 1, &mut out), Some((Kind::Blob, 1)));
    assert_eq!(out, vec![7]);
    assert_eq!(c.get(0, 0, &mut out), None, "all others went to make room");
}

#[test]
fn list_counts_the_spare_buffer_by_what_was_allocated() {
    let mut c = StaticLinkedList::<1>::new(100);
    c.put(0, 0, &[0], Kind::Blob, 1);
    c.put(0, 1, &[0; 20], Kind::Blob, 1);
    assert_eq!((c.mem_used(), c.last_evicted_len()), (28, 1));
    c.put(0, 2, &[0; 73], Kind::Blob, 1);
    assert_eq!(c.num_entries(), 1);
    assert_eq!(c.last_evicted_len(), 20);
    assert_eq!(c.mem_used(), 93, "the spare buffer was given up for room");
}

#[test]
fn list_put_reserved_follows_the_answer() {
    let budget = MemoryBudget::bytes(1000);
    let mut c = StaticLinkedList::<2>::with_memory_budget(100, budget.clone());
    let mut out = Vec::new();
    c.put_reserved(0, 1, vec![1; 10], Kind::Blob, 5, budget.reserve(10));
    c.put_reserved(0, 2, vec![2; 20], Kind::Tree, 6, budget.reserve(20));
    assert_eq!(budget.used(), 30);
    let refused = Err(OutOfBudget { requested: 10, available: 0 });
    c.put_reserved(0, 3, vec![3; 10], Kind::Blob, 5, refused);
    c.put_reserved(0, 4, vec![4; 101], Kind::Blob, 5, budget.reserve(101));
    assert_eq!(c.num_entries(), 2);
    assert_eq!(budget.used(), 30, "what is not kept is not held");
    c.put_reserved(0, 5, vec![5; 30], Kind::Tag, 7, budget.reserve(30));
    assert_eq!(budget.used(), 50, "the oldest entry is let go");
    assert_eq!(c.get(0, 5, &mut out), Some((Kind::Tag, 7)));
    assert_eq!(out, vec![5; 30]);
    assert_eq!(c.get(0, 1, &mut out), None);
}

#[test]
fn list_goes_on_behind_what_could_not_be_copied() {
    let mut c = StaticLinkedList::<3>::new(0);
    c.put(0, 1, &[1], Kind::Blob, 1);
    c.put(0, 2, &[2], Kind::Tree, 2);
    assert!(matches!(c.settle(1, false), Lookup::GoOn(2)));
    assert_eq!(c.first_at(0, 1, 0), Some(1), "nothing moved");
    assert!(matches!(c.settle(1, true), Lookup::Found(Kind::Blob, 1)));
    assert_eq!(c.first_at(0, 1, 0), Some(0), "the latest used");
}

#[test]
fn hashmap_of_any_limit_takes_what_it_can_count() {
    let budget = MemoryBudget::bytes(30);
    let mut c = MemoryCappedHashmap::with_memory_budget(usize::MAX, budget.clone());
    let mut out = Vec::new();
    assert!(c.accepts(10));
    c.put(0, 1, &[1; 10], Kind::Blob, 5);
    assert!(c.accepts(usize::MAX - 11));
    assert!(!c.accepts(usize::MAX - 10), "an entry and its data are counted");
    c.put(0, 1, &[2; 21], Kind::Tree, 6);
    assert_eq!(c.get(0, 1, &mut out), Some((Kind::Blob, 5)), "a refused put changes nothing");
    assert_eq!(out, vec![1; 10]);
    assert_eq!(budget.used(), 10);
}
