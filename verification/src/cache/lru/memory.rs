//! A cache with hash map backing that is limited by the bytes it holds.
use std::collections::hash_map::RandomState;
use std::num::NonZeroUsize;

use vstd::prelude::*;

use crate::budget::{MemoryBudget, OutOfBudget, Reservation};
use crate::cache::{set_vec_to_slice, DecodeEntry};
use crate::object::Kind;

verus! {

/// A decoded entry.
pub struct Entry {
    pub data: Vec<u8>,
    pub kind: Kind,
    pub compressed_size: usize,
    /// Accounts for the bytes of `data` until the entry is dropped.
    pub reservation: Reservation,
}

/// The pack and the offset in it that an entry was decoded from.
type Key = (u32, u64);

/// What an entry weighs against the limit of the cache: the bytes of its data.
pub open spec fn weight(entry: Entry) -> nat {
    entry.data@.len()
}

struct CustomScale;

impl clru::WeightScale<Key, Entry> for CustomScale {
    fn weight(&self, _key: &Key, value: &Entry) -> (w: usize)
        ensures
            w == weight(*value),
    {
        value.data.len()
    }
}

/// The entries, held by a `clru::CLruCache`.
#[verifier::external_body]
pub struct Store {
    inner: clru::CLruCache<Key, Entry, RandomState, CustomScale>,
}

/// The entries in a store, the latest used first.
pub uninterp spec fn stored(store: Store) -> Seq<((u32, u64), Entry)>;

/// The limit that a store was made with.
pub uninterp spec fn store_capacity(store: Store) -> nat;

/// `clru::CLruCache::with_config`: a cache without entries, with the given
/// limit.
#[verifier::external_body]
fn new_store(capacity: usize) -> (store: Store)
    requires
        capacity > 0,
    ensures
        stored(store) == Seq::<((u32, u64), Entry)>::empty(),
        store_capacity(store) == capacity,
{
    let capacity = NonZeroUsize::new(capacity).expect("non zero");
    Store {
        inner: clru::CLruCache::with_config(
            clru::CLruCacheConfig::new(capacity).with_scale(CustomScale),
        ),
    }
}

/// `clru::CLruCache::capacity`: the limit that the cache was made with.
#[verifier::external_body]
fn capacity_of(store: &Store) -> (n: usize)
    ensures
        n == store_capacity(*store),
{
    store.inner.capacity()
}

/// `clru::CLruCache::len`: how many entries there are.
#[verifier::external_body]
fn len_of(store: &Store) -> (n: usize)
    ensures
        n == stored(*store).len(),
{
    store.inner.len()
}

/// `clru::CLruCache::weight`: what all entries weigh together.
#[verifier::external_body]
fn weight_of(store: &Store) -> (n: usize)
    ensures
        n == crate::cache::recency::total_weight(stored(*store), |e: Entry| weight(e)),
{
    store.inner.weight()
}

/// `clru::CLruCache::put_with_weight`: an entry that weighs as much as the
/// limit or more is handed back. Any other replaces the one with its key and
/// becomes the latest used, after the least recently used entries went until
/// there was room.
///
/// The cache adds up the number of its entries, their weight and that of the
/// new one, so the sum must be one that a `usize` holds.
#[verifier::external_body]
fn store_put(store: &mut Store, key: Key, entry: Entry) -> (replaced: Result<
    Option<Entry>,
    (Key, Entry),
>)
    requires
        weight(entry) >= store_capacity(*old(store)) || stored(*old(store)).len()
            + crate::cache::recency::total_weight(stored(*old(store)), |e: Entry| weight(e))
            + weight(entry) <= usize::MAX,
    ensures
        store_capacity(*final(store)) == store_capacity(*old(store)),
        match replaced {
            Err(refused) => {
                &&& weight(entry) >= store_capacity(*old(store))
                &&& refused == (key, entry)
                &&& stored(*final(store)) == stored(*old(store))
            },
            Ok(previous) => {
                &&& weight(entry) < store_capacity(*old(store))
                &&& previous == crate::cache::recency::value_of(stored(*old(store)), key)
                &&& stored(*final(store)) == crate::cache::recency::after_put(
                    stored(*old(store)),
                    |e: Entry| weight(e),
                    store_capacity(*old(store)),
                    key,
                    entry,
                )
            },
        },
{
    store.inner.put_with_weight(key, entry)
}

/// `clru::CLruCache::get`: the entry of the key, which becomes the latest used.
#[verifier::external_body]
fn store_get<'a>(store: &'a mut Store, key: &Key) -> (found: Option<&'a Entry>)
    ensures
        store_capacity(*final(store)) == store_capacity(*old(store)),
        match found {
            Some(entry) => crate::cache::recency::value_of(stored(*old(store)), *key) == Some(
                *entry,
            ),
            None => crate::cache::recency::value_of(stored(*old(store)), *key) is None,
        },
        stored(*final(store)) == crate::cache::recency::after_use(stored(*old(store)), *key),
{
    store.inner.get(key)
}

/// The answer where there is an entry: what it is, if its data was copied.
pub fn answer_of(entry: &Entry, copied: bool) -> (answer: Option<(Kind, usize)>)
    ensures
        answer == if copied {
            Some((entry.kind, entry.compressed_size))
        } else {
            None
        },
{
    if copied {
        Some((entry.kind, entry.compressed_size))
    } else {
        None
    }
}

/// An LRU cache with hash map backing and an eviction rule based on the memory
/// usage for object data in bytes.
pub struct MemoryCappedHashmap {
    store: Store,
    /// Buffers to use again.
    free_list: Vec<Vec<u8>>,
    budget: MemoryBudget,
}

impl MemoryCappedHashmap {
    /// The entries, the latest used first.
    pub closed spec fn entries(&self) -> Seq<((u32, u64), Entry)> {
        stored(self.store)
    }

    /// The limit on the bytes of data that are held.
    pub closed spec fn limit(&self) -> nat {
        store_capacity(self.store)
    }

    /// The budget that entries are accounted for in.
    pub closed spec fn shared_budget(&self) -> MemoryBudget {
        self.budget
    }

    /// How many buffers are kept to be used again.
    pub closed spec fn num_spare(&self) -> nat {
        self.free_list@.len()
    }

    /// How many buffers are kept once one of them, if there is any, was taken
    /// for an entry to be put in.
    pub open spec fn num_left(&self) -> nat {
        if self.num_spare() == 0 {
            0
        } else {
            (self.num_spare() - 1) as nat
        }
    }

    /// Return a new instance which evicts least recently used items if it uses
    /// more than `memory_cap_in_bytes` of object data.
    pub fn new(memory_cap_in_bytes: usize) -> (cache: MemoryCappedHashmap)
        requires
            memory_cap_in_bytes > 0,
        ensures
            cache.wf(),
            cache.entries() == Seq::<((u32, u64), Entry)>::empty(),
            cache.limit() == memory_cap_in_bytes,
            cache.num_spare() == 0,
            cache.shared_budget().limit() == u64::MAX,
    {
        Self::with_memory_budget(memory_cap_in_bytes, MemoryBudget::unlimited())
    }

    /// Like [`new`](Self::new), with every entry accounted for in `budget` as
    /// well. An entry that `budget` has no room for is not kept.
    pub fn with_memory_budget(memory_cap_in_bytes: usize, budget: MemoryBudget) -> (cache:
        MemoryCappedHashmap)
        requires
            memory_cap_in_bytes > 0,
        ensures
            cache.wf(),
            cache.entries() == Seq::<((u32, u64), Entry)>::empty(),
            cache.limit() == memory_cap_in_bytes,
            cache.num_spare() == 0,
            cache.shared_budget() == budget,
    {
        MemoryCappedHashmap { store: new_store(memory_cap_in_bytes), free_list: Vec::new(), budget }
    }

    /// Put in an entry after `answer` came back from the budget for its bytes.
    ///
    /// The entry is kept if the bytes were granted and are fewer than the
    /// limit. Otherwise the cache keeps what it has, and the buffer.
    pub fn put_reserved(
        &mut self,
        pack_id: u32,
        offset: u64,
        data: Vec<u8>,
        kind: Kind,
        compressed_size: usize,
        answer: Result<Reservation, OutOfBudget>,
    )
        requires
            old(self).wf(),
            old(self).can_count(data@.len()),
            answer matches Ok(granted) ==> granted.held() == data@.len() && granted.is_of(
                old(self).shared_budget(),
            ),
        ensures
            final(self).wf(),
            final(self).limit() == old(self).limit(),
            final(self).shared_budget() == old(self).shared_budget(),
            match answer {
                Ok(granted) if data@.len() < old(self).limit() => {
                    &&& final(self).entries() == crate::cache::recency::after_put(
                        old(self).entries(),
                        |e: Entry| weight(e),
                        old(self).limit(),
                        (pack_id, offset),
                        (Entry { data, kind, compressed_size, reservation: granted }),
                    )
                    &&& final(self).num_spare() == old(self).num_spare() + if (
                    crate::cache::recency::has_key(old(self).entries(), (pack_id, offset))) {
                        1nat
                    } else {
                        0nat
                    }
                },
                _ => {
                    &&& final(self).entries() == old(self).entries()
                    &&& final(self).num_spare() == old(self).num_spare() + 1
                },
            },
    {
        match answer {
            Err(_) => {
                self.free_list.push(data);
            },
            Ok(reservation) => {
                let entry: Entry = Entry { data, kind, compressed_size, reservation };
                let ghost key = (pack_id, offset);
                proof {
                    crate::cache::recency::lemma_value_of(stored(self.store), key);
                    if weight(entry) < store_capacity(self.store) {
                        crate::cache::recency::law_put_keeps_to_the_limit(
                            stored(self.store),
                            |e: Entry| weight(e),
                            store_capacity(self.store),
                            key,
                            entry,
                        );
                    }
                }
                match store_put(&mut self.store, (pack_id, offset), entry) {
                    Ok(Some(previous)) => {
                        self.free_list.push(previous.data);
                    },
                    Ok(None) => {},
                    Err(refused) => {
                        self.free_list.push(refused.1.data);
                    },
                }
                proof {
                    assert forall|i: int| 0 <= i < stored(self.store).len() implies (
                    #[trigger] stored(self.store)[i]).1.reservation.held() == weight(
                        stored(self.store)[i].1,
                    ) && stored(self.store)[i].1.reservation.is_of(self.budget) by {
                        if weight(entry) < store_capacity(old(self).store) {
                            if i > 0 {
                                let j = stored(old(self).store).index_of(stored(self.store)[i]);
                                assert(stored(old(self).store)[j] == stored(self.store)[i]);
                            }
                        }
                    }
                }
            },
        }
    }
}

impl DecodeEntry for MemoryCappedHashmap {
    /// No two entries share a key, all of them together keep to the limit, and
    /// the bytes of each are held in the budget.
    closed spec fn wf(&self) -> bool {
        let s = stored(self.store);
        &&& crate::cache::recency::keys_distinct(s)
        &&& s.len() + crate::cache::recency::total_weight(s, |e: Entry| weight(e))
            <= store_capacity(self.store)
        &&& forall|i: int|
            0 <= i < s.len() ==> (#[trigger] s[i]).1.reservation.held() == weight(s[i].1)
                && s[i].1.reservation.is_of(self.budget)
    }

    open spec fn can_count(&self, len: nat) -> bool {
        len >= self.limit() || self.entries().len() + crate::cache::recency::total_weight(
            self.entries(),
            |e: Entry| weight(e),
        ) + len <= usize::MAX
    }

    /// Unless the entry was too large, or the budget or the machine had no
    /// memory for it, it is there and the latest used. An entry without data
    /// takes no memory.
    ///
    /// The data was copied to a spare buffer, or to a new one if there was none.
    /// If the entry is not there, that buffer is spare, but for one that the
    /// machine had no memory for. If the entry took the place of another one, the
    /// buffer of that one is spare.
    open spec fn after_put(
        &self,
        after: &Self,
        pack_id: u32,
        offset: u64,
        data: Seq<u8>,
        kind: Kind,
        compressed_size: usize,
    ) -> bool {
        &&& after.limit() == self.limit()
        &&& after.shared_budget() == self.shared_budget()
        &&& {
            ||| {
                &&& data.len() > 0 || self.limit() == 0
                &&& after.entries() == self.entries()
                &&& after.num_spare() == self.num_left() + 1
            }
            ||| {
                &&& data.len() > 0
                &&& after.entries() == self.entries()
                &&& after.num_spare() == self.num_left()
            }
            ||| {
                &&& data.len() < self.limit()
                &&& data.len() <= self.shared_budget().limit()
                &&& after.num_spare() == self.num_left() + if (crate::cache::recency::has_key(
                    self.entries(),
                    (pack_id, offset),
                )) {
                    1nat
                } else {
                    0nat
                }
                &&& after.entries().len() > 0
                &&& {
                    let entry = after.entries()[0].1;
                    &&& entry.data@ == data
                    &&& entry.kind == kind
                    &&& entry.compressed_size == compressed_size
                    &&& after.entries() == crate::cache::recency::after_put(
                        self.entries(),
                        |e: Entry| weight(e),
                        self.limit(),
                        (pack_id, offset),
                        entry,
                    )
                }
            }
        }
    }

    /// The entry becomes the latest used. Its data is handed out unless the
    /// machine had no memory for it; none is needed for an entry without data.
    /// What is answered is what [`answer_of`] gives.
    open spec fn after_get(
        &self,
        after: &Self,
        pack_id: u32,
        offset: u64,
        before_out: Seq<u8>,
        after_out: Seq<u8>,
        answer: Option<(Kind, usize)>,
    ) -> bool {
        &&& after.limit() == self.limit()
        &&& after.shared_budget() == self.shared_budget()
        &&& after.entries() == crate::cache::recency::after_use(self.entries(), (pack_id, offset))
        &&& match crate::cache::recency::value_of(self.entries(), (pack_id, offset)) {
            None => answer is None && after_out == before_out,
            Some(entry) => match answer {
                Some((kind, compressed_size)) => {
                    &&& kind == entry.kind
                    &&& compressed_size == entry.compressed_size
                    &&& after_out == entry.data@
                },
                None => entry.data@.len() > 0 && after_out == Seq::<u8>::empty(),
            },
        }
    }

    fn accepts(&self, len: usize) -> (r: bool) {
        let limit: usize = capacity_of(&self.store);
        let counted: usize = len_of(&self.store) + weight_of(&self.store);
        len >= limit || len <= usize::MAX - counted
    }

    fn put(&mut self, pack_id: u32, offset: u64, data: &[u8], kind: Kind, compressed_size: usize) {
        let mut buffer: Vec<u8> = match self.free_list.pop() {
            Some(spare) => spare,
            None => Vec::new(),
        };
        if set_vec_to_slice(&mut buffer, data).is_none() {
            return;
        }
        let answer = self.budget.reserve(buffer.len());
        self.put_reserved(pack_id, offset, buffer, kind, compressed_size, answer);
    }

    fn get(&mut self, pack_id: u32, offset: u64, out: &mut Vec<u8>) -> (answer: Option<
        (Kind, usize),
    >) {
        proof {
            let before = stored(self.store);
            let after = crate::cache::recency::after_use(before, (pack_id, offset));
            crate::cache::recency::law_use_keeps_all(
                before,
                |e: Entry| weight(e),
                (pack_id, offset),
            );
            assert forall|i: int| 0 <= i < after.len() implies (
            #[trigger] after[i]).1.reservation.held() == weight(after[i].1)
                && after[i].1.reservation.is_of(self.budget) by {
                assert(after.contains(after[i]));
                let j = before.index_of(after[i]);
                assert(before[j] == after[i]);
            }
        }
        let key: Key = (pack_id, offset);
        match store_get(&mut self.store, &key) {
            None => None,
            Some(entry) => {
                let copied: bool = set_vec_to_slice(out, &entry.data).is_some();
                answer_of(entry, copied)
            },
        }
    }
}

/// The entries keep to the limit, no two of them share a key, and the budget
/// accounts for the data of each.
pub proof fn law_entries_are_accounted_for(cache: MemoryCappedHashmap)
    requires
        cache.wf(),
    ensures
        crate::cache::recency::keys_distinct(cache.entries()),
        cache.entries().len() + crate::cache::recency::total_weight(
            cache.entries(),
            |e: Entry| weight(e),
        ) <= cache.limit(),
        forall|i: int|
            0 <= i < cache.entries().len() ==> {
                &&& (#[trigger] cache.entries()[i]).1.reservation.held() == weight(
                    cache.entries()[i].1,
                )
                &&& cache.entries()[i].1.reservation.is_of(cache.shared_budget())
            },
{
}

/// An entry that was kept is what the cache then has under its key.
pub proof fn law_kept_entry_is_found(
    before: MemoryCappedHashmap,
    after: MemoryCappedHashmap,
    pack_id: u32,
    offset: u64,
    data: Seq<u8>,
    kind: Kind,
    compressed_size: usize,
)
    requires
        before.wf(),
        before.after_put(&after, pack_id, offset, data, kind, compressed_size),
        after.entries() != before.entries(),
    ensures
        crate::cache::recency::value_of(after.entries(), (pack_id, offset)) matches Some(entry)
            && entry.data@ == data && entry.kind == kind && entry.compressed_size
            == compressed_size,
{
    crate::cache::recency::law_put_keeps_to_the_limit(
        before.entries(),
        |e: Entry| weight(e),
        before.limit(),
        (pack_id, offset),
        after.entries()[0].1,
    );
}

/// An entry weighs as many bytes as its data has.
pub proof fn law_entries_weigh_their_data(entry: Entry)
    ensures
        weight(entry) == entry.data@.len(),
{
}

/// What is asked for after it was put in and kept is what was put in: its kind,
/// its compressed size and its data, byte for byte. There is no answer only where
/// the machine has no memory for a copy of the data.
pub proof fn law_what_was_put_in_is_got_back(
    before: MemoryCappedHashmap,
    between: MemoryCappedHashmap,
    after: MemoryCappedHashmap,
    pack_id: u32,
    offset: u64,
    data: Seq<u8>,
    kind: Kind,
    compressed_size: usize,
    before_out: Seq<u8>,
    after_out: Seq<u8>,
    answer: Option<(Kind, usize)>,
)
    requires
        before.wf(),
        before.after_put(&between, pack_id, offset, data, kind, compressed_size),
        between.entries() != before.entries(),
        between.after_get(&after, pack_id, offset, before_out, after_out, answer),
    ensures
        answer is Some ==> answer == Some((kind, compressed_size)) && after_out == data,
        answer is None ==> data.len() > 0 && after_out == Seq::<u8>::empty(),
{
    law_kept_entry_is_found(before, between, pack_id, offset, data, kind, compressed_size);
}

/// Putting in an entry of one place never changes what is found at another, be it
/// in another pack or at another offset: that is what it was, or nothing if it
/// had to make room.
pub proof fn law_places_do_not_mix(
    before: MemoryCappedHashmap,
    after: MemoryCappedHashmap,
    pack_id: u32,
    offset: u64,
    data: Seq<u8>,
    kind: Kind,
    compressed_size: usize,
    other_pack: u32,
    other_offset: u64,
)
    requires
        before.wf(),
        before.after_put(&after, pack_id, offset, data, kind, compressed_size),
        other_pack != pack_id || other_offset != offset,
    ensures
        ({
            let other = (other_pack, other_offset);
            let now = crate::cache::recency::value_of(after.entries(), other);
            now is None || now == crate::cache::recency::value_of(before.entries(), other)
        }),
{
    if after.entries() != before.entries() {
        crate::cache::recency::law_other_keys_keep_their_values(
            before.entries(),
            |e: Entry| weight(e),
            before.limit(),
            (pack_id, offset),
            after.entries()[0].1,
            (other_pack, other_offset),
        );
    }
}

/// An entry can be offered wherever its bytes, those of all entries and their
/// number have a sum that can be counted, and where it is too large to be kept.
pub proof fn law_entries_can_be_counted(cache: MemoryCappedHashmap, len: nat)
    requires
        cache.wf(),
    ensures
        cache.entries().len() + crate::cache::recency::total_weight(
            cache.entries(),
            |e: Entry| weight(e),
        ) + len <= usize::MAX ==> cache.can_count(len),
        cache.limit() + len <= usize::MAX ==> cache.can_count(len),
        len >= cache.limit() ==> cache.can_count(len),
{
}

} // verus!
