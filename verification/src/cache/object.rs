//! Caches of whole objects, found by their names.
use std::num::NonZeroUsize;

use vstd::prelude::*;

use crate::budget::{MemoryBudget, OutOfBudget, Reservation};
use crate::cache::{set_vec_to_slice, Object};
use crate::object::{Kind, ObjectId, ID_LEN};

verus! {

/// An object.
pub struct Entry {
    pub data: Vec<u8>,
    pub kind: Kind,
    /// Accounts for the weight of the entry until it is dropped.
    pub reservation: Reservation,
}

/// What an object with `len` bytes of data weighs against the limit of the
/// cache: the data, the entry around it and the name.
pub open spec fn weight_of_len(len: nat) -> nat {
    len + vstd::layout::size_of::<Entry>() + ID_LEN as nat
}

/// What an entry weighs against the limit of the cache.
pub open spec fn weight(entry: Entry) -> nat {
    weight_of_len(entry.data@.len())
}

/// The weight of an object with `len` bytes of data.
fn weigh(len: usize) -> (w: usize)
    ensures
        w == if weight_of_len(len as nat) <= usize::MAX {
            weight_of_len(len as nat)
        } else {
            usize::MAX as nat
        },
{
    len.saturating_add(core::mem::size_of::<Entry>()).saturating_add(ID_LEN)
}

struct CustomScale;

impl<K> clru::WeightScale<K, Entry> for CustomScale {
    fn weight(&self, _key: &K, value: &Entry) -> (w: usize)
        ensures
            weight(*value) <= usize::MAX ==> w == weight(*value),
    {
        weigh(value.data.len())
    }
}

/// The entries, held by a `clru::CLruCache`.
#[verifier::external_body]
pub struct Store {
    inner: clru::CLruCache<gix_hash::ObjectId, Entry, gix_hashtable::hash::Builder, CustomScale>,
}

/// The entries in a store, the latest used first.
pub uninterp spec fn stored(store: Store) -> Seq<(ObjectId, Entry)>;

/// The limit that a store was made with.
pub uninterp spec fn store_capacity(store: Store) -> nat;

/// `clru::CLruCache::with_config`: a cache without entries, with the given
/// limit.
#[verifier::external_body]
fn new_store(capacity: usize) -> (store: Store)
    requires
        capacity > 0,
    ensures
        stored(store) == Seq::<(ObjectId, Entry)>::empty(),
        store_capacity(store) == capacity,
{
    let capacity = NonZeroUsize::new(capacity).expect("non zero");
    Store {
        inner: clru::CLruCache::with_config(
            clru::CLruCacheConfig::new(capacity).with_hasher(
                gix_hashtable::hash::Builder,
            ).with_scale(CustomScale),
        ),
    }
}

/// `clru::CLruCache::capacity`: the limit that the cache was made with.
#[verifier::external_body]
fn capacity_of(store: &Store) -> (n: usize)
    ensures
        n == store_capacity(*store),
{
    store.inner.capacity()
}

/// `clru::CLruCache::len`: how many entries there are.
#[verifier::external_body]
fn len_of(store: &Store) -> (n: usize)
    ensures
        n == stored(*store).len(),
{
    store.inner.len()
}

/// `clru::CLruCache::weight`: what all entries weigh together.
#[verifier::external_body]
fn weight_of(store: &Store) -> (n: usize)
    ensures
        n == crate::cache::recency::total_weight(stored(*store), |e: Entry| weight(e)),
{
    store.inner.weight()
}

/// `clru::CLruCache::put_with_weight`: an entry that weighs as much as the
/// limit or more is handed back. Any other replaces the one with its key and
/// becomes the latest used, after the least recently used entries went until
/// there was room.
///
/// The cache adds up the number of its entries, their weight and that of the
/// new one, so the sum must be one that a `usize` holds.
#[verifier::external_body]
fn store_put(store: &mut Store, key: ObjectId, entry: Entry) -> (replaced: Result<
    Option<Entry>,
    (ObjectId, Entry),
>)
    requires
        weight(entry) <= usize::MAX,
        weight(entry) >= store_capacity(*old(store)) || stored(*old(store)).len()
            + crate::cache::recency::total_weight(stored(*old(store)), |e: Entry| weight(e))
            + weight(entry) <= usize::MAX,
    ensures
        store_capacity(*final(store)) == store_capacity(*old(store)),
        match replaced {
            Err(refused) => {
                &&& weight(entry) >= store_capacity(*old(store))
                &&& refused == (key, entry)
                &&& stored(*final(store)) == stored(*old(store))
            },
            Ok(previous) => {
                &&& weight(entry) < store_capacity(*old(store))
                &&& previous == crate::cache::recency::value_of(stored(*old(store)), key)
                &&& stored(*final(store)) == crate::cache::recency::after_put(
                    stored(*old(store)),
                    |e: Entry| weight(e),
                    store_capacity(*old(store)),
                    key,
                    entry,
                )
            },
        },
{
    match store.inner.put_with_weight(gix_hash::ObjectId::Sha1(key.bytes), entry) {
        Ok(previous) => Ok(previous),
        Err((_, entry)) => Err((key, entry)),
    }
}

/// `clru::CLruCache::get`: the entry of the key, which becomes the latest used.
#[verifier::external_body]
fn store_get<'a>(store: &'a mut Store, key: &ObjectId) -> (found: Option<&'a Entry>)
    ensures
        store_capacity(*final(store)) == store_capacity(*old(store)),
        match found {
            Some(entry) => crate::cache::recency::value_of(stored(*old(store)), *key) == Some(
                *entry,
            ),
            None => crate::cache::recency::value_of(stored(*old(store)), *key) is None,
        },
        stored(*final(store)) == crate::cache::recency::after_use(stored(*old(store)), *key),
{
    store.inner.get(&gix_hash::ObjectId::Sha1(key.bytes))
}

/// The answer where there is an entry: its kind, if its data was copied.
pub fn answer_of(entry: &Entry, copied: bool) -> (answer: Option<Kind>)
    ensures
        answer == if copied {
            Some(entry.kind)
        } else {
            None
        },
{
    if copied {
        Some(entry.kind)
    } else {
        None
    }
}

/// An LRU cache with hash map backing and an eviction rule based on the memory
/// usage for object data in bytes.
pub struct MemoryCappedHashmap {
    store: Store,
    /// Buffers to use again.
    free_list: Vec<Vec<u8>>,
    budget: MemoryBudget,
}

impl MemoryCappedHashmap {
    /// The entries, the latest used first.
    pub closed spec fn entries(&self) -> Seq<(ObjectId, Entry)> {
        stored(self.store)
    }

    /// The limit on the weight of the entries.
    pub closed spec fn limit(&self) -> nat {
        store_capacity(self.store)
    }

    /// The budget that entries are accounted for in.
    pub closed spec fn shared_budget(&self) -> MemoryBudget {
        self.budget
    }

    /// How many buffers are kept to be used again.
    pub closed spec fn num_spare(&self) -> nat {
        self.free_list@.len()
    }

    /// How many buffers are kept once one of them, if there is any, was taken
    /// for an object to be put in.
    pub open spec fn num_left(&self) -> nat {
        if self.num_spare() == 0 {
            0
        } else {
            (self.num_spare() - 1) as nat
        }
    }

    /// Return a new instance which evicts least recently used items if it uses
    /// more than `memory_cap_in_bytes` of memory.
    pub fn new(memory_cap_in_bytes: usize) -> (cache: MemoryCappedHashmap)
        requires
            memory_cap_in_bytes > 0,
        ensures
            cache.wf(),
            cache.entries() == Seq::<(ObjectId, Entry)>::empty(),
            cache.limit() == memory_cap_in_bytes,
            cache.num_spare() == 0,
            cache.shared_budget().limit() == u64::MAX,
    {
        Self::with_memory_budget(memory_cap_in_bytes, MemoryBudget::unlimited())
    }

    /// Like [`new`](Self::new), with every entry accounted for in `budget` as
    /// well. An entry that `budget` has no room for is not kept.
    pub fn with_memory_budget(memory_cap_in_bytes: usize, budget: MemoryBudget) -> (cache:
        MemoryCappedHashmap)
        requires
            memory_cap_in_bytes > 0,
        ensures
            cache.wf(),
            cache.entries() == Seq::<(ObjectId, Entry)>::empty(),
            cache.limit() == memory_cap_in_bytes,
            cache.num_spare() == 0,
            cache.shared_budget() == budget,
    {
        MemoryCappedHashmap { store: new_store(memory_cap_in_bytes), free_list: Vec::new(), budget }
    }

    /// The amount of bytes we can hold in total, as it was given to `new`.
    pub fn capacity(&self) -> (n: usize)
        ensures
            n == self.limit(),
    {
        capacity_of(&self.store)
    }

    /// Put in an object after `answer` came back from the budget for its weight.
    ///
    /// The object is kept if the weight was granted and is less than the limit. Otherwise the cache keeps what it has, and the buffer.
    pub fn put_reserved(
        &mut self,
        id: ObjectId,
        kind: Kind,
        data: Vec<u8>,
        answer: Result<Reservation, OutOfBudget>,
    )
        requires
            old(self).wf(),
            old(self).can_count(data@.len()),
            answer matches Ok(granted) ==> granted.held() == weight_of_len(data@.len()) && granted.is_of(
                old(self).shared_budget(),
            ),
        ensures
            final(self).wf(),
            final(self).limit() == old(self).limit(),
            final(self).shared_budget() == old(self).shared_budget(),
            match answer {
                Ok(granted) if weight_of_len(data@.len()) < old(self).limit() => {
                    &&& final(self).entries() == crate::cache::recency::after_put(
                        old(self).entries(),
                        |e: Entry| weight(e),
                        old(self).limit(),
                        id,
                        (Entry { data, kind, reservation: granted }),
                    )
                    &&& final(self).num_spare() == old(self).num_spare() + if (
                    crate::cache::recency::has_key(old(self).entries(), id)) {
                        1nat
                    } else {
                        0nat
                    }
                },
                _ => {
                    &&& final(self).entries() == old(self).entries()
                    &&& final(self).num_spare() == old(self).num_spare() + 1
                },
            },
    {
        match answer {
            Err(_) => {
                self.free_list.push(data);
            },
            Ok(reservation) => {
                let entry: Entry = Entry { data, kind, reservation };
                proof {
                    crate::cache::recency::lemma_value_of(stored(self.store), id);
                    if weight(entry) < store_capacity(self.store) {
                        crate::cache::recency::law_put_keeps_to_the_limit(
                            stored(self.store),
                            |e: Entry| weight(e),
                            store_capacity(self.store),
                            id,
                            entry,
                        );
                    }
                }
                match store_put(&mut self.store, id, entry) {
                    Ok(Some(previous)) => {
                        self.free_list.push(previous.data);
                    },
                    Ok(None) => {},
                    Err(refused) => {
                        self.free_list.push(refused.1.data);
                    },
                }
                proof {
                    assert forall|i: int| 0 <= i < stored(self.store).len() implies (
                    #[trigger] stored(self.store)[i]).1.reservation.held() == weight(
                        stored(self.store)[i].1,
                    ) && stored(self.store)[i].1.reservation.is_of(self.budget) by {
                        if weight(entry) < store_capacity(old(self).store) {
                            if i > 0 {
                                let j = stored(old(self).store).index_of(stored(self.store)[i]);
                                assert(stored(old(self).store)[j] == stored(self.store)[i]);
                            }
                        }
                    }
                }
            },
        }
    }
}

impl Object for MemoryCappedHashmap {
    /// No two entries share a key, all of them together keep to the limit, and
    /// the weight of each is held in the budget.
    closed spec fn wf(&self) -> bool {
        let s = stored(self.store);
        &&& crate::cache::recency::keys_distinct(s)
        &&& s.len() + crate::cache::recency::total_weight(s, |e: Entry| weight(e))
            <= store_capacity(self.store)
        &&& forall|i: int|
            0 <= i < s.len() ==> (#[trigger] s[i]).1.reservation.held() == weight(s[i].1)
                && s[i].1.reservation.is_of(self.budget)
    }

    open spec fn can_count(&self, len: nat) -> bool {
        &&& weight_of_len(len) <= usize::MAX
        &&& weight_of_len(len) >= self.limit() || self.entries().len()
            + crate::cache::recency::total_weight(self.entries(), |e: Entry| weight(e))
            + weight_of_len(len) <= usize::MAX
    }

    /// Unless the entry was too large, or the budget or the machine had no
    /// memory for it, it is there and the latest used.
    ///
    /// The data was copied to a spare buffer, or to a new one if there was none.
    /// If the entry is not there, that buffer is spare, but for one that the
    /// machine had no memory for; it has for a buffer without data. If the entry
    /// took the place of another one, the buffer of that one is spare.
    open spec fn after_put(
        &self,
        after: &Self,
        id: ObjectId,
        kind: Kind,
        data: Seq<u8>,
    ) -> bool {
        &&& after.limit() == self.limit()
        &&& after.shared_budget() == self.shared_budget()
        &&& {
            ||| {
                &&& after.entries() == self.entries()
                &&& after.num_spare() == self.num_left() + 1
            }
            ||| {
                &&& data.len() > 0
                &&& after.entries() == self.entries()
                &&& after.num_spare() == self.num_left()
            }
            ||| {
                &&& weight_of_len(data.len()) < self.limit()
                &&& weight_of_len(data.len()) <= self.shared_budget().limit()
                &&& after.num_spare() == self.num_left() + if (crate::cache::recency::has_key(
                    self.entries(),
                    id,
                )) {
                    1nat
                } else {
                    0nat
                }
                &&& after.entries().len() > 0
                &&& {
                    let entry = after.entries()[0].1;
                    &&& entry.data@ == data
                    &&& entry.kind == kind
                    &&& after.entries() == crate::cache::recency::after_put(
                        self.entries(),
                        |e: Entry| weight(e),
                        self.limit(),
                        id,
                        entry,
                    )
                }
            }
        }
    }

    /// The entry becomes the latest used. Its data is handed out unless the
    /// machine had no memory for it; none is needed for an entry without data.
    /// What is answered is what [`answer_of`] gives.
    open spec fn after_get(
        &self,
        after: &Self,
        id: ObjectId,
        before_out: Seq<u8>,
        after_out: Seq<u8>,
        answer: Option<Kind>,
    ) -> bool {
        &&& after.limit() == self.limit()
        &&& after.shared_budget() == self.shared_budget()
        &&& after.entries() == crate::cache::recency::after_use(self.entries(), id)
        &&& match crate::cache::recency::value_of(self.entries(), id) {
            None => answer is None && after_out == before_out,
            Some(entry) => match answer {
                Some(kind) => {
                    &&& kind == entry.kind
                    &&& after_out == entry.data@
                },
                None => entry.data@.len() > 0 && after_out == Seq::<u8>::empty(),
            },
        }
    }

    fn accepts(&self, len: usize) -> (r: bool) {
        let limit: usize = capacity_of(&self.store);
        let counted: usize = len_of(&self.store) + weight_of(&self.store);
        match len.checked_add(core::mem::size_of::<Entry>()) {
            None => false,
            Some(sum) => match sum.checked_add(ID_LEN) {
                None => false,
                Some(weight) => weight >= limit || weight <= usize::MAX - counted,
            },
        }
    }

    fn put(&mut self, id: ObjectId, kind: Kind, data: &[u8]) {
        let mut buffer: Vec<u8> = match self.free_list.pop() {
            Some(spare) => spare,
            None => Vec::new(),
        };
        if set_vec_to_slice(&mut buffer, data).is_none() {
            return;
        }
        let answer = self.budget.reserve(weigh(buffer.len()));
        self.put_reserved(id, kind, buffer, answer);
    }

    fn get(&mut self, id: &ObjectId, out: &mut Vec<u8>) -> (answer: Option<Kind>) {
        proof {
            let before = stored(self.store);
            let after = crate::cache::recency::after_use(before, *id);
            crate::cache::recency::law_use_keeps_all(
                before,
                |e: Entry| weight(e),
                *id,
            );
            assert forall|i: int| 0 <= i < after.len() implies (
            #[trigger] after[i]).1.reservation.held() == weight(after[i].1)
                && after[i].1.reservation.is_of(self.budget) by {
                assert(after.contains(after[i]));
                let j = before.index_of(after[i]);
                assert(before[j] == after[i]);
            }
        }
        match store_get(&mut self.store, id) {
            None => None,
            Some(entry) => {
                let copied: bool = set_vec_to_slice(out, &entry.data).is_some();
                answer_of(entry, copied)
            },
        }
    }
}

/// A cache implementation that doesn't do any caching.
pub struct Never;

impl Object for Never {
    open spec fn wf(&self) -> bool {
        true
    }

    open spec fn can_count(&self, len: nat) -> bool {
        true
    }

    open spec fn after_put(&self, after: &Self, id: ObjectId, kind: Kind, data: Seq<u8>) -> bool {
        *after == *self
    }

    open spec fn after_get(
        &self,
        after: &Self,
        id: ObjectId,
        before_out: Seq<u8>,
        after_out: Seq<u8>,
        answer: Option<Kind>,
    ) -> bool {
        *after == *self && after_out == before_out && answer is None
    }

    fn accepts(&self, _len: usize) -> (r: bool) {
        true
    }

    /// Noop
    fn put(&mut self, _id: ObjectId, _kind: Kind, _data: &[u8]) {
    }

    /// Noop
    fn get(&mut self, _id: &ObjectId, _out: &mut Vec<u8>) -> (answer: Option<Kind>) {
        None
    }
}

impl<T: Object> Object for Box<T> {
    open spec fn wf(&self) -> bool {
        (**self).wf()
    }

    open spec fn can_count(&self, len: nat) -> bool {
        (**self).can_count(len)
    }

    open spec fn after_put(&self, after: &Self, id: ObjectId, kind: Kind, data: Seq<u8>) -> bool {
        (**self).after_put(&**after, id, kind, data)
    }

    open spec fn after_get(
        &self,
        after: &Self,
        id: ObjectId,
        before_out: Seq<u8>,
        after_out: Seq<u8>,
        answer: Option<Kind>,
    ) -> bool {
        (**self).after_get(&**after, id, before_out, after_out, answer)
    }

    fn accepts(&self, len: usize) -> (r: bool) {
        (**self).accepts(len)
    }

    fn put(&mut self, id: ObjectId, kind: Kind, data: &[u8]) {
        (**self).put(id, kind, data)
    }

    fn get(&mut self, id: &ObjectId, out: &mut Vec<u8>) -> (answer: Option<Kind>) {
        (**self).get(id, out)
    }
}

/// The entries keep to the limit, no two of them share a key, and the budget
/// accounts for the weight of each.
pub proof fn law_entries_are_accounted_for(cache: MemoryCappedHashmap)
    requires
        cache.wf(),
    ensures
        crate::cache::recency::keys_distinct(cache.entries()),
        cache.entries().len() + crate::cache::recency::total_weight(
            cache.entries(),
            |e: Entry| weight(e),
        ) <= cache.limit(),
        forall|i: int|
            0 <= i < cache.entries().len() ==> {
                &&& (#[trigger] cache.entries()[i]).1.reservation.held() == weight(
                    cache.entries()[i].1,
                )
                &&& cache.entries()[i].1.reservation.is_of(cache.shared_budget())
            },
{
}

/// An object that was kept is what the cache then has under its name.
pub proof fn law_kept_object_is_found(
    before: MemoryCappedHashmap,
    after: MemoryCappedHashmap,
    id: ObjectId,
    kind: Kind,
    data: Seq<u8>,
)
    requires
        before.wf(),
        before.after_put(&after, id, kind, data),
        after.entries() != before.entries(),
    ensures
        crate::cache::recency::value_of(after.entries(), id) matches Some(entry) && entry.data@
            == data && entry.kind == kind,
{
    crate::cache::recency::law_put_keeps_to_the_limit(
        before.entries(),
        |e: Entry| weight(e),
        before.limit(),
        id,
        after.entries()[0].1,
    );
}

/// An object weighs as many bytes as its data has, as the entry around it takes,
/// and as its name has.
pub proof fn law_objects_weigh_more_than_their_data(entry: Entry)
    ensures
        weight(entry) == entry.data@.len() + vstd::layout::size_of::<Entry>() + 20,
        weight(entry) == weight_of_len(entry.data@.len()),
{
}

/// What is asked for after it was put in and kept is what was put in: its kind and
/// its data, byte for byte. There is no answer only where the machine has no
/// memory for a copy of the data.
pub proof fn law_what_was_put_in_is_got_back(
    before: MemoryCappedHashmap,
    between: MemoryCappedHashmap,
    after: MemoryCappedHashmap,
    id: ObjectId,
    kind: Kind,
    data: Seq<u8>,
    before_out: Seq<u8>,
    after_out: Seq<u8>,
    answer: Option<Kind>,
)
    requires
        before.wf(),
        before.after_put(&between, id, kind, data),
        between.entries() != before.entries(),
        between.after_get(&after, id, before_out, after_out, answer),
    ensures
        answer is Some ==> answer == Some(kind) && after_out == data,
        answer is None ==> data.len() > 0 && after_out == Seq::<u8>::empty(),
{
    law_kept_object_is_found(before, between, id, kind, data);
}

/// Putting in one object never changes what is found under another name: that is
/// what it was, or nothing if it had to make room.
pub proof fn law_names_do_not_mix(
    before: MemoryCappedHashmap,
    after: MemoryCappedHashmap,
    id: ObjectId,
    kind: Kind,
    data: Seq<u8>,
    other: ObjectId,
)
    requires
        before.wf(),
        before.after_put(&after, id, kind, data),
        other != id,
    ensures
        ({
            let now = crate::cache::recency::value_of(after.entries(), other);
            now is None || now == crate::cache::recency::value_of(before.entries(), other)
        }),
{
    if after.entries() != before.entries() {
        crate::cache::recency::law_other_keys_keep_their_values(
            before.entries(),
            |e: Entry| weight(e),
            before.limit(),
            id,
            after.entries()[0].1,
            other,
        );
    }
}

/// A cache that never keeps anything never has anything.
pub proof fn law_never_has_nothing(
    cache: Never,
    between: Never,
    after: Never,
    id: ObjectId,
    kind: Kind,
    data: Seq<u8>,
    before_out: Seq<u8>,
    after_out: Seq<u8>,
    answer: Option<Kind>,
)
    requires
        cache.after_put(&between, id, kind, data),
        between.after_get(&after, id, before_out, after_out, answer),
    ensures
        answer is None,
        after_out == before_out,
{
}

/// An object can be offered wherever its weight, that of all entries and their
/// number have a sum that can be counted.
pub proof fn law_objects_can_be_counted(cache: MemoryCappedHashmap, len: nat)
    requires
        cache.wf(),
    ensures
        cache.entries().len() + crate::cache::recency::total_weight(
            cache.entries(),
            |e: Entry| weight(e),
        ) + weight_of_len(len) <= usize::MAX ==> cache.can_count(len),
        cache.limit() + weight_of_len(len) <= usize::MAX ==> cache.can_count(len),
{
}

} // verus!
