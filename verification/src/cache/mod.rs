//! Caches of decoded objects, and the delta tree.
use vstd::prelude::*;

pub mod delta;
pub mod lru;
pub mod object;
pub mod recency;

use crate::object::{Kind, ObjectId};

verus! {

/// A cache of decoded pack entries, found by the pack they are in and their
/// offset there.
///
/// What an implementation does with an entry is up to it: [`after_put`] and
/// [`after_get`] say what it may do.
///
/// [`after_put`]: DecodeEntry::after_put
/// [`after_get`]: DecodeEntry::after_get
pub trait DecodeEntry: Sized {
    /// What always holds of the cache.
    spec fn wf(&self) -> bool;

    /// Whether the cache can count `len` more bytes without running over the
    /// numbers that it counts with.
    spec fn can_count(&self, len: nat) -> bool;

    /// Whether putting in an entry may turn the cache into `after`.
    spec fn after_put(
        &self,
        after: &Self,
        pack_id: u32,
        offset: u64,
        data: Seq<u8>,
        kind: Kind,
        compressed_size: usize,
    ) -> bool;

    /// Whether asking for an entry may turn the cache into `after`, with `out`
    /// going from `before_out` to `after_out` and `answer` given.
    spec fn after_get(
        &self,
        after: &Self,
        pack_id: u32,
        offset: u64,
        before_out: Seq<u8>,
        after_out: Seq<u8>,
        answer: Option<(Kind, usize)>,
    ) -> bool;

    /// Whether `len` more bytes can be counted, as they always can be while sizes
    /// stay within what a machine can hold.
    fn accepts(&self, len: usize) -> (r: bool)
        requires
            self.wf(),
        ensures
            r == self.can_count(len as nat),
    ;

    /// Offer an entry to the cache, which may keep it.
    fn put(&mut self, pack_id: u32, offset: u64, data: &[u8], kind: Kind, compressed_size: usize)
        requires
            old(self).wf(),
            old(self).can_count(data@.len()),
        ensures
            final(self).wf(),
            old(self).after_put(
                final(self),
                pack_id,
                offset,
                data@,
                kind,
                compressed_size,
            ),
    ;

    /// Fill `out` with the data of an entry and return its kind and compressed
    /// size, if the cache has it.
    fn get(&mut self, pack_id: u32, offset: u64, out: &mut Vec<u8>) -> (answer: Option<
        (Kind, usize),
    >)
        requires
            old(self).wf(),
        ensures
            final(self).wf(),
            old(self).after_get(
                final(self),
                pack_id,
                offset,
                old(out)@,
                final(out)@,
                answer,
            ),
    ;
}

/// A cache of whole objects, found by their names.
///
/// What an implementation does with an object is up to it: [`after_put`] and
/// [`after_get`] say what it may do.
///
/// [`after_put`]: Object::after_put
/// [`after_get`]: Object::after_get
pub trait Object: Sized {
    /// What always holds of the cache.
    spec fn wf(&self) -> bool;

    /// Whether the cache can count `len` more bytes without running over the
    /// numbers that it counts with.
    spec fn can_count(&self, len: nat) -> bool;

    /// Whether putting in an object may turn the cache into `after`.
    spec fn after_put(&self, after: &Self, id: ObjectId, kind: Kind, data: Seq<u8>) -> bool;

    /// Whether asking for an object may turn the cache into `after`, with `out`
    /// going from `before_out` to `after_out` and `answer` given.
    spec fn after_get(
        &self,
        after: &Self,
        id: ObjectId,
        before_out: Seq<u8>,
        after_out: Seq<u8>,
        answer: Option<Kind>,
    ) -> bool;

    /// Whether `len` more bytes can be counted, as they always can be while sizes
    /// stay within what a machine can hold.
    fn accepts(&self, len: usize) -> (r: bool)
        requires
            self.wf(),
        ensures
            r == self.can_count(len as nat),
    ;

    /// Put the object going by `id` of `kind` with `data` into the cache, which
    /// may keep it.
    fn put(&mut self, id: ObjectId, kind: Kind, data: &[u8])
        requires
            old(self).wf(),
            old(self).can_count(data@.len()),
        ensures
            final(self).wf(),
            old(self).after_put(final(self), id, kind, data@),
    ;

    /// Place the data of the object named `id` into `out` and return its kind,
    /// if the cache has it.
    fn get(&mut self, id: &ObjectId, out: &mut Vec<u8>) -> (answer: Option<Kind>)
        requires
            old(self).wf(),
        ensures
            final(self).wf(),
            old(self).after_get(final(self), *id, old(out)@, final(out)@, answer),
    ;
}

/// Make `vec` hold what `source` holds if there is room for it, else nothing.
pub fn fill(vec: &mut Vec<u8>, source: &[u8], has_room: bool) -> (r: Option<()>)
    ensures
        r is Some <==> has_room,
        final(vec)@ == if has_room {
            source@
        } else {
            Seq::<u8>::empty()
        },
{
    vec.clear();
    if !has_room {
        return None;
    }
    vec.extend_from_slice(source);
    assert(vec@ =~= source@);
    Some(())
}

/// Make `vec` hold what `source` holds, reusing its memory, unless more memory
/// is needed and not to be had, which leaves it empty. Nothing takes no memory.
/// What comes of it is what [`fill`] does once the memory was asked for.
pub fn set_vec_to_slice(vec: &mut Vec<u8>, source: &[u8]) -> (r: Option<()>)
    ensures
        final(vec)@ == if r is Some {
            source@
        } else {
            Seq::<u8>::empty()
        },
        source@.len() == 0 ==> r is Some,
{
    vec.clear();
    let has_room: bool = source.len() == 0 || vec.try_reserve(source.len()).is_ok();
    fill(vec, source, has_room)
}

} // verus!
