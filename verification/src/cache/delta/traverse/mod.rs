//! Walking all objects of a delta tree.
use vstd::prelude::*;

use crate::budget::{MemoryBudget, OutOfBudget};
use crate::data::Entry;

pub mod resolve;
pub mod spool;
pub mod threads;
pub mod walk;

verus! {

/// Why a traversal stopped.
#[derive(Debug, Clone, Copy)]
pub enum Error {
    /// An entry could not be decompressed.
    ZlibInflate { message: &'static str },
    /// The bytes of the entry at that offset could not be had.
    ResolveFailed { pack_offset: u64 },
    /// An entry header could not be decoded.
    EntryType,
    /// The consumer of the objects failed.
    Inspect,
    /// The traversal was asked to stop.
    Interrupted,
    /// A delta names a base that was never added to the tree.
    OutOfPackRefDelta {
        /// The offset that the base was said to be at.
        base_pack_offset: u64,
    },
    /// A thread could not be started.
    SpawnThread,
    /// A delta could not be applied.
    Delta,
    /// The budget has no room.
    OutOfBudget(OutOfBudget),
    /// Reading or writing the spool failed.
    SpoolIo,
}

/// What is known of an object that is handed out.
pub struct Context<'a> {
    /// The pack entry describing the object.
    pub entry: &'a Entry,
    /// Where `entry` ends in the pack.
    pub entry_end: u64,
    /// The object itself.
    pub decompressed: &'a [u8],
    /// How many bases the object is built upon; 0 for one that is no delta.
    pub level: u16,
}

/// How to traverse.
pub struct Options {
    /// If set, use no more than that many threads.
    pub thread_limit: Option<usize>,
    /// What resolved objects are accounted with while they wait.
    pub memory_budget: MemoryBudget,
}

/// The places of `is_root` that are set, in ascending order.
pub open spec fn roots_of(is_root: Seq<bool>) -> Seq<u32>
    decreases is_root.len(),
{
    if is_root.len() == 0 {
        Seq::empty()
    } else if is_root.last() {
        roots_of(is_root.drop_last()).push((is_root.len() - 1) as u32)
    } else {
        roots_of(is_root.drop_last())
    }
}

/// The items that traversals begin at.
pub fn root_indices(is_root: &Vec<bool>) -> (roots: Vec<u32>)
    requires
        is_root@.len() <= u32::MAX,
    ensures
        roots@ == roots_of(is_root@),
{
    let mut roots: Vec<u32> = Vec::new();
    let mut i: usize = 0;
    assert(is_root@.take(0) =~= Seq::<bool>::empty());
    while i < is_root.len()
        invariant
            i <= is_root.len(),
            is_root@.len() <= u32::MAX,
            roots@ == roots_of(is_root@.take(i as int)),
        decreases is_root.len() - i,
    {
        proof {
            assert(is_root@.take(i + 1).drop_last() =~= is_root@.take(i as int));
            assert(is_root@.take(i + 1).last() == is_root@[i as int]);
        }
        if is_root[i] {
            roots.push(i as u32);
        }
        i = i + 1;
    }
    assert(is_root@.take(is_root@.len() as int) =~= is_root@);
    roots
}

/// Every root is traversed from, once, and nothing else is.
pub proof fn law_roots_are_listed_once(is_root: Seq<bool>)
    requires
        is_root.len() <= u32::MAX,
    ensures
        forall|i: int, j: int|
            0 <= i < j < roots_of(is_root).len() ==> roots_of(is_root)[i] < roots_of(is_root)[j],
        forall|r: u32| #[trigger]
            roots_of(is_root).contains(r) <==> (r < is_root.len() && is_root[r as int]),
    decreases is_root.len(),
{
    let roots = roots_of(is_root);
    if is_root.len() > 0 {
        let init = is_root.drop_last();
        let front = roots_of(init);
        law_roots_are_listed_once(init);
        assert forall|i: int, j: int| 0 <= i < j < roots.len() implies roots[i] < roots[j] by {
            if j < front.len() {
                assert(front[i] < front[j]);
            } else {
                assert(front.contains(front[i]));
            }
        }
        assert forall|r: u32| #[trigger]
            roots.contains(r) <==> (r < is_root.len() && is_root[r as int]) by {
            if roots.contains(r) {
                let k = roots.index_of(r);
                if k < front.len() {
                    assert(front[k] == r);
                    assert(front.contains(r));
                }
            }
            if r < is_root.len() && is_root[r as int] {
                if r < init.len() {
                    assert(front.contains(r));
                    assert(roots[front.index_of(r)] == r);
                } else {
                    assert(roots[front.len() as int] == r);
                }
            }
        }
    }
}

} // verus!
