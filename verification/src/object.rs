//! Objects: their names and kinds.
use vstd::prelude::*;

verus! {

/// The size of an object name in bytes.
pub const ID_LEN: usize = 20;

/// The name of an object: the hash of its content.
#[derive(Copy, Clone, Debug, PartialEq, Eq, PartialOrd, Ord, Hash)]
pub struct ObjectId {
    pub bytes: [u8; 20],
}

/// The kinds of objects.
#[derive(Copy, Clone, Debug, PartialEq, Eq, PartialOrd, Ord, Hash, Structural)]
pub enum Kind {
    Tree,
    Blob,
    Commit,
    Tag,
}

impl ObjectId {
    /// The place of this name in the order of names. Names are ordered byte by
    /// byte, which is to order them as big-endian numbers.
    pub open spec fn rank(self) -> nat {
        crate::bytes::be_value(self.bytes@)
    }

    /// The name whose bytes stand in `bytes` from `at` on.
    pub fn from_bytes_at(bytes: &[u8], at: usize) -> (id: Self)
        requires
            at + 20 <= bytes.len(),
        ensures
            id.bytes@ == bytes@.subrange(at as int, at + 20),
    {
        let mut out: [u8; 20] = [0u8; 20];
        let mut i: usize = 0;
        while i < 20
            invariant
                i <= 20,
                at + 20 <= bytes.len(),
                forall|j: int| 0 <= j < i ==> #[trigger] out@[j] == bytes@[at + j],
            decreases 20 - i,
        {
            out[i] = bytes[at + i];
            i = i + 1;
        }
        assert(out@ =~= bytes@.subrange(at as int, at + 20));
        ObjectId { bytes: out }
    }

    /// Append the bytes of this name to `out`.
    pub fn append_to(&self, out: &mut Vec<u8>)
        ensures
            final(out)@ == old(out)@ + self.bytes@,
    {
        let mut i: usize = 0;
        while i < 20
            invariant
                i <= 20,
                out@ == old(out)@ + self.bytes@.take(i as int),
            decreases 20 - i,
        {
            out.push(self.bytes[i]);
            proof {
                assert(self.bytes@.take(i as int).push(self.bytes@[i as int])
                    =~= self.bytes@.take(i + 1));
                assert(out@ =~= old(out)@ + self.bytes@.take(i + 1));
            }
            i = i + 1;
        }
        assert(self.bytes@.take(20) =~= self.bytes@);
    }

    /// The first byte of this name.
    pub fn first_byte(&self) -> (b: u8)
        ensures
            b == self.bytes@[0],
    {
        self.bytes[0]
    }

    /// Whether this name comes before `other`: at the first place where they
    /// differ, it has the smaller byte.
    pub fn is_before(&self, other: &Self) -> (before: bool)
        ensures
            before == (self.rank() < other.rank()),
            before <==> exists|k: int|
                #[trigger] part_at(*self, *other, k) && self.bytes@[k] < other.bytes@[k],
    {
        let mut i: usize = 0;
        while i < 20
            invariant
                i <= 20,
                forall|j: int| 0 <= j < i ==> #[trigger] self.bytes@[j] == other.bytes@[j],
            decreases 20 - i,
        {
            let a: u8 = self.bytes[i];
            let b: u8 = other.bytes[i];
            if a != b {
                proof {
                    assert(self.bytes@.subrange(0, i as int) =~= other.bytes@.subrange(
                        0,
                        i as int,
                    ));
                    if a < b {
                        crate::bytes::lemma_be_value_order(self.bytes@, other.bytes@, i as int);
                    } else {
                        crate::bytes::lemma_be_value_order(other.bytes@, self.bytes@, i as int);
                    }
                    law_names_are_ordered_by_bytes(*self, *other);
                }
                return a < b;
            }
            i = i + 1;
        }
        proof {
            assert(self.bytes@ =~= other.bytes@);
            law_names_are_ordered_by_bytes(*self, *other);
        }
        false
    }
}

/// The names agree before place `k`, and not there.
pub open spec fn part_at(a: ObjectId, b: ObjectId, k: int) -> bool {
    &&& 0 <= k < 20
    &&& forall|j: int| 0 <= j < k ==> (#[trigger] a.bytes@[j]) == b.bytes@[j]
    &&& a.bytes@[k] != b.bytes@[k]
}

/// Two names agree in all of their bytes or part at some place.
proof fn lemma_names_part(a: ObjectId, b: ObjectId, k: int)
    requires
        0 <= k <= 20,
        forall|j: int| 0 <= j < k ==> (#[trigger] a.bytes@[j]) == b.bytes@[j],
    ensures
        a == b || exists|i: int| k <= i && #[trigger] part_at(a, b, i),
    decreases 20 - k,
{
    if k == 20 {
        assert(a.bytes@ =~= b.bytes@);
        assert(a.bytes =~= b.bytes);
    } else if a.bytes@[k] != b.bytes@[k] {
        assert(part_at(a, b, k));
    } else {
        lemma_names_part(a, b, k + 1);
    }
}

/// Of two names one comes before the other exactly if it has the smaller byte at
/// the first place where they differ, and neither does exactly if all of their
/// 20 bytes agree.
pub proof fn law_names_are_ordered_by_bytes(a: ObjectId, b: ObjectId)
    ensures
        a.rank() < b.rank() <==> exists|k: int|
            #[trigger] part_at(a, b, k) && a.bytes@[k] < b.bytes@[k],
        a.rank() == b.rank() <==> forall|k: int|
            0 <= k < 20 ==> (#[trigger] a.bytes@[k]) == b.bytes@[k],
{
    lemma_names_part(a, b, 0);
    if a != b {
        let i = choose|i: int| 0 <= i && #[trigger] part_at(a, b, i);
        assert(part_at(b, a, i)) by {
            assert forall|j: int| 0 <= j < i implies (#[trigger] b.bytes@[j]) == a.bytes@[j] by {
                assert(a.bytes@[j] == b.bytes@[j]);
            }
        }
        assert(a.bytes@.subrange(0, i) =~= b.bytes@.subrange(0, i));
        if a.bytes@[i] < b.bytes@[i] {
            crate::bytes::lemma_be_value_order(a.bytes@, b.bytes@, i);
        } else {
            crate::bytes::lemma_be_value_order(b.bytes@, a.bytes@, i);
            assert forall|k: int| #[trigger] part_at(a, b, k) implies a.bytes@[k] >= b.bytes@[k] by {
                if k < i {
                    assert(a.bytes@[k] == b.bytes@[k]);
                } else if i < k {
                    assert(a.bytes@[i] == b.bytes@[i]);
                }
            }
        }
    }
}

/// Two names of one rank are the same name.
pub proof fn law_rank_names_one_object(a: ObjectId, b: ObjectId)
    requires
        a.rank() == b.rank(),
    ensures
        a == b,
{
    crate::bytes::lemma_be_value_injective(a.bytes@, b.bytes@);
    assert(a.bytes =~= b.bytes);
}

/// The first byte orders names before anything else does.
pub proof fn law_first_byte_orders(a: ObjectId, b: ObjectId)
    requires
        a.rank() <= b.rank(),
    ensures
        a.bytes@[0] <= b.bytes@[0],
{
    if b.bytes@[0] < a.bytes@[0] {
        assert(a.bytes@.subrange(0, 0) =~= b.bytes@.subrange(0, 0));
        crate::bytes::lemma_be_value_order(b.bytes@, a.bytes@, 0);
    }
}

} // verus!
