//! Fixed-width integers as bytes, and the order of byte strings.
//!
//! Records on disk are made of little-endian and big-endian integers. The
//! specification side speaks of the *value* of a byte string and of the
//! byte string of a value; both are plain recursive definitions, one byte
//! at a time.
use vstd::prelude::*;

verus! {

/// The number of values that `n` bytes can hold.
pub open spec fn range_of(n: nat) -> nat
    decreases n,
{
    if n == 0 {
        1
    } else {
        256 * range_of((n - 1) as nat)
    }
}

/// The `n` little-endian bytes of `v`: least significant byte first.
pub open spec fn le_bytes(v: nat, n: nat) -> Seq<u8>
    decreases n,
{
    if n == 0 {
        Seq::empty()
    } else {
        seq![(v % 256) as u8] + le_bytes(v / 256, (n - 1) as nat)
    }
}

/// The number that `s` stands for when its first byte is the least significant.
pub open spec fn le_value(s: Seq<u8>) -> nat
    decreases s.len(),
{
    if s.len() == 0 {
        0
    } else {
        s[0] as nat + 256 * le_value(s.subrange(1, s.len() as int))
    }
}

/// The `n` big-endian bytes of `v`: most significant byte first.
pub open spec fn be_bytes(v: nat, n: nat) -> Seq<u8>
    decreases n,
{
    if n == 0 {
        Seq::empty()
    } else {
        be_bytes(v / 256, (n - 1) as nat).push((v % 256) as u8)
    }
}

/// The number that `s` stands for when its first byte is the most significant.
pub open spec fn be_value(s: Seq<u8>) -> nat
    decreases s.len(),
{
    if s.len() == 0 {
        0
    } else {
        be_value(s.drop_last()) * 256 + s.last() as nat
    }
}

pub proof fn lemma_range_of()
    ensures
        range_of(0) == 1,
        range_of(1) == 0x100,
        range_of(2) == 0x1_0000,
        range_of(3) == 0x100_0000,
        range_of(4) == 0x1_0000_0000,
        range_of(5) == 0x100_0000_0000,
        range_of(6) == 0x1_0000_0000_0000,
        range_of(7) == 0x100_0000_0000_0000,
        range_of(8) == 0x1_0000_0000_0000_0000,
{
    reveal_with_fuel(range_of, 9);
}

/// Writing a number in little-endian order and reading it back gives the number.
pub proof fn lemma_le_roundtrip(v: nat, n: nat)
    requires
        v < range_of(n),
    ensures
        le_bytes(v, n).len() == n,
        le_value(le_bytes(v, n)) == v,
    decreases n,
{
    if n > 0 {
        let rest = le_bytes(v / 256, (n - 1) as nat);
        lemma_le_roundtrip(v / 256, (n - 1) as nat);
        let s = le_bytes(v, n);
        assert(s.subrange(1, s.len() as int) =~= rest);
    }
}

/// Writing a number in big-endian order and reading it back gives the number.
pub proof fn lemma_be_roundtrip(v: nat, n: nat)
    requires
        v < range_of(n),
    ensures
        be_bytes(v, n).len() == n,
        be_value(be_bytes(v, n)) == v,
    decreases n,
{
    if n > 0 {
        lemma_be_roundtrip(v / 256, (n - 1) as nat);
        assert(be_bytes(v, n).drop_last() =~= be_bytes(v / 256, (n - 1) as nat));
    }
}

/// Reading a little-endian number and writing it again gives the same bytes.
pub proof fn lemma_le_inverse(s: Seq<u8>)
    ensures
        le_bytes(le_value(s), s.len()) == s,
    decreases s.len(),
{
    if s.len() > 0 {
        let rest = s.subrange(1, s.len() as int);
        lemma_le_inverse(rest);
        assert(le_value(s) % 256 == s[0] && le_value(s) / 256 == le_value(rest));
        assert(le_bytes(le_value(s), s.len()) =~= s);
    } else {
        assert(le_bytes(le_value(s), s.len()) =~= s);
    }
}

/// Reading a big-endian number and writing it again gives the same bytes.
pub proof fn lemma_be_inverse(s: Seq<u8>)
    ensures
        be_bytes(be_value(s), s.len()) == s,
    decreases s.len(),
{
    if s.len() > 0 {
        lemma_be_inverse(s.drop_last());
        assert(be_value(s) % 256 == s.last() && be_value(s) / 256 == be_value(s.drop_last()));
        assert(be_bytes(be_value(s), s.len()) =~= s);
    } else {
        assert(be_bytes(be_value(s), s.len()) =~= s);
    }
}

/// A little-endian value fits the width it was read from.
pub proof fn lemma_le_value_bound(s: Seq<u8>)
    ensures
        le_value(s) < range_of(s.len()),
    decreases s.len(),
{
    if s.len() > 0 {
        lemma_le_value_bound(s.subrange(1, s.len() as int));
    }
}

/// A big-endian value fits the width it was read from.
pub proof fn lemma_be_value_bound(s: Seq<u8>)
    ensures
        be_value(s) < range_of(s.len()),
    decreases s.len(),
{
    if s.len() > 0 {
        lemma_be_value_bound(s.drop_last());
    }
}

/// The length of an encoded number does not depend on the number.
pub proof fn lemma_le_len(v: nat, n: nat)
    ensures
        le_bytes(v, n).len() == n,
    decreases n,
{
    if n > 0 {
        lemma_le_len(v / 256, (n - 1) as nat);
    }
}

/// The length of an encoded number does not depend on the number.
pub proof fn lemma_be_len(v: nat, n: nat)
    ensures
        be_bytes(v, n).len() == n,
    decreases n,
{
    if n > 0 {
        lemma_be_len(v / 256, (n - 1) as nat);
    }
}

/// Two byte strings of one length with one big-endian value are the same string.
pub proof fn lemma_be_value_injective(a: Seq<u8>, b: Seq<u8>)
    requires
        a.len() == b.len(),
        be_value(a) == be_value(b),
    ensures
        a == b,
    decreases a.len(),
{
    if a.len() > 0 {
        lemma_be_value_injective(a.drop_last(), b.drop_last());
        assert(a =~= a.drop_last().push(a.last()));
        assert(b =~= b.drop_last().push(b.last()));
    } else {
        assert(a =~= b);
    }
}

/// Comparing big-endian values is comparing byte by byte: the first position
/// at which the strings differ decides.
pub proof fn lemma_be_value_order(a: Seq<u8>, b: Seq<u8>, i: int)
    requires
        a.len() == b.len(),
        0 <= i < a.len(),
        a.subrange(0, i) == b.subrange(0, i),
        a[i] < b[i],
    ensures
        be_value(a) < be_value(b),
    decreases a.len(),
{
    let a0 = a.drop_last();
    let b0 = b.drop_last();
    if i == a.len() - 1 {
        assert(a0 =~= a.subrange(0, i));
        assert(b0 =~= b.subrange(0, i));
    } else {
        assert(a0.subrange(0, i) =~= a.subrange(0, i));
        assert(b0.subrange(0, i) =~= b.subrange(0, i));
        lemma_be_value_order(a0, b0, i);
    }
}

/// A big-endian number is the sum of its bytes, each weighed by its place: the
/// first byte weighs most.
pub proof fn law_be_weighs_first_byte_most(s: Seq<u8>)
    ensures
        s.len() == 4 ==> be_value(s) == 0x100_0000 * s[0] + 0x1_0000 * s[1] + 0x100 * s[2] + s[3],
        s.len() == 8 ==> be_value(s) == 0x100_0000_0000_0000 * s[0] + 0x1_0000_0000_0000 * s[1]
            + 0x100_0000_0000 * s[2] + 0x1_0000_0000 * s[3] + 0x100_0000 * s[4] + 0x1_0000 * s[5]
            + 0x100 * s[6] + s[7],
{
    reveal_with_fuel(be_value, 9);
}

/// A little-endian number is the sum of its bytes, each weighed by its place:
/// the last byte weighs most.
pub proof fn law_le_weighs_last_byte_most(s: Seq<u8>)
    ensures
        s.len() == 4 ==> le_value(s) == 0x100_0000 * s[3] + 0x1_0000 * s[2] + 0x100 * s[1] + s[0],
        s.len() == 8 ==> le_value(s) == 0x100_0000_0000_0000 * s[7] + 0x1_0000_0000_0000 * s[6]
            + 0x100_0000_0000 * s[5] + 0x1_0000_0000 * s[4] + 0x100_0000 * s[3] + 0x1_0000 * s[2]
            + 0x100 * s[1] + s[0],
{
    reveal_with_fuel(le_value, 9);
}

/// The bytes that a number is written as, in either order, are the only ones of
/// that many that read back as the number.
pub proof fn law_numbers_are_read_back(v: nat, n: nat, s: Seq<u8>)
    requires
        v < range_of(n),
        s.len() == n,
    ensures
        be_value(s) == v <==> s == be_bytes(v, n),
        le_value(s) == v <==> s == le_bytes(v, n),
{
    lemma_be_roundtrip(v, n);
    lemma_le_roundtrip(v, n);
    lemma_be_inverse(s);
    lemma_le_inverse(s);
}

/// Appends the `n` little-endian bytes of `v` to `out`.
pub fn put_le(out: &mut Vec<u8>, v: u64, n: usize)
    ensures
        final(out)@ == old(out)@ + le_bytes(v as nat, n as nat),
    decreases n,
{
    if n > 0 {
        out.push((v % 256) as u8);
        put_le(out, v / 256, n - 1);
        assert(out@ =~= old(out)@ + le_bytes(v as nat, n as nat));
    }
}

/// Appends the `n` big-endian bytes of `v` to `out`.
pub fn put_be(out: &mut Vec<u8>, v: u64, n: usize)
    ensures
        final(out)@ == old(out)@ + be_bytes(v as nat, n as nat),
    decreases n,
{
    if n > 0 {
        put_be(out, v / 256, n - 1);
        out.push((v % 256) as u8);
        assert(out@ =~= old(out)@ + be_bytes(v as nat, n as nat));
    }
}

/// Reads the little-endian number held by the `n` bytes of `bytes` from `at` on.
pub fn get_le(bytes: &[u8], at: usize, n: usize) -> (v: u64)
    requires
        n <= 8,
        at + n <= bytes.len(),
    ensures
        v == le_value(bytes@.subrange(at as int, at + n)),
    decreases n,
{
    if n == 0 {
        return 0;
    }
    let rest: u64 = get_le(bytes, at + 1, n - 1);
    proof {
        let s = bytes@.subrange(at as int, at + n);
        assert(s.subrange(1, s.len() as int) =~= bytes@.subrange(at + 1, at + n));
        lemma_le_value_bound(s);
        lemma_range_of();
    }
    bytes[at] as u64 + 256 * rest
}

/// Reads the big-endian number held by the `n` bytes of `bytes` from `at` on.
pub fn get_be(bytes: &[u8], at: usize, n: usize) -> (v: u64)
    requires
        n <= 8,
        at + n <= bytes.len(),
    ensures
        v == be_value(bytes@.subrange(at as int, at + n)),
    decreases n,
{
    if n == 0 {
        return 0;
    }
    let rest: u64 = get_be(bytes, at, n - 1);
    proof {
        let s = bytes@.subrange(at as int, at + n);
        assert(s.drop_last() =~= bytes@.subrange(at as int, at + n - 1));
        lemma_be_value_bound(s);
        lemma_range_of();
    }
    rest * 256 + bytes[at + (n - 1)] as u64
}

/// `s` with `new` in place of the bytes from `at` on.
pub open spec fn patched(s: Seq<u8>, at: int, new: Seq<u8>) -> Seq<u8> {
    s.subrange(0, at) + new + s.subrange(at + new.len(), s.len() as int)
}

/// A patch is read back as it was written.
pub proof fn lemma_patch_read(s: Seq<u8>, at: int, new: Seq<u8>)
    requires
        0 <= at,
        at + new.len() <= s.len(),
    ensures
        patched(s, at, new).len() == s.len(),
        patched(s, at, new).subrange(at, at + new.len()) == new,
{
    assert(patched(s, at, new).subrange(at, at + new.len()) =~= new);
}

/// A patch leaves what it does not touch.
pub proof fn lemma_patch_elsewhere(s: Seq<u8>, at: int, new: Seq<u8>, from: int, to: int)
    requires
        0 <= at,
        at + new.len() <= s.len(),
        0 <= from <= to <= s.len(),
        to <= at || at + new.len() <= from,
    ensures
        patched(s, at, new).len() == s.len(),
        patched(s, at, new).subrange(from, to) == s.subrange(from, to),
{
    assert(patched(s, at, new).subrange(from, to) =~= s.subrange(from, to));
}

/// Overwrites the `n` bytes of `buf` from `at` on with the little-endian bytes of `v`.
pub fn set_le(buf: &mut [u8], at: usize, v: u64, n: usize)
    requires
        at + n <= old(buf).len(),
    ensures
        final(buf)@ == patched(old(buf)@, at as int, le_bytes(v as nat, n as nat)),
    decreases n,
{
    if n > 0 {
        buf[at] = (v % 256) as u8;
        set_le(buf, at + 1, v / 256, n - 1);
    }
    proof {
        lemma_le_len(v as nat, n as nat);
        if n > 0 {
            lemma_le_len((v / 256) as nat, (n - 1) as nat);
        }
        assert(buf@ =~= patched(old(buf)@, at as int, le_bytes(v as nat, n as nat)));
    }
}

} // verus!
