//! Bounded-memory stable sorting of fixed-width records.
//!
//! Records are collected into runs that fit in memory, each run is sorted
//! and spilled as bytes, and the runs are merged back one record at a time.
//! This module says what the sorted output *is*; the submodules compute it.
use vstd::prelude::*;

pub mod chunk;
pub mod heap;
pub mod merge;
pub mod spill;

verus! {

/// A record that can be ordered by a number and stored in a fixed number of bytes.
pub trait Record: Copy {
    /// The number that records are ordered by.
    spec fn key(self) -> nat;

    /// How many bytes every record takes on the spool.
    spec fn width() -> nat;

    /// The bytes of this record on the spool.
    spec fn encoded(self) -> Seq<u8>;

    /// How many records are read at a time from one run while merging.
    spec fn read_ahead() -> nat;

    proof fn lemma_limits()
        ensures
            0 < Self::width() <= 64,
            0 < Self::read_ahead() <= 128,
    ;

    proof fn lemma_encoded_len(self)
        ensures
            self.encoded().len() == Self::width(),
    ;

    /// No two records share their bytes.
    proof fn lemma_encoded_injective(a: Self, b: Self)
        requires
            a.encoded() == b.encoded(),
        ensures
            a == b,
    ;

    fn exec_width() -> (n: usize)
        ensures
            n == Self::width(),
    ;

    fn exec_read_ahead() -> (n: usize)
        ensures
            n == Self::read_ahead(),
    ;

    /// Whether this record's key is smaller than that of `other`.
    fn key_less(&self, other: &Self) -> (less: bool)
        ensures
            less == (self.key() < other.key()),
    ;

    /// Append the bytes of this record to `out`.
    fn encode_into(&self, out: &mut Vec<u8>)
        ensures
            final(out)@ == old(out)@ + self.encoded(),
    ;

    /// The record whose bytes stand at `at`.
    fn decode_at(bytes: &[u8], at: usize) -> (record: Self)
        requires
            at + Self::width() <= bytes.len(),
        ensures
            record.encoded() == bytes@.subrange(at as int, at + Self::width()),
    ;
}

/// `s` is in ascending key order.
pub open spec fn sorted<R: Record>(s: Seq<R>) -> bool {
    forall|i: int, j: int| 0 <= i <= j < s.len() ==> (#[trigger] s[i]).key() <= (#[trigger] s[j]).key()
}

/// The records of `s` with key `k`, in the order in which they stand in `s`.
pub open spec fn of_key<R: Record>(s: Seq<R>, k: nat) -> Seq<R> {
    s.filter(|r: R| r.key() == k)
}

/// `out` holds the records of `input` in ascending key order, and records of
/// one key stand in `out` in the order in which they stand in `input`.
pub open spec fn stably_sorted<R: Record>(out: Seq<R>, input: Seq<R>) -> bool {
    &&& sorted(out)
    &&& forall|k: nat| #[trigger] of_key(out, k) == of_key(input, k)
}

/// The runs one after the other.
pub open spec fn concat<R>(runs: Seq<Seq<R>>) -> Seq<R>
    decreases runs.len(),
{
    if runs.len() == 0 {
        Seq::empty()
    } else {
        concat(runs.drop_last()) + runs.last()
    }
}

/// The bytes of the records one after the other.
pub open spec fn encode_all<R: Record>(s: Seq<R>) -> Seq<u8>
    decreases s.len(),
{
    if s.len() == 0 {
        Seq::empty()
    } else {
        encode_all(s.drop_last()) + s.last().encoded()
    }
}

pub proof fn lemma_of_key_add<R: Record>(a: Seq<R>, b: Seq<R>, k: nat)
    ensures
        of_key(a + b, k) == of_key(a, k) + of_key(b, k),
{
    Seq::filter_distributes_over_add(a, b, |r: R| r.key() == k);
}

pub proof fn lemma_of_key_one<R: Record>(r: R, k: nat)
    ensures
        of_key(seq![r], k) == if r.key() == k {
            seq![r]
        } else {
            Seq::<R>::empty()
        },
{
    reveal_with_fuel(Seq::filter, 2);
    assert(seq![r].drop_last() =~= Seq::<R>::empty());
    assert(of_key(seq![r], k) =~= if r.key() == k {
        seq![r]
    } else {
        Seq::<R>::empty()
    });
}

/// The records of a key are what any test for that key picks.
pub proof fn lemma_of_key_is_filter<R: Record>(s: Seq<R>, k: nat, pred: spec_fn(R) -> bool)
    requires
        forall|r: R| #[trigger] pred(r) == (r.key() == k),
    ensures
        s.filter(pred) == of_key(s, k),
    decreases s.len(),
{
    reveal(Seq::filter);
    if s.len() > 0 {
        let init = s.drop_last();
        lemma_of_key_is_filter(init, k, pred);
        lemma_of_key_add(init, seq![s.last()], k);
        lemma_of_key_one(s.last(), k);
        assert(s =~= init + seq![s.last()]);
        assert(pred(s.last()) == (s.last().key() == k));
        assert(s.filter(pred) =~= of_key(s, k));
    }
}

pub proof fn lemma_of_key_none<R: Record>(s: Seq<R>, k: nat)
    requires
        forall|i: int| 0 <= i < s.len() ==> (#[trigger] s[i]).key() != k,
    ensures
        of_key(s, k) == Seq::<R>::empty(),
    decreases s.len(),
{
    if s.len() == 0 {
        reveal(Seq::filter);
    } else {
        lemma_of_key_none(s.drop_last(), k);
        lemma_of_key_add(s.drop_last(), seq![s.last()], k);
        lemma_of_key_one(s.last(), k);
        assert(s =~= s.drop_last() + seq![s.last()]);
        assert(of_key(s, k) =~= Seq::<R>::empty());
    }
}

/// A record stands in `s` exactly if it stands among those of its key.
pub proof fn lemma_of_key_contains<R: Record>(s: Seq<R>, r: R)
    ensures
        s.contains(r) <==> of_key(s, r.key()).contains(r),
{
    let p = |x: R| x.key() == r.key();
    if s.contains(r) {
        let i = s.index_of(r);
        s.lemma_filter_contains(p, i);
    }
    if s.filter(p).contains(r) {
        s.lemma_filter_contains_rev(p, r);
    }
}

pub proof fn lemma_concat_push<R>(runs: Seq<Seq<R>>, run: Seq<R>)
    ensures
        concat(runs.push(run)) == concat(runs) + run,
{
    assert(runs.push(run).drop_last() =~= runs);
}

pub proof fn lemma_concat_add<R>(a: Seq<Seq<R>>, b: Seq<Seq<R>>)
    ensures
        concat(a + b) == concat(a) + concat(b),
    decreases b.len(),
{
    if b.len() == 0 {
        assert(a + b =~= a);
        assert(concat(a) + concat(b) =~= concat(a));
    } else {
        lemma_concat_add(a, b.drop_last());
        assert((a + b).drop_last() =~= a + b.drop_last());
        assert(concat(a) + concat(b) =~= concat(a) + concat(b.drop_last()) + b.last());
    }
}

pub proof fn lemma_concat_two<R>(a: Seq<R>, b: Seq<R>)
    ensures
        concat(seq![a, b]) == a + b,
{
    reveal_with_fuel(concat, 3);
    assert(seq![a, b].drop_last() =~= seq![a]);
    assert(seq![a].drop_last() =~= Seq::<Seq<R>>::empty());
    assert(concat(seq![a, b]) =~= a + b);
}

/// What stands in the concatenation stands in one of the runs.
pub proof fn lemma_concat_contains<R>(runs: Seq<Seq<R>>, r: R) -> (i: int)
    requires
        concat(runs).contains(r),
    ensures
        0 <= i < runs.len(),
        runs[i].contains(r),
    decreases runs.len(),
{
    if runs.len() == 0 {
        0
    } else {
        let front = concat(runs.drop_last());
        let at = concat(runs).index_of(r);
        if at < front.len() {
            assert(front[at] == r);
            lemma_concat_contains(runs.drop_last(), r)
        } else {
            assert(runs.last()[at - front.len()] == r);
            runs.len() - 1
        }
    }
}

pub proof fn lemma_encode_all_len<R: Record>(s: Seq<R>)
    ensures
        encode_all(s).len() == s.len() * R::width(),
    decreases s.len(),
{
    if s.len() > 0 {
        lemma_encode_all_len(s.drop_last());
        s.last().lemma_encoded_len();
        let n = s.len();
        let w = R::width();
        assert((n - 1) * w + w == n * w) by (nonlinear_arith);
    } else {
        assert(0 * R::width() == 0) by (nonlinear_arith);
    }
}

pub proof fn lemma_encode_all_push<R: Record>(s: Seq<R>, r: R)
    ensures
        encode_all(s.push(r)) == encode_all(s) + r.encoded(),
{
    assert(s.push(r).drop_last() =~= s);
}

pub proof fn lemma_encode_all_add<R: Record>(a: Seq<R>, b: Seq<R>)
    ensures
        encode_all(a + b) == encode_all(a) + encode_all(b),
    decreases b.len(),
{
    if b.len() == 0 {
        assert(a + b =~= a);
        assert(encode_all(a) + encode_all(b) =~= encode_all(a));
    } else {
        lemma_encode_all_add(a, b.drop_last());
        assert((a + b).drop_last() =~= a + b.drop_last());
        assert(encode_all(a) + encode_all(b) =~= encode_all(a) + encode_all(b.drop_last())
            + b.last().encoded());
    }
}

/// Sequences of records that share their bytes are the same sequence.
pub proof fn lemma_encode_all_injective<R: Record>(a: Seq<R>, b: Seq<R>)
    requires
        a.len() == b.len(),
        encode_all(a) == encode_all(b),
    ensures
        a == b,
    decreases a.len(),
{
    if a.len() > 0 {
        let ea = encode_all(a.drop_last());
        let eb = encode_all(b.drop_last());
        lemma_encode_all_len(a.drop_last());
        lemma_encode_all_len(b.drop_last());
        a.last().lemma_encoded_len();
        b.last().lemma_encoded_len();
        let all = encode_all(a);
        assert(ea =~= all.subrange(0, ea.len() as int));
        assert(eb =~= all.subrange(0, ea.len() as int));
        assert(a.last().encoded() =~= all.subrange(ea.len() as int, all.len() as int));
        assert(b.last().encoded() =~= all.subrange(ea.len() as int, all.len() as int));
        lemma_encode_all_injective(a.drop_last(), b.drop_last());
        R::lemma_encoded_injective(a.last(), b.last());
        assert(a =~= a.drop_last().push(a.last()));
        assert(b =~= b.drop_last().push(b.last()));
    } else {
        assert(a =~= b);
    }
}

/// There is only one stably sorted order of a sequence: however the records
/// were divided into runs on the way, the result is the same.
pub proof fn law_stable_order_is_unique<R: Record>(a: Seq<R>, b: Seq<R>, input: Seq<R>)
    requires
        stably_sorted(a, input),
        stably_sorted(b, input),
    ensures
        a == b,
    decreases a.len(),
{
    if a.len() == 0 {
        if b.len() > 0 {
            assert(b.contains(b[0]));
            lemma_of_key_contains(b, b[0]);
            lemma_of_key_contains(a, b[0]);
            assert(of_key(a, b[0].key()) == of_key(b, b[0].key()));
            assert(a.contains(b[0]));
        }
        assert(a =~= b);
    } else {
        let k = a.last().key();
        assert(a.contains(a.last()));
        lemma_of_key_contains(a, a.last());
        lemma_of_key_contains(b, a.last());
        assert(of_key(a, k) == of_key(b, k));
        assert(b.contains(a.last()));
        let kb = b.last().key();
        assert(b.contains(b.last()));
        lemma_of_key_contains(a, b.last());
        lemma_of_key_contains(b, b.last());
        assert(of_key(a, kb) == of_key(b, kb));
        assert(a.contains(b.last()));
        let ia = a.index_of(b.last());
        let ib = b.index_of(a.last());
        assert(a[ia].key() <= a.last().key());
        assert(b[ib].key() <= b.last().key());
        assert(k == kb);
        let a0 = a.drop_last();
        let b0 = b.drop_last();
        assert(a =~= a0 + seq![a.last()]);
        assert(b =~= b0 + seq![b.last()]);
        assert forall|j: nat| #[trigger] of_key(a0, j) == of_key(b0, j) && (j == k ==> a.last()
            == b.last()) by {
            lemma_of_key_add(a0, seq![a.last()], j);
            lemma_of_key_add(b0, seq![b.last()], j);
            lemma_of_key_one(a.last(), j);
            lemma_of_key_one(b.last(), j);
            assert(of_key(a, j) == of_key(b, j));
            if j == k {
                assert(of_key(a, j).drop_last() =~= of_key(a0, j));
                assert(of_key(b, j).drop_last() =~= of_key(b0, j));
                assert(of_key(a, j).last() == a.last());
                assert(of_key(b, j).last() == b.last());
            } else {
                assert(of_key(a, j) =~= of_key(a0, j));
                assert(of_key(b, j) =~= of_key(b0, j));
            }
        }
        assert(of_key(a0, k) == of_key(b0, k));
        assert(a.last() == b.last());
        law_stable_order_is_unique(a0, b0, a0);
    }
}

/// No two records share a key.
pub open spec fn keys_distinct<R: Record>(s: Seq<R>) -> bool {
    forall|i: int, j: int| 0 <= i < j < s.len() ==> (#[trigger] s[i]).key() != (#[trigger] s[j]).key()
}

/// Where no two records share a key, a record is all there is of its key.
proof fn lemma_of_key_distinct<R: Record>(s: Seq<R>, r: R)
    requires
        keys_distinct(s),
        s.contains(r),
    ensures
        of_key(s, r.key()) == seq![r],
{
    let i = s.index_of(r);
    let k = r.key();
    let front = s.subrange(0, i);
    let back = s.subrange(i + 1, s.len() as int);
    assert forall|j: int| 0 <= j < front.len() implies (#[trigger] front[j]).key() != k by {
        assert(s[j].key() != s[i].key());
    }
    assert forall|j: int| 0 <= j < back.len() implies (#[trigger] back[j]).key() != k by {
        assert(s[i].key() != s[i + 1 + j].key());
    }
    assert(s =~= front + seq![r] + back);
    lemma_of_key_add(front + seq![r], back, k);
    lemma_of_key_add(front, seq![r], k);
    lemma_of_key_one(r, k);
    lemma_of_key_none(front, k);
    lemma_of_key_none(back, k);
    assert(of_key(s, k) =~= seq![r]);
}

/// Where no two records share a key, the sorted order depends on nothing but
/// which records there are: not on the order in which they came either.
pub proof fn law_distinct_keys_have_one_order<R: Record>(
    a: Seq<R>,
    x: Seq<R>,
    b: Seq<R>,
    y: Seq<R>,
)
    requires
        stably_sorted(a, x),
        stably_sorted(b, y),
        keys_distinct(x),
        keys_distinct(y),
        forall|r: R| #[trigger] x.contains(r) <==> y.contains(r),
    ensures
        a == b,
{
    assert forall|k: nat| #[trigger] of_key(b, k) == of_key(x, k) by {
        assert(of_key(b, k) == of_key(y, k));
        if exists|i: int| 0 <= i < x.len() && (#[trigger] x[i]).key() == k {
            let i = choose|i: int| 0 <= i < x.len() && (#[trigger] x[i]).key() == k;
            assert(x.contains(x[i]));
            lemma_of_key_distinct(x, x[i]);
            lemma_of_key_distinct(y, x[i]);
        } else {
            lemma_of_key_none(x, k);
            assert forall|j: int| 0 <= j < y.len() implies (#[trigger] y[j]).key() != k by {
                assert(y.contains(y[j]));
                assert(x.contains(y[j]));
                assert(x[x.index_of(y[j])] == y[j]);
            }
            lemma_of_key_none(y, k);
        }
    }
    law_stable_order_is_unique(a, b, x);
}

/// Sorting loses no record and makes none up.
pub proof fn law_stable_order_keeps_all<R: Record>(out: Seq<R>, input: Seq<R>)
    requires
        stably_sorted(out, input),
    ensures
        out.len() == input.len(),
        forall|r: R| out.contains(r) <==> input.contains(r),
{
    assert forall|r: R| out.contains(r) <==> input.contains(r) by {
        lemma_of_key_contains(out, r);
        lemma_of_key_contains(input, r);
        assert(of_key(out, r.key()) == of_key(input, r.key()));
    }
    lemma_same_len(out, input);
}

/// Sequences that agree on the records of every key have one length.
pub proof fn lemma_same_len<R: Record>(a: Seq<R>, b: Seq<R>)
    requires
        forall|k: nat| #[trigger] of_key(a, k) == of_key(b, k),
    ensures
        a.len() == b.len(),
    decreases a.len(),
{
    if a.len() == 0 {
        if b.len() > 0 {
            lemma_of_key_contains(b, b[0]);
            lemma_of_key_contains(a, b[0]);
            assert(b.contains(b[0]));
            assert(of_key(a, b[0].key()) == of_key(b, b[0].key()));
        }
    } else {
        let r = a.last();
        lemma_of_key_contains(a, r);
        lemma_of_key_contains(b, r);
        assert(a.contains(r));
        assert(of_key(a, r.key()) == of_key(b, r.key()));
        assert(b.contains(r));
        // Drop the last record of that key from both.
        let i = lemma_last_of_key(b, r.key());
        let b0 = b.subrange(0, i);
        let b1 = b.subrange(i + 1, b.len() as int);
        let rest = b0 + b1;
        assert(b =~= b0 + seq![b[i]] + b1);
        assert(a =~= a.drop_last() + seq![r]);
        assert forall|k: nat| #[trigger] of_key(a.drop_last(), k) == of_key(rest, k) by {
            lemma_of_key_add(a.drop_last(), seq![r], k);
            lemma_of_key_one(r, k);
            lemma_of_key_add(b0 + seq![b[i]], b1, k);
            lemma_of_key_add(b0, seq![b[i]], k);
            lemma_of_key_add(b0, b1, k);
            lemma_of_key_one(b[i], k);
            assert(of_key(a, k) == of_key(b, k));
            if k == r.key() {
                lemma_of_key_none(b1, k);
                assert(of_key(a, k).drop_last() =~= of_key(a.drop_last(), k));
                assert(of_key(b, k).drop_last() =~= of_key(b0, k));
                assert(of_key(rest, k) =~= of_key(b0, k));
            } else {
                assert(of_key(a, k) =~= of_key(a.drop_last(), k));
                assert(of_key(b, k) =~= of_key(rest, k));
            }
        }
        lemma_same_len(a.drop_last(), rest);
    }
}

/// The last position of a key that occurs.
pub proof fn lemma_last_of_key<R: Record>(s: Seq<R>, k: nat) -> (i: int)
    requires
        exists|j: int| 0 <= j < s.len() && (#[trigger] s[j]).key() == k,
    ensures
        0 <= i < s.len(),
        s[i].key() == k,
        forall|j: int| i < j < s.len() ==> (#[trigger] s[j]).key() != k,
    decreases s.len(),
{
    if s.last().key() == k {
        s.len() - 1
    } else {
        let t = s.drop_last();
        let j = choose|j: int| 0 <= j < s.len() && (#[trigger] s[j]).key() == k;
        assert(t[j].key() == k);
        let i = lemma_last_of_key(t, k);
        assert forall|j: int| i < j < s.len() implies (#[trigger] s[j]).key() != k by {
            if j < t.len() {
                assert(t[j].key() != k);
            }
        }
        i
    }
}

/// Records stand on the spool one behind the other, each at the place that their
/// width and its number tell.
pub proof fn law_records_stand_one_behind_another<R: Record>(s: Seq<R>, i: int)
    requires
        0 <= i < s.len(),
    ensures
        encode_all(s).len() == s.len() * R::width(),
        0 <= i * R::width() <= i * R::width() + R::width() <= encode_all(s).len(),
        encode_all(s).subrange(i * R::width(), i * R::width() + R::width()) == s[i].encoded(),
{
    let w = R::width() as int;
    let front = s.take(i);
    let back = s.skip(i + 1);
    assert(s =~= front.push(s[i]) + back);
    lemma_encode_all_add(front.push(s[i]), back);
    lemma_encode_all_push(front, s[i]);
    lemma_encode_all_len(front);
    lemma_encode_all_len(s);
    s[i].lemma_encoded_len();
    assert(encode_all(s).subrange(i * w, i * w + w) =~= s[i].encoded());
}

/// Sorting puts no record before one of a smaller key, and keeps each record as
/// often as it occurs.
pub proof fn law_sorted_output_ascends<R: Record>(out: Seq<R>, input: Seq<R>, i: int, j: int)
    requires
        stably_sorted(out, input),
        0 <= i < j < out.len(),
    ensures
        !(out[j].key() < out[i].key()),
        out.len() == input.len(),
        out.filter(|r: R| r == out[i]) == input.filter(|r: R| r == out[i]),
{
    let r = out[i];
    let k = r.key();
    assert(out[i].key() <= out[j].key());
    law_stable_order_keeps_all(out, input);
    assert(of_key(out, k) == of_key(input, k));
    lemma_filter_within_key(out, r);
    lemma_filter_within_key(input, r);
}

/// The occurrences of a record are found among those of its key.
proof fn lemma_filter_within_key<R: Record>(s: Seq<R>, r: R)
    ensures
        s.filter(|x: R| x == r) == of_key(s, r.key()).filter(|x: R| x == r),
    decreases s.len(),
{
    let same = |x: R| x == r;
    let k = r.key();
    reveal(Seq::filter);
    if s.len() > 0 {
        let init = s.drop_last();
        lemma_filter_within_key(init, r);
        assert(s =~= init + seq![s.last()]);
        lemma_of_key_add(init, seq![s.last()], k);
        lemma_of_key_one(s.last(), k);
        let front = of_key(init, k);
        if s.last().key() == k {
            assert(of_key(s, k) =~= front.push(s.last()));
            assert(of_key(s, k).drop_last() =~= front);
        } else {
            assert(of_key(s, k) =~= front);
        }
    } else {
        lemma_of_key_none(s, k);
    }
}

} // verus!
