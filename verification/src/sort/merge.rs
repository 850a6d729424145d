//! Merging sorted runs, and the in-memory stable sort built from it.
use vstd::prelude::*;
use super::Record;

verus! {

/// Run `i` is the one to take from next: its head has the smallest key, and
/// among equal keys it is the earliest run.
pub open spec fn is_front<R: Record>(runs: Seq<Seq<R>>, i: int) -> bool {
    &&& 0 <= i < runs.len()
    &&& runs[i].len() > 0
    &&& forall|j: int|
        0 <= j < runs.len() && (#[trigger] runs[j]).len() > 0 ==> {
            ||| runs[i][0].key() < runs[j][0].key()
            ||| runs[i][0].key() == runs[j][0].key() && i <= j
        }
}

/// How many records the runs hold together.
pub open spec fn total<R>(runs: Seq<Seq<R>>) -> nat
    decreases runs.len(),
{
    if runs.len() == 0 {
        0
    } else {
        total(runs.drop_last()) + runs.last().len()
    }
}

/// The runs after the head of run `i` was taken.
pub open spec fn advance<R>(runs: Seq<Seq<R>>, i: int) -> Seq<Seq<R>> {
    runs.update(i, runs[i].drop_first())
}

/// What comes out when the head of the front run is taken until no run has any left.
pub open spec fn merged<R: Record>(runs: Seq<Seq<R>>) -> Seq<R>
    decreases total(runs),
{
    if exists|i: int| is_front(runs, i) {
        let i = choose|i: int| is_front(runs, i);
        proof {
            lemma_total_advance(runs, i);
        }
        seq![runs[i][0]] + merged(advance(runs, i))
    } else {
        Seq::empty()
    }
}

pub proof fn lemma_total_advance<R>(runs: Seq<Seq<R>>, i: int)
    requires
        0 <= i < runs.len(),
        runs[i].len() > 0,
    ensures
        total(advance(runs, i)) == total(runs) - 1,
    decreases runs.len(),
{
    let next = advance(runs, i);
    if i == runs.len() - 1 {
        assert(next.drop_last() =~= runs.drop_last());
    } else {
        assert(next.drop_last() =~= advance(runs.drop_last(), i));
        lemma_total_advance(runs.drop_last(), i);
    }
}

/// There is a front run as long as any run has a record left.
pub proof fn lemma_front_exists<R: Record>(runs: Seq<Seq<R>>, some: int) -> (i: int)
    requires
        0 <= some < runs.len(),
        runs[some].len() > 0,
    ensures
        is_front(runs, i),
    decreases runs.len(),
{
    let init = runs.drop_last();
    let last = runs.len() - 1;
    if exists|j: int| 0 <= j < init.len() && (#[trigger] init[j]).len() > 0 {
        let j = choose|j: int| 0 <= j < init.len() && (#[trigger] init[j]).len() > 0;
        let f = lemma_front_exists(init, j);
        assert forall|m: int| 0 <= m < last && (#[trigger] runs[m]).len() > 0 implies {
            ||| runs[f][0].key() < runs[m][0].key()
            ||| runs[f][0].key() == runs[m][0].key() && f <= m
        } by {
            assert(init[m].len() > 0);
        }
        if runs[last].len() > 0 && runs[last][0].key() < runs[f][0].key() {
            last
        } else {
            f
        }
    } else {
        assert forall|j: int| 0 <= j < last implies (#[trigger] runs[j]).len() == 0 by {
            assert(init[j].len() == 0);
        }
        assert(some == last);
        last
    }
}

pub proof fn lemma_front_unique<R: Record>(runs: Seq<Seq<R>>, i: int, j: int)
    requires
        is_front(runs, i),
        is_front(runs, j),
    ensures
        i == j,
{
    assert(runs[i].len() > 0 && runs[j].len() > 0);
}

/// One step of the merge.
pub proof fn lemma_merged_step<R: Record>(runs: Seq<Seq<R>>, i: int)
    requires
        is_front(runs, i),
    ensures
        merged(runs) == seq![runs[i][0]] + merged(advance(runs, i)),
        merged(runs).len() > 0,
        merged(runs)[0] == runs[i][0],
        merged(runs).drop_first() == merged(advance(runs, i)),
{
    let c = choose|c: int| is_front(runs, c);
    lemma_front_unique(runs, i, c);
    assert(merged(runs).drop_first() =~= merged(advance(runs, i)));
}

/// The end of the merge.
pub proof fn lemma_merged_done<R: Record>(runs: Seq<Seq<R>>)
    requires
        forall|j: int| 0 <= j < runs.len() ==> (#[trigger] runs[j]).len() == 0,
    ensures
        merged(runs) == Seq::<R>::empty(),
{
    if exists|i: int| is_front(runs, i) {
        let i = choose|i: int| is_front(runs, i);
        assert(runs[i].len() == 0);
    }
}

/// Taking a head leaves the records of another key as they are, and takes the
/// first of its own key.
proof fn lemma_advance_of_key<R: Record>(runs: Seq<Seq<R>>, i: int, k: nat)
    requires
        0 <= i < runs.len(),
        runs[i].len() > 0,
        runs[i][0].key() == k ==> forall|j: int|
            0 <= j < i ==> super::of_key(#[trigger] runs[j], k) == Seq::<R>::empty(),
    ensures
        super::of_key(super::concat(runs), k) == super::of_key(seq![runs[i][0]], k) + super::of_key(
            super::concat(advance(runs, i)),
            k,
        ),
    decreases runs.len(),
{
    let next = advance(runs, i);
    let init = runs.drop_last();
    let head = seq![runs[i][0]];
    super::lemma_of_key_one(runs[i][0], k);
    if i == runs.len() - 1 {
        let tail = runs[i].drop_first();
        assert(next.drop_last() =~= init);
        assert(runs[i] =~= head + tail);
        super::lemma_of_key_add(super::concat(init), runs[i], k);
        super::lemma_of_key_add(head, tail, k);
        super::lemma_of_key_add(super::concat(init), tail, k);
        if runs[i][0].key() == k {
            assert forall|j: int| 0 <= j < init.len() implies super::of_key(#[trigger] init[j], k)
                == Seq::<R>::empty() by {
                assert(init[j] == runs[j]);
            }
            lemma_concat_none(init, k);
        }
        assert(super::of_key(super::concat(runs), k) =~= super::of_key(head, k) + super::of_key(super::concat(next), k));
    } else {
        assert forall|j: int| runs[i][0].key() == k && 0 <= j < i implies super::of_key(
            #[trigger] init[j],
            k,
        ) == Seq::<R>::empty() by {
            assert(init[j] == runs[j]);
        }
        lemma_advance_of_key(init, i, k);
        assert(next.drop_last() =~= advance(init, i));
        super::lemma_of_key_add(super::concat(init), runs.last(), k);
        super::lemma_of_key_add(super::concat(next.drop_last()), runs.last(), k);
        assert(super::of_key(super::concat(runs), k) =~= super::of_key(head, k) + super::of_key(super::concat(next), k));
    }
}

proof fn lemma_concat_none<R: Record>(runs: Seq<Seq<R>>, k: nat)
    requires
        forall|j: int| 0 <= j < runs.len() ==> super::of_key(#[trigger] runs[j], k) == Seq::<R>::empty(),
    ensures
        super::of_key(super::concat(runs), k) == Seq::<R>::empty(),
    decreases runs.len(),
{
    if runs.len() == 0 {
        super::lemma_of_key_none(super::concat(runs), k);
    } else {
        let init = runs.drop_last();
        assert forall|j: int| 0 <= j < init.len() implies super::of_key(#[trigger] init[j], k) == Seq::<
            R,
        >::empty() by {
            assert(init[j] == runs[j]);
        }
        lemma_concat_none(init, k);
        super::lemma_of_key_add(super::concat(init), runs.last(), k);
        assert(super::of_key(runs[runs.len() - 1], k) == Seq::<R>::empty());
        assert(super::of_key(super::concat(runs), k) =~= Seq::<R>::empty());
    }
}

/// Merging sorted runs sorts their concatenation, and does so stably: among
/// equal keys, the records of an earlier run come first.
pub proof fn law_merge_is_stable_sort<R: Record>(runs: Seq<Seq<R>>)
    requires
        forall|j: int| 0 <= j < runs.len() ==> super::sorted(#[trigger] runs[j]),
    ensures
        super::stably_sorted(merged(runs), super::concat(runs)),
    decreases total(runs),
{
    if exists|i: int| is_front(runs, i) {
        let i = choose|i: int| is_front(runs, i);
        let next = advance(runs, i);
        let head = runs[i][0];
        lemma_total_advance(runs, i);
        lemma_merged_step(runs, i);
        assert forall|j: int| 0 <= j < next.len() implies super::sorted(#[trigger] next[j]) by {
            assert(super::sorted(runs[j]));
            if j == i {
                let t = next[j];
                assert forall|a: int, b: int| 0 <= a <= b < t.len() implies (
                #[trigger] t[a]).key() <= (#[trigger] t[b]).key() by {
                    assert(runs[i][a + 1].key() <= runs[i][b + 1].key());
                }
            }
        }
        law_merge_is_stable_sort(next);
        let rest = merged(next);
        assert forall|k: nat| #[trigger] super::of_key(merged(runs), k) == super::of_key(super::concat(runs), k) by {
            assert forall|j: int| head.key() == k && 0 <= j < i implies super::of_key(
                #[trigger] runs[j],
                k,
            ) == Seq::<R>::empty() by {
                assert(super::sorted(runs[j]));
                assert forall|m: int| 0 <= m < runs[j].len() implies (
                #[trigger] runs[j][m]).key() != k by {
                    assert(runs[j][0].key() <= runs[j][m].key());
                }
                super::lemma_of_key_none(runs[j], k);
            }
            lemma_advance_of_key(runs, i, k);
            super::lemma_of_key_add(seq![head], rest, k);
            assert(super::of_key(rest, k) == super::of_key(super::concat(next), k));
        }
        let out = merged(runs);
        assert forall|a: int, b: int| 0 <= a <= b < out.len() implies (#[trigger] out[a]).key()
            <= (#[trigger] out[b]).key() by {
            if a > 0 {
                assert(out[a] == rest[a - 1] && out[b] == rest[b - 1]);
            } else if b > 0 {
                let r = rest[b - 1];
                assert(out[b] == r);
                assert(rest.contains(r));
                super::lemma_of_key_contains(rest, r);
                assert(super::of_key(rest, r.key()) == super::of_key(super::concat(next), r.key()));
                super::lemma_of_key_contains(super::concat(next), r);
                let j = super::lemma_concat_contains(next, r);
                let m = next[j].index_of(r);
                assert(super::sorted(runs[j]));
                if j == i {
                    assert(runs[i][m + 1] == r);
                    assert(runs[i][0].key() <= runs[i][m + 1].key());
                } else {
                    assert(runs[j][m] == r);
                    assert(runs[j][0].key() <= runs[j][m].key());
                }
            }
        }
    } else {
        assert forall|j: int| 0 <= j < runs.len() implies (#[trigger] runs[j]).len() == 0 by {
            if runs[j].len() > 0 {
                let f = lemma_front_exists(runs, j);
            }
        }
        lemma_merged_done(runs);
        assert forall|k: nat| #[trigger] super::of_key(merged(runs), k) == super::of_key(super::concat(runs), k) by {
            assert forall|j: int| 0 <= j < runs.len() implies super::of_key(#[trigger] runs[j], k)
                == Seq::<R>::empty() by {
                super::lemma_of_key_none(runs[j], k);
            }
            lemma_concat_none(runs, k);
            super::lemma_of_key_none(merged(runs), k);
        }
    }
}

/// Sorting the pieces first does not change the stable order of the whole.
pub proof fn lemma_stable_order_of_pieces<R: Record>(
    out: Seq<R>,
    a: Seq<R>,
    b: Seq<R>,
    left: Seq<R>,
    right: Seq<R>,
)
    requires
        super::stably_sorted(out, a + b),
        super::stably_sorted(a, left),
        super::stably_sorted(b, right),
    ensures
        super::stably_sorted(out, left + right),
{
    assert forall|k: nat| #[trigger] super::of_key(out, k) == super::of_key(left + right, k) by {
        super::lemma_of_key_add(a, b, k);
        super::lemma_of_key_add(left, right, k);
        assert(super::of_key(a, k) == super::of_key(left, k));
        assert(super::of_key(b, k) == super::of_key(right, k));
        assert(super::of_key(out, k) == super::of_key(a + b, k));
    }
}

/// Merge two runs.
fn merge_two<R: Record>(a: &Vec<R>, b: &Vec<R>) -> (out: Vec<R>)
    requires
        a.len() + b.len() <= usize::MAX,
    ensures
        out@ == merged(seq![a@, b@]),
{
    let mut out: Vec<R> = Vec::with_capacity(a.len() + b.len());
    let mut i: usize = 0;
    let mut j: usize = 0;
    assert(a@.skip(0) =~= a@);
    assert(b@.skip(0) =~= b@);
    assert(out@ + merged(seq![a@.skip(0), b@.skip(0)]) =~= merged(seq![a@, b@]));
    while i < a.len() || j < b.len()
        invariant
            i <= a.len(),
            j <= b.len(),
            out@ + merged(seq![a@.skip(i as int), b@.skip(j as int)]) == merged(seq![a@, b@]),
        decreases a.len() - i + b.len() - j,
    {
        let ghost runs = seq![a@.skip(i as int), b@.skip(j as int)];
        let from_b: bool = if i == a.len() {
            true
        } else if j == b.len() {
            false
        } else {
            b[j].key_less(&a[i])
        };
        let ghost before = out@;
        if from_b {
            out.push(b[j]);
            proof {
                assert(is_front(runs, 1));
                lemma_merged_step(runs, 1);
                assert(runs[1].drop_first() =~= b@.skip(j + 1));
                assert(advance(runs, 1) =~= seq![a@.skip(i as int), b@.skip(j + 1)]);
                assert(out@ + merged(advance(runs, 1)) =~= before + merged(runs));
            }
            j = j + 1;
        } else {
            out.push(a[i]);
            proof {
                assert(is_front(runs, 0));
                lemma_merged_step(runs, 0);
                assert(runs[0].drop_first() =~= a@.skip(i + 1));
                assert(advance(runs, 0) =~= seq![a@.skip(i + 1), b@.skip(j as int)]);
                assert(out@ + merged(advance(runs, 0)) =~= before + merged(runs));
            }
            i = i + 1;
        }
    }
    proof {
        let runs = seq![a@.skip(i as int), b@.skip(j as int)];
        lemma_merged_done(runs);
        assert(out@ + merged(runs) =~= out@);
    }
    out
}

/// The records of `v` from `lo` up to `hi`, stably sorted.
fn sort_range<R: Record>(v: &Vec<R>, lo: usize, hi: usize) -> (out: Vec<R>)
    requires
        lo <= hi <= v.len(),
    ensures
        super::stably_sorted(out@, v@.subrange(lo as int, hi as int)),
    decreases hi - lo,
{
    if hi - lo <= 1 {
        let mut out: Vec<R> = Vec::new();
        if lo < hi {
            out.push(v[lo]);
        }
        assert(out@ =~= v@.subrange(lo as int, hi as int));
        out
    } else {
        let mid: usize = lo + (hi - lo) / 2;
        let a = sort_range(v, lo, mid);
        let b = sort_range(v, mid, hi);
        let ghost left = v@.subrange(lo as int, mid as int);
        let ghost right = v@.subrange(mid as int, hi as int);
        proof {
            super::law_stable_order_keeps_all(a@, left);
            super::law_stable_order_keeps_all(b@, right);
        }
        let out = merge_two(&a, &b);
        proof {
            let runs = seq![a@, b@];
            assert forall|j: int| 0 <= j < runs.len() implies super::sorted(#[trigger] runs[j]) by {
                assert(super::sorted(a@) && super::sorted(b@));
            }
            law_merge_is_stable_sort(runs);
            super::lemma_concat_two(a@, b@);
            lemma_stable_order_of_pieces(out@, a@, b@, left, right);
            assert(left + right =~= v@.subrange(lo as int, hi as int));
        }
        out
    }
}

/// A stable sort by key.
pub fn stable_sort<R: Record>(v: &Vec<R>) -> (out: Vec<R>)
    ensures
        super::stably_sorted(out@, v@),
{
    assert(v@.subrange(0, v@.len() as int) =~= v@);
    sort_range(v, 0, v.len())
}

} // verus!
