//! A binary min-heap of run heads.
//!
//! Every run has at most one record in the heap, its head. The heap hands out
//! the head with the smallest key, and among equal keys that of the earliest
//! run.
use vstd::prelude::*;
use super::Record;

verus! {

/// The head of one run.
#[derive(Clone, Copy)]
pub struct HeapEntry<R: Record> {
    pub record: R,
    /// The run that `record` was read from.
    pub cursor_idx: usize,
}

/// `a` may come out before `b`.
pub open spec fn ranks_before<R: Record>(a: HeapEntry<R>, b: HeapEntry<R>) -> bool {
    ||| a.record.key() < b.record.key()
    ||| a.record.key() == b.record.key() && a.cursor_idx <= b.cursor_idx
}

/// `s` is a heap but for the edge between slot `hole` and its parent.
spec fn heap_above<R: Record>(s: Seq<HeapEntry<R>>, hole: int) -> bool {
    &&& forall|i: int|
        #![trigger s[i]]
        1 <= i < s.len() && i != hole ==> ranks_before(s[(i - 1) / 2], s[i])
    &&& forall|i: int|
        #![trigger s[i]]
        1 <= i < s.len() && hole > 0 && (i - 1) / 2 == hole ==> ranks_before(s[(hole - 1) / 2], s[i])
}

/// `s` is a heap but for the edges between slot `hole` and its children.
spec fn heap_below<R: Record>(s: Seq<HeapEntry<R>>, hole: int) -> bool {
    &&& forall|i: int|
        #![trigger s[i]]
        1 <= i < s.len() && (i - 1) / 2 != hole ==> ranks_before(s[(i - 1) / 2], s[i])
    &&& forall|i: int|
        #![trigger s[i]]
        1 <= i < s.len() && hole > 0 && (i - 1) / 2 == hole ==> ranks_before(s[(hole - 1) / 2], s[i])
}

/// Every slot ranks after its parent.
pub open spec fn is_heap<R: Record>(s: Seq<HeapEntry<R>>) -> bool {
    forall|i: int| #![trigger s[i]] 1 <= i < s.len() ==> ranks_before(s[(i - 1) / 2], s[i])
}

/// No run stands in the heap twice.
pub open spec fn runs_distinct<R: Record>(s: Seq<HeapEntry<R>>) -> bool {
    forall|i: int, j: int|
        0 <= i < j < s.len() ==> (#[trigger] s[i]).cursor_idx != (#[trigger] s[j]).cursor_idx
}

/// The same entries, in whatever slots.
pub open spec fn same_entries<R: Record>(a: Seq<HeapEntry<R>>, b: Seq<HeapEntry<R>>) -> bool {
    &&& a.len() == b.len()
    &&& forall|e: HeapEntry<R>| #[trigger] a.contains(e) <==> b.contains(e)
}

/// A min-heap of run heads.
pub struct Heap<R: Record> {
    slots: Vec<HeapEntry<R>>,
}

proof fn lemma_root_first<R: Record>(s: Seq<HeapEntry<R>>, i: int)
    requires
        is_heap(s),
        0 <= i < s.len(),
    ensures
        ranks_before(s[0], s[i]),
    decreases i,
{
    if i > 0 {
        lemma_root_first(s, (i - 1) / 2);
        assert(ranks_before(s[(i - 1) / 2], s[i]));
    }
}

/// `s` with the entries of slots `i` and `j` exchanged.
spec fn exchanged<R: Record>(s: Seq<HeapEntry<R>>, i: int, j: int) -> Seq<HeapEntry<R>> {
    s.update(i, s[j]).update(j, s[i])
}

proof fn lemma_exchange<R: Record>(s: Seq<HeapEntry<R>>, i: int, j: int)
    requires
        0 <= i < s.len(),
        0 <= j < s.len(),
        runs_distinct(s),
    ensures
        same_entries(exchanged(s, i, j), s),
        runs_distinct(exchanged(s, i, j)),
{
    let t = exchanged(s, i, j);
    assert forall|e: HeapEntry<R>| #[trigger] t.contains(e) <==> s.contains(e) by {
        if t.contains(e) {
            let k = t.index_of(e);
            let m = if k == i {
                j
            } else if k == j {
                i
            } else {
                k
            };
            assert(s[m] == e);
        }
        if s.contains(e) {
            let k = s.index_of(e);
            let m = if k == i {
                j
            } else if k == j {
                i
            } else {
                k
            };
            assert(t[m] == e);
        }
    }
}

impl<R: Record> Heap<R> {
    /// The entries, in no particular order.
    pub closed spec fn entries(self) -> Seq<HeapEntry<R>> {
        self.slots@
    }

    /// The heap property holds and no run stands in it twice.
    pub closed spec fn wf(self) -> bool {
        is_heap(self.slots@) && runs_distinct(self.slots@)
    }

    /// Two different entries belong to two different runs.
    pub proof fn lemma_distinct(self, a: HeapEntry<R>, b: HeapEntry<R>)
        requires
            self.wf(),
            self.entries().contains(a),
            self.entries().contains(b),
            a.cursor_idx == b.cursor_idx,
        ensures
            a == b,
    {
        let i = self.slots@.index_of(a);
        let j = self.slots@.index_of(b);
        assert(self.slots@[i] == a && self.slots@[j] == b);
    }

    pub fn with_capacity(n: usize) -> (heap: Self)
        ensures
            heap.wf(),
            heap.entries() == Seq::<HeapEntry<R>>::empty(),
    {
        Heap { slots: Vec::with_capacity(n) }
    }

    pub fn len(&self) -> (n: usize)
        ensures
            n == self.entries().len(),
    {
        self.slots.len()
    }

    fn first(a: &HeapEntry<R>, b: &HeapEntry<R>) -> (r: bool)
        ensures
            r == ranks_before(*a, *b),
    {
        if a.record.key_less(&b.record) {
            true
        } else if b.record.key_less(&a.record) {
            false
        } else {
            a.cursor_idx <= b.cursor_idx
        }
    }

    /// Insert the head of a run that has none in the heap.
    pub fn push(&mut self, entry: HeapEntry<R>)
        requires
            old(self).wf(),
            forall|e: HeapEntry<R>| #[trigger]
                old(self).entries().contains(e) ==> e.cursor_idx != entry.cursor_idx,
        ensures
            final(self).wf(),
            final(self).entries().len() == old(self).entries().len() + 1,
            forall|e: HeapEntry<R>| #[trigger]
                final(self).entries().contains(e) <==> (old(self).entries().contains(e) || e
                    == entry),
    {
        let ghost before = self.slots@;
        self.slots.push(entry);
        let mut i: usize = self.slots.len() - 1;
        let ghost pushed = self.slots@;
        proof {
            assert forall|e: HeapEntry<R>| #[trigger] pushed.contains(e) <==> (before.contains(e)
                || e == entry) by {
                if before.contains(e) {
                    assert(pushed[before.index_of(e)] == e);
                }
                assert(pushed[before.len() as int] == entry);
                if pushed.contains(e) {
                    let k = pushed.index_of(e);
                    if k < before.len() {
                        assert(before[k] == e);
                    }
                }
            }
            assert forall|a: int, b: int| 0 <= a < b < pushed.len() implies (
            #[trigger] pushed[a]).cursor_idx != (#[trigger] pushed[b]).cursor_idx by {
                assert(before[a] == pushed[a]);
                assert(old(self).entries() == before);
                assert(old(self).entries().contains(before[a]));
                if b < before.len() {
                    assert(before[b] == pushed[b]);
                }
            }
        }
        while i > 0 && !Self::first(&self.slots[(i - 1) / 2], &self.slots[i])
            invariant
                i < self.slots@.len(),
                heap_above(self.slots@, i as int),
                runs_distinct(self.slots@),
                same_entries(self.slots@, pushed),
            ensures
                is_heap(self.slots@),
                runs_distinct(self.slots@),
                same_entries(self.slots@, pushed),
            decreases i,
        {
            let p: usize = (i - 1) / 2;
            let ghost s = self.slots@;
            let up = self.slots[i];
            let down = self.slots[p];
            self.slots.set(p, up);
            self.slots.set(i, down);
            proof {
                assert(self.slots@ =~= exchanged(s, p as int, i as int));
                lemma_exchange(s, p as int, i as int);
                let t = self.slots@;
                assert forall|k: int|
                    #![trigger t[k]]
                    1 <= k < t.len() && k != p implies ranks_before(t[(k - 1) / 2], t[k]) by {
                    assert(k == i || t[k] == s[k]);
                    let q = (k - 1) / 2;
                    if k == i {
                        assert(t[i as int] == s[p as int]);
                    } else if q == i {
                        assert(ranks_before(s[p as int], s[k]));
                    } else if q == p {
                        assert(ranks_before(s[q], s[k]));
                    } else {
                        assert(ranks_before(s[q], s[k]));
                    }
                }
                assert forall|k: int|
                    #![trigger t[k]]
                    1 <= k < t.len() && p > 0 && (k - 1) / 2 == p implies ranks_before(
                    t[(p - 1) / 2],
                    t[k],
                ) by {
                    assert(ranks_before(s[(p - 1) / 2], s[p as int]));
                    if k != i {
                        assert(ranks_before(s[p as int], s[k]));
                    }
                }
            }
            i = p;
        }
    }

    /// Take out the entry that ranks first, if there is any.
    pub fn pop(&mut self) -> (top: Option<HeapEntry<R>>)
        requires
            old(self).wf(),
        ensures
            final(self).wf(),
            match top {
                None => old(self).entries().len() == 0 && final(self).entries() == old(
                    self,
                ).entries(),
                Some(first) => {
                    &&& old(self).entries().contains(first)
                    &&& forall|e: HeapEntry<R>| #[trigger]
                        old(self).entries().contains(e) ==> ranks_before(first, e)
                    &&& final(self).entries().len() + 1 == old(self).entries().len()
                    &&& forall|e: HeapEntry<R>| #[trigger]
                        final(self).entries().contains(e) <==> (old(self).entries().contains(e)
                            && e != first)
                },
            },
    {
        let n: usize = self.slots.len();
        if n == 0 {
            return None;
        }
        let ghost s0 = self.slots@;
        let first = self.slots[0];
        let last = self.slots[n - 1];
        self.slots.set(0, last);
        self.slots.pop();
        let ghost cut = self.slots@;
        proof {
            assert(s0.contains(s0[0]));
            assert forall|e: HeapEntry<R>| #[trigger] s0.contains(e) implies ranks_before(
                first,
                e,
            ) by {
                lemma_root_first(s0, s0.index_of(e));
            }
            assert forall|e: HeapEntry<R>| #[trigger] cut.contains(e) <==> (s0.contains(e) && e
                != first) by {
                if cut.contains(e) {
                    let k = cut.index_of(e);
                    if k == 0 {
                        assert(s0[n - 1] == e);
                    } else {
                        assert(s0[k] == e);
                    }
                }
                if s0.contains(e) && e != first {
                    let k = s0.index_of(e);
                    if k == n - 1 {
                        assert(cut[0] == e);
                    } else {
                        assert(cut[k] == e);
                    }
                }
            }
            assert forall|a: int, b: int| 0 <= a < b < cut.len() implies (
            #[trigger] cut[a]).cursor_idx != (#[trigger] cut[b]).cursor_idx by {
                let a0 = if a == 0 {
                    n - 1
                } else {
                    a
                };
                assert(s0[a0] == cut[a] && s0[b] == cut[b]);
            }
            assert forall|k: int|
                #![trigger cut[k]]
                1 <= k < cut.len() && (k - 1) / 2 != 0 implies ranks_before(
                cut[(k - 1) / 2],
                cut[k],
            ) by {
                assert(s0[k] == cut[k]);
                assert(s0[(k - 1) / 2] == cut[(k - 1) / 2]);
            }
        }
        let m: usize = self.slots.len();
        let mut i: usize = 0;
        let mut done: bool = false;
        while !done
            invariant
                m == self.slots@.len(),
                i < m || (m == 0 && i == 0),
                !done ==> heap_below(self.slots@, i as int),
                done ==> is_heap(self.slots@),
                runs_distinct(self.slots@),
                same_entries(self.slots@, cut),
            decreases m - i + (if done { 0int } else { 1int }),
        {
            let ghost s = self.slots@;
            // The smaller of the two children, if there are any.
            if m == 0 || i > (m - 1) / 2 || 2 * i + 1 >= m {
                done = true;
                proof {
                    assert forall|k: int|
                        #![trigger s[k]]
                        1 <= k < s.len() implies ranks_before(s[(k - 1) / 2], s[k]) by {
                        assert((k - 1) / 2 != i);
                    }
                }
            } else {
                let l: usize = 2 * i + 1;
                let c: usize = if l + 1 < m && !Self::first(&self.slots[l], &self.slots[l + 1]) {
                    l + 1
                } else {
                    l
                };
                if Self::first(&self.slots[i], &self.slots[c]) {
                    done = true;
                    proof {
                        assert forall|k: int|
                            #![trigger s[k]]
                            1 <= k < s.len() implies ranks_before(s[(k - 1) / 2], s[k]) by {
                            if (k - 1) / 2 == i {
                                assert(k == l || k == l + 1);
                                assert(ranks_before(s[c as int], s[k]));
                            }
                        }
                    }
                } else {
                    let up = self.slots[c];
                    let down = self.slots[i];
                    self.slots.set(i, up);
                    self.slots.set(c, down);
                    proof {
                        assert(self.slots@ =~= exchanged(s, i as int, c as int));
                        lemma_exchange(s, i as int, c as int);
                        let t = self.slots@;
                        assert forall|k: int|
                            #![trigger t[k]]
                            1 <= k < t.len() && (k - 1) / 2 != c implies ranks_before(
                            t[(k - 1) / 2],
                            t[k],
                        ) by {
                            let q = (k - 1) / 2;
                            if k == c {
                                assert(q == i);
                            } else if q == i {
                                assert(k == l || k == l + 1);
                                assert(ranks_before(s[c as int], s[k]));
                                assert(t[k] == s[k]);
                            } else if k == i {
                                assert(ranks_before(s[q], s[c as int]));
                                assert(t[q] == s[q]);
                            } else {
                                assert(t[k] == s[k] && t[q] == s[q]);
                                assert(ranks_before(s[q], s[k]));
                            }
                        }
                        assert forall|k: int|
                            #![trigger t[k]]
                            1 <= k < t.len() && c > 0 && (k - 1) / 2 == c implies ranks_before(
                            t[(c - 1) / 2],
                            t[k],
                        ) by {
                            assert((c - 1) / 2 == i);
                            assert(t[k] == s[k]);
                            assert(ranks_before(s[c as int], s[k]));
                        }
                    }
                    i = c;
                }
            }
        }
        Some(first)
    }
}

} // verus!
