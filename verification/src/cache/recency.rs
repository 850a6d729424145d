//! Entries in the order of their last use, the latest first.
use vstd::prelude::*;

verus! {

/// Some entry has the key.
pub open spec fn has_key<K, V>(s: Seq<(K, V)>, k: K) -> bool {
    exists|i: int| 0 <= i < s.len() && (#[trigger] s[i]).0 == k
}

/// The value of the first entry with the key.
pub open spec fn value_of<K, V>(s: Seq<(K, V)>, k: K) -> Option<V>
    decreases s.len(),
{
    if s.len() == 0 {
        None
    } else if s[0].0 == k {
        Some(s[0].1)
    } else {
        value_of(s.subrange(1, s.len() as int), k)
    }
}

/// The entries without those of the key.
pub open spec fn without<K, V>(s: Seq<(K, V)>, k: K) -> Seq<(K, V)>
    decreases s.len(),
{
    if s.len() == 0 {
        s
    } else {
        let front = without(s.drop_last(), k);
        if s.last().0 == k {
            front
        } else {
            front.push(s.last())
        }
    }
}

/// No two entries share a key.
pub open spec fn keys_distinct<K, V>(s: Seq<(K, V)>) -> bool {
    forall|i: int, j: int| 0 <= i < j < s.len() ==> (#[trigger] s[i]).0 != (#[trigger] s[j]).0
}

/// The weight of all entries together.
pub open spec fn total_weight<K, V>(s: Seq<(K, V)>, weight: spec_fn(V) -> nat) -> nat
    decreases s.len(),
{
    if s.len() == 0 {
        0
    } else {
        total_weight(s.drop_last(), weight) + weight(s.last().1)
    }
}

/// What is left once entries were dropped, the least recently used first, until
/// there is room for a new one of weight `w` under `cap`. Every entry takes up
/// its weight and one more.
pub open spec fn made_room<K, V>(
    s: Seq<(K, V)>,
    weight: spec_fn(V) -> nat,
    w: nat,
    cap: nat,
) -> Seq<(K, V)>
    decreases s.len(),
{
    if s.len() > 0 && s.len() + total_weight(s, weight) + w >= cap {
        made_room(s.drop_last(), weight, w, cap)
    } else {
        s
    }
}

/// The entries after one more was put in.
pub open spec fn after_put<K, V>(
    s: Seq<(K, V)>,
    weight: spec_fn(V) -> nat,
    cap: nat,
    k: K,
    v: V,
) -> Seq<(K, V)> {
    seq![(k, v)] + made_room(without(s, k), weight, weight(v), cap)
}

/// The entries after the one of the key, if there is any, was used.
pub open spec fn after_use<K, V>(s: Seq<(K, V)>, k: K) -> Seq<(K, V)> {
    match value_of(s, k) {
        Some(v) => seq![(k, v)] + without(s, k),
        None => s,
    }
}

pub proof fn lemma_without<K, V>(s: Seq<(K, V)>, k: K)
    ensures
        without(s, k).len() <= s.len(),
        forall|i: int|
            0 <= i < without(s, k).len() ==> (#[trigger] without(s, k)[i]).0 != k && s.contains(
                without(s, k)[i],
            ),
        forall|i: int|
            0 <= i < s.len() && (#[trigger] s[i]).0 != k ==> without(s, k).contains(s[i]),
        keys_distinct(s) ==> keys_distinct(without(s, k)),
    decreases s.len(),
{
    if s.len() > 0 {
        let init = s.drop_last();
        lemma_without(init, k);
        let front = without(init, k);
        let all = without(s, k);
        assert forall|i: int| 0 <= i < all.len() implies (#[trigger] all[i]).0 != k && s.contains(
            all[i],
        ) by {
            if i < front.len() {
                assert(front[i] == all[i]);
                let j = init.index_of(front[i]);
                assert(s[j] == all[i]);
            } else {
                assert(s[s.len() - 1] == all[i]);
            }
        }
        assert forall|i: int| 0 <= i < s.len() && (#[trigger] s[i]).0 != k implies all.contains(
            s[i],
        ) by {
            if i < init.len() {
                assert(init[i] == s[i]);
                let j = front.index_of(init[i]);
                assert(all[j] == s[i]);
            } else {
                assert(all[front.len() as int] == s[i]);
            }
        }
        if keys_distinct(s) {
            assert forall|i: int, j: int| 0 <= i < j < init.len() implies (#[trigger] init[i]).0
                != (#[trigger] init[j]).0 by {
                assert(s[i].0 != s[j].0);
            }
            assert forall|i: int, j: int| 0 <= i < j < all.len() implies (#[trigger] all[i]).0 != (
            #[trigger] all[j]).0 by {
                assert(front[i] == all[i]);
                if j < front.len() {
                    assert(front[j] == all[j]);
                } else {
                    let m = init.index_of(front[i]);
                    assert(s[m].0 != s[s.len() - 1].0);
                }
            }
        }
    }
}

pub proof fn lemma_made_room<K, V>(
    s: Seq<(K, V)>,
    weight: spec_fn(V) -> nat,
    w: nat,
    cap: nat,
)
    requires
        w < cap,
    ensures
        ({
            let r = made_room(s, weight, w, cap);
            &&& r == s.take(r.len() as int)
            &&& r.len() <= s.len()
            &&& r.len() + total_weight(r, weight) + w < cap
        }),
    decreases s.len(),
{
    if s.len() > 0 && s.len() + total_weight(s, weight) + w >= cap {
        lemma_made_room(s.drop_last(), weight, w, cap);
        let r = made_room(s, weight, w, cap);
        assert(s.drop_last().take(r.len() as int) =~= s.take(r.len() as int));
    } else {
        assert(s.take(s.len() as int) =~= s);
    }
}

proof fn lemma_total_weight_cons<K, V>(x: (K, V), s: Seq<(K, V)>, weight: spec_fn(V) -> nat)
    ensures
        total_weight(seq![x] + s, weight) == weight(x.1) + total_weight(s, weight),
    decreases s.len(),
{
    if s.len() == 0 {
        assert(seq![x] + s =~= seq![x]);
        assert(seq![x].drop_last() =~= Seq::<(K, V)>::empty());
        reveal_with_fuel(total_weight, 2);
    } else {
        lemma_total_weight_cons(x, s.drop_last(), weight);
        assert((seq![x] + s).drop_last() =~= seq![x] + s.drop_last());
        assert((seq![x] + s).last() == s.last());
    }
}

proof fn lemma_without_absent<K, V>(s: Seq<(K, V)>, k: K)
    requires
        forall|i: int| 0 <= i < s.len() ==> (#[trigger] s[i]).0 != k,
    ensures
        without(s, k) == s,
    decreases s.len(),
{
    if s.len() > 0 {
        let init = s.drop_last();
        assert forall|i: int| 0 <= i < init.len() implies (#[trigger] init[i]).0 != k by {
            assert(init[i] == s[i]);
        }
        lemma_without_absent(init, k);
        assert(s[s.len() - 1].0 != k);
        assert(init.push(s.last()) =~= s);
    }
}

proof fn lemma_without_weight<K, V>(s: Seq<(K, V)>, weight: spec_fn(V) -> nat, i: int)
    requires
        keys_distinct(s),
        0 <= i < s.len(),
    ensures
        without(s, s[i].0).len() == s.len() - 1,
        total_weight(s, weight) == total_weight(without(s, s[i].0), weight) + weight(s[i].1),
    decreases s.len(),
{
    let k = s[i].0;
    let init = s.drop_last();
    assert forall|a: int, b: int| 0 <= a < b < init.len() implies (#[trigger] init[a]).0 != (
    #[trigger] init[b]).0 by {
        assert(s[a].0 != s[b].0);
    }
    if i == s.len() - 1 {
        assert forall|j: int| 0 <= j < init.len() implies (#[trigger] init[j]).0 != k by {
            assert(s[j].0 != s[i].0);
        }
        lemma_without_absent(init, k);
    } else {
        assert(s[i].0 != s[s.len() - 1].0);
        assert(init[i] == s[i]);
        lemma_without_weight(init, weight, i);
        let front = without(init, k);
        assert(front.push(s.last()).drop_last() =~= front);
    }
}

/// After something was put in, it can be found, all entries together fit under
/// the limit, and no two share a key.
pub proof fn law_put_keeps_to_the_limit<K, V>(
    s: Seq<(K, V)>,
    weight: spec_fn(V) -> nat,
    cap: nat,
    k: K,
    v: V,
)
    requires
        keys_distinct(s),
        weight(v) < cap,
    ensures
        ({
            let r = after_put(s, weight, cap, k, v);
            &&& value_of(r, k) == Some(v)
            &&& r.len() + total_weight(r, weight) <= cap
            &&& keys_distinct(r)
            &&& forall|i: int| 1 <= i < r.len() ==> s.contains(#[trigger] r[i])
        }),
{
    let rest = without(s, k);
    let kept = made_room(rest, weight, weight(v), cap);
    let r = after_put(s, weight, cap, k, v);
    lemma_without(s, k);
    lemma_made_room(rest, weight, weight(v), cap);
    lemma_total_weight_cons((k, v), kept, weight);
    assert(r[0] == (k, v));
    assert forall|i: int| 1 <= i < r.len() implies s.contains(#[trigger] r[i]) && r[i].0 != k by {
        assert(r[i] == kept[i - 1]);
        assert(kept[i - 1] == rest[i - 1]);
    }
    assert forall|i: int, j: int| 0 <= i < j < r.len() implies (#[trigger] r[i]).0 != (
    #[trigger] r[j]).0 by {
        if i > 0 {
            assert(r[i] == rest[i - 1] && r[j] == rest[j - 1]);
        }
    }
}

/// Using an entry changes nothing but the order: the same entries are there,
/// the used one first.
pub proof fn law_use_keeps_all<K, V>(s: Seq<(K, V)>, weight: spec_fn(V) -> nat, k: K)
    requires
        keys_distinct(s),
    ensures
        keys_distinct(after_use(s, k)),
        after_use(s, k).len() == s.len(),
        total_weight(after_use(s, k), weight) == total_weight(s, weight),
        forall|x: (K, V)| #[trigger] after_use(s, k).contains(x) <==> s.contains(x),
        has_key(s, k) <==> value_of(s, k) is Some,
{
    lemma_value_of(s, k);
    match value_of(s, k) {
        None => {},
        Some(v) => {
            lemma_without(s, k);
            let rest = without(s, k);
            let r = after_use(s, k);
            let at = s.index_of((k, v));
            lemma_without_weight(s, weight, at);
            lemma_total_weight_cons((k, v), rest, weight);
            assert forall|x: (K, V)| #[trigger] r.contains(x) <==> s.contains(x) by {
                if r.contains(x) {
                    let i = r.index_of(x);
                    if i > 0 {
                        assert(rest[i - 1] == x);
                    }
                }
                if s.contains(x) {
                    let i = s.index_of(x);
                    if x.0 == k {
                        let j = choose|j: int| 0 <= j < s.len() && s[j] == (k, v);
                        if i < j {
                            assert(s[i].0 != s[j].0);
                        } else if j < i {
                            assert(s[j].0 != s[i].0);
                        }
                        assert(r[0] == x);
                    } else {
                        assert(rest.contains(s[i]));
                        assert(r[rest.index_of(x) + 1] == x);
                    }
                }
            }
            assert forall|i: int, j: int| 0 <= i < j < r.len() implies (#[trigger] r[i]).0 != (
            #[trigger] r[j]).0 by {
                assert(r[j] == rest[j - 1]);
                if i > 0 {
                    assert(r[i] == rest[i - 1]);
                }
            }
        },
    }
}

/// A key has a value exactly if some entry has the key, and that is its value.
pub proof fn lemma_value_of<K, V>(s: Seq<(K, V)>, k: K)
    ensures
        has_key(s, k) <==> value_of(s, k) is Some,
        value_of(s, k) matches Some(v) ==> s.contains((k, v)),
    decreases s.len(),
{
    if s.len() > 0 {
        let tail = s.subrange(1, s.len() as int);
        lemma_value_of(tail, k);
        if s[0].0 != k {
            if has_key(s, k) {
                let i = choose|i: int| 0 <= i < s.len() && (#[trigger] s[i]).0 == k;
                assert(tail[i - 1].0 == k);
            }
            if has_key(tail, k) {
                let i = choose|i: int| 0 <= i < tail.len() && (#[trigger] tail[i]).0 == k;
                assert(s[i + 1].0 == k);
            }
            if value_of(tail, k) is Some {
                let j = tail.index_of((k, value_of(tail, k)->0));
                assert(s[j + 1] == (k, value_of(tail, k)->0));
            }
        } else {
            assert(s[0] == (k, s[0].1));
        }
    }
}

/// What is left without a key are the entries of all other keys, in their order.
pub proof fn law_without_is_all_others<K, V>(s: Seq<(K, V)>, k: K)
    ensures
        without(s, k) == s.filter(|e: (K, V)| e.0 != k),
    decreases s.len(),
{
    reveal(Seq::filter);
    if s.len() > 0 {
        law_without_is_all_others(s.drop_last(), k);
    }
}

/// Nothing weighs nothing, and one more entry adds its own weight.
pub proof fn law_weights_add_up<K, V>(s: Seq<(K, V)>, weight: spec_fn(V) -> nat, x: (K, V))
    ensures
        total_weight(Seq::<(K, V)>::empty(), weight) == 0,
        total_weight(s.push(x), weight) == total_weight(s, weight) + weight(x.1),
{
    assert(s.push(x).drop_last() =~= s);
}

/// An entry that is put in becomes the first. Behind it stand those of other keys
/// that were used latest, in their order, as many of them as there is room for:
/// all where all fit, and else so many that one more would not.
pub proof fn law_put_drops_the_least_recent_only<K, V>(
    s: Seq<(K, V)>,
    weight: spec_fn(V) -> nat,
    cap: nat,
    k: K,
    v: V,
)
    requires
        weight(v) < cap,
    ensures
        ({
            let r = after_put(s, weight, cap, k, v);
            let others = s.filter(|e: (K, V)| e.0 != k);
            let n = r.len() - 1;
            &&& 0 <= n <= others.len()
            &&& r == seq![(k, v)] + others.take(n)
            &&& n + total_weight(others.take(n), weight) + weight(v) < cap
            &&& n < others.len() ==> n + 1 + total_weight(others.take(n + 1), weight) + weight(v)
                >= cap
        }),
{
    let others = without(s, k);
    law_without_is_all_others(s, k);
    lemma_made_room(others, weight, weight(v), cap);
    lemma_no_more_fit(others, weight, weight(v), cap);
    let kept = made_room(others, weight, weight(v), cap);
    let r = after_put(s, weight, cap, k, v);
    assert(r.len() == kept.len() + 1);
    assert(r =~= seq![(k, v)] + others.take(r.len() - 1));
}

/// One more than what stays would not fit.
proof fn lemma_no_more_fit<K, V>(s: Seq<(K, V)>, weight: spec_fn(V) -> nat, w: nat, cap: nat)
    requires
        w < cap,
    ensures
        ({
            let n = made_room(s, weight, w, cap).len() as int;
            n < s.len() ==> n + 1 + total_weight(s.take(n + 1), weight) + w >= cap
        }),
    decreases s.len(),
{
    let n = made_room(s, weight, w, cap).len() as int;
    if s.len() > 0 && s.len() + total_weight(s, weight) + w >= cap {
        let init = s.drop_last();
        lemma_no_more_fit(init, weight, w, cap);
        lemma_made_room(init, weight, w, cap);
        if n < init.len() {
            assert(s.take(n + 1) =~= init.take(n + 1));
        } else {
            assert(s.take(n + 1) =~= s);
        }
    }
}

/// Using an entry takes it out of its place and puts it before all others, which
/// keep their order. Asking for a key that no entry has changes nothing.
pub proof fn law_use_moves_one_to_the_front<K, V>(s: Seq<(K, V)>, k: K)
    requires
        keys_distinct(s),
    ensures
        forall|i: int|
            0 <= i < s.len() && (#[trigger] s[i]).0 == k ==> value_of(s, k) == Some(s[i].1)
                && after_use(s, k) == seq![s[i]] + s.remove(i),
        (forall|i: int| 0 <= i < s.len() ==> (#[trigger] s[i]).0 != k) ==> value_of(s, k) is None
            && after_use(s, k) == s,
{
    lemma_value_of(s, k);
    assert forall|i: int| 0 <= i < s.len() && (#[trigger] s[i]).0 == k implies value_of(s, k)
        == Some(s[i].1) && after_use(s, k) == seq![s[i]] + s.remove(i) by {
        assert(has_key(s, k));
        let j = s.index_of((k, value_of(s, k)->0));
        assert(s[j] == (k, value_of(s, k)->0));
        if i < j {
            assert(s[i].0 != s[j].0);
        } else if j < i {
            assert(s[j].0 != s[i].0);
        }
        lemma_without_one(s, i);
        assert(s[i] == (k, value_of(s, k)->0));
    }
    if value_of(s, k) is Some {
        assert(has_key(s, k));
    }
}

/// Where no two entries share a key, one of them has to go for its key to go.
proof fn lemma_without_one<K, V>(s: Seq<(K, V)>, i: int)
    requires
        keys_distinct(s),
        0 <= i < s.len(),
    ensures
        without(s, s[i].0) == s.remove(i),
    decreases s.len(),
{
    let k = s[i].0;
    let init = s.drop_last();
    assert forall|a: int, b: int| 0 <= a < b < init.len() implies (#[trigger] init[a]).0 != (
    #[trigger] init[b]).0 by {
        assert(s[a].0 != s[b].0);
    }
    if i == s.len() - 1 {
        assert forall|j: int| 0 <= j < init.len() implies (#[trigger] init[j]).0 != k by {
            assert(s[j].0 != s[i].0);
        }
        lemma_without_absent(init, k);
        assert(s.remove(i) =~= init);
    } else {
        assert(s[i].0 != s[s.len() - 1].0);
        assert(init[i] == s[i]);
        lemma_without_one(init, i);
        assert(s.remove(i) =~= init.remove(i).push(s.last()));
    }
}

/// What is put in or used never changes what another key has: after a put that is
/// what it was or, if the entry went, nothing, and after a use it is what it was.
pub proof fn law_other_keys_keep_their_values<K, V>(
    s: Seq<(K, V)>,
    weight: spec_fn(V) -> nat,
    cap: nat,
    k: K,
    v: V,
    other: K,
)
    requires
        keys_distinct(s),
        weight(v) < cap,
        other != k,
    ensures
        ({
            let now = value_of(after_put(s, weight, cap, k, v), other);
            now is None || now == value_of(s, other)
        }),
        value_of(after_use(s, k), other) == value_of(s, other),
        value_of(after_use(s, k), k) == value_of(s, k),
{
    let r = after_put(s, weight, cap, k, v);
    let u = after_use(s, k);
    law_put_keeps_to_the_limit(s, weight, cap, k, v);
    law_use_keeps_all(s, weight, k);
    lemma_value_of(r, other);
    if value_of(r, other) is Some {
        let x = (other, value_of(r, other)->0);
        let i = r.index_of(x);
        assert(r[i] == x);
        assert(i > 0) by {
            assert(r[0] == (k, v));
        }
        assert(s.contains(x));
        lemma_value_is_only(s, x);
    }
    lemma_value_of(u, other);
    lemma_value_of(s, other);
    if value_of(u, other) is Some {
        let x = (other, value_of(u, other)->0);
        assert(s.contains(x));
        lemma_value_is_only(s, x);
    } else if value_of(s, other) is Some {
        let x = (other, value_of(s, other)->0);
        assert(u.contains(x));
        lemma_value_is_only(u, x);
    }
    lemma_value_of(s, k);
    if value_of(s, k) is Some {
        assert(u[0] == (k, value_of(s, k)->0));
    }
}

/// Where no two entries share a key, an entry has the value of its key.
proof fn lemma_value_is_only<K, V>(s: Seq<(K, V)>, x: (K, V))
    requires
        keys_distinct(s),
        s.contains(x),
    ensures
        value_of(s, x.0) == Some(x.1),
{
    let i = s.index_of(x);
    assert(s[i] == x);
    lemma_value_of(s, x.0);
    assert(has_key(s, x.0));
    let y = (x.0, value_of(s, x.0)->0);
    let j = s.index_of(y);
    assert(s[j] == y);
    if i < j {
        assert(s[i].0 != s[j].0);
    } else if j < i {
        assert(s[j].0 != s[i].0);
    }
}

} // verus!
