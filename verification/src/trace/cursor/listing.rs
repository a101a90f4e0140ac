//! What it means to write a source out in full: every `(key, value)` pair
//! once, in ascending order, each with a copy of its updates.

use crate::order::{
    above, at_most, from, is_min, lemma_asymmetric, lemma_precedes_then_at_most, TotalOrder,
};
use crate::trace::cursor::model::{
    finite, rewound_keys, stepped_key, stepped_val, times_of, vals_of, within, Contents,
    Position,
};
use vstd::prelude::*;
use vstd::set_lib::{lemma_len_subset, lemma_set_subset_finite};

verus! {

/// The pair `a` comes before the pair `b`: by key, then by value.
pub open spec fn pair_precedes<KO: TotalOrder + ?Sized, VO: TotalOrder + ?Sized>(
    a: (KO::V, VO::V),
    b: (KO::V, VO::V),
) -> bool {
    KO::precedes(a.0, b.0) || (a.0 == b.0 && VO::precedes(a.1, b.1))
}

/// `c` holds the pair `a`.
pub open spec fn holds<KV, VV, T, R>(c: Contents<KV, VV, T, R>, a: (KV, VV)) -> bool {
    vals_of(c, a.0).dom().contains(a.1)
}

/// `pairs` is ascending.
pub open spec fn ascending<KO: TotalOrder + ?Sized, VO: TotalOrder + ?Sized>(
    pairs: Seq<(KO::V, VO::V)>,
) -> bool {
    forall|i: int, j: int|
        0 <= i < j < pairs.len() ==> pair_precedes::<KO, VO>(#[trigger] pairs[i], #[trigger] pairs[j])
}

/// `pairs` holds the `(key, value)` pairs of `c`, all of them, ascending.
pub open spec fn is_listing<KO: TotalOrder + ?Sized, VO: TotalOrder + ?Sized, T, R>(
    c: Contents<KO::V, VO::V, T, R>,
    pairs: Seq<(KO::V, VO::V)>,
) -> bool {
    &&& ascending::<KO, VO>(pairs)
    &&& forall|i: int| 0 <= i < pairs.len() ==> holds(c, #[trigger] pairs[i])
    &&& forall|a: (KO::V, VO::V)| #[trigger] holds(c, a) ==> pairs.contains(a)
}

/// A source has one listing only.
pub proof fn lemma_listing_unique<KO: TotalOrder + ?Sized, VO: TotalOrder + ?Sized, T, R>(
    c: Contents<KO::V, VO::V, T, R>,
    a: Seq<(KO::V, VO::V)>,
    b: Seq<(KO::V, VO::V)>,
)
    requires
        is_listing::<KO, VO, T, R>(c, a),
        is_listing::<KO, VO, T, R>(c, b),
    ensures
        a == b,
    decreases a.len(),
{
    if a.len() == 0 {
        if b.len() > 0 {
            assert(holds(c, b[0]));
            assert(a.contains(b[0]));
        }
        assert(a =~= b);
    } else {
        let x = a.last();
        assert(holds(c, x));
        assert(b.contains(x));
        let j = choose|j: int| 0 <= j < b.len() && b[j] == x;
        if j < b.len() - 1 {
            let y = b.last();
            assert(pair_precedes::<KO, VO>(b[j], y));
            assert(holds(c, y));
            assert(a.contains(y));
            let i = choose|i: int| 0 <= i < a.len() && a[i] == y;
            lemma_pair_irreflexive::<KO, VO>(x);
            if i < a.len() - 1 {
                assert(pair_precedes::<KO, VO>(a[i], x));
                lemma_pair_asymmetric::<KO, VO>(x, y);
            }
        }
        let c2 = without(c, x);
        let a2 = a.drop_last();
        let b2 = b.drop_last();
        assert(is_listing::<KO, VO, T, R>(c2, a2)) by {
            lemma_pair_irreflexive::<KO, VO>(x);
            assert forall|p: (KO::V, VO::V)| #[trigger] holds(c2, p) implies a2.contains(p) by {
                assert(holds(c, p));
                assert(a.contains(p));
                let i = choose|i: int| 0 <= i < a.len() && a[i] == p;
                assert(a2[i] == p);
            }
            assert forall|i: int| 0 <= i < a2.len() implies holds(c2, #[trigger] a2[i]) by {
                assert(holds(c, a[i]));
                assert(pair_precedes::<KO, VO>(a[i], x));
            }
        }
        assert(is_listing::<KO, VO, T, R>(c2, b2)) by {
            lemma_pair_irreflexive::<KO, VO>(x);
            assert forall|p: (KO::V, VO::V)| #[trigger] holds(c2, p) implies b2.contains(p) by {
                assert(holds(c, p));
                assert(b.contains(p));
                let i = choose|i: int| 0 <= i < b.len() && b[i] == p;
                assert(b2[i] == p);
            }
            assert forall|i: int| 0 <= i < b2.len() implies holds(c2, #[trigger] b2[i]) by {
                assert(holds(c, b[i]));
                assert(pair_precedes::<KO, VO>(b[i], x));
            }
        }
        lemma_listing_unique::<KO, VO, T, R>(c2, a2, b2);
        assert(a =~= a2.push(x));
        assert(b =~= b2.push(x));
    }
}

/// `c` without the pair `a`.
pub open spec fn without<KV, VV, T, R>(c: Contents<KV, VV, T, R>, a: (KV, VV)) -> Contents<
    KV,
    VV,
    T,
    R,
> {
    c.insert(a.0, vals_of(c, a.0).remove(a.1))
}

pub proof fn lemma_pair_irreflexive<KO: TotalOrder + ?Sized, VO: TotalOrder + ?Sized>(
    a: (KO::V, VO::V),
)
    ensures
        !pair_precedes::<KO, VO>(a, a),
{
    KO::lemma_irreflexive(a.0);
    VO::lemma_irreflexive(a.1);
}

pub proof fn lemma_pair_asymmetric<KO: TotalOrder + ?Sized, VO: TotalOrder + ?Sized>(
    a: (KO::V, VO::V),
    b: (KO::V, VO::V),
)
    requires
        pair_precedes::<KO, VO>(a, b),
    ensures
        !pair_precedes::<KO, VO>(b, a),
{
    KO::lemma_irreflexive(a.0);
    if KO::precedes(a.0, b.0) {
        lemma_asymmetric::<KO>(a.0, b.0);
    } else {
        lemma_asymmetric::<VO>(a.1, b.1);
    }
}

/// The pair `a` comes before the place where `p` stands. Past the last
/// value of a key means after all its values, and past the last key means
/// after everything.
pub open spec fn before<KO: TotalOrder + ?Sized, VO: TotalOrder + ?Sized>(
    a: (KO::V, VO::V),
    p: Position<KO::V, VO::V>,
) -> bool {
    match p.key {
        Some(k) => KO::precedes(a.0, k) || (a.0 == k && match p.val {
            Some(v) => VO::precedes(a.1, v),
            None => true,
        }),
        None => true,
    }
}

/// `pairs` holds the pairs of `c` that come before `p`, all of them,
/// ascending.
pub open spec fn lists_before<KO: TotalOrder + ?Sized, VO: TotalOrder + ?Sized, T, R>(
    c: Contents<KO::V, VO::V, T, R>,
    pairs: Seq<(KO::V, VO::V)>,
    p: Position<KO::V, VO::V>,
) -> bool {
    &&& ascending::<KO, VO>(pairs)
    &&& forall|i: int|
        0 <= i < pairs.len() ==> holds(c, #[trigger] pairs[i]) && before::<KO, VO>(pairs[i], p)
    &&& forall|a: (KO::V, VO::V)|
        #[trigger] holds(c, a) && before::<KO, VO>(a, p) ==> pairs.contains(a)
}

/// Nothing comes before a cursor that was just rewound.
pub proof fn lemma_lists_before_start<KO: TotalOrder + ?Sized, VO: TotalOrder + ?Sized, T, R>(
    c: Contents<KO::V, VO::V, T, R>,
    p: Position<KO::V, VO::V>,
)
    requires
        rewound_keys::<KO, VO, T, R>(c, p),
    ensures
        lists_before::<KO, VO, T, R>(c, Seq::empty(), p),
{
    assert forall|a: (KO::V, VO::V)| #[trigger] holds(c, a) && before::<KO, VO>(a, p) implies Seq::<
        (KO::V, VO::V),
    >::empty().contains(a) by {
        assert(c.dom().contains(a.0));
    }
}

/// Writing out the pair under the cursor and stepping to the next value
/// keeps the list complete up to the cursor.
pub proof fn lemma_lists_before_step_val<KO: TotalOrder + ?Sized, VO: TotalOrder + ?Sized, T, R>(
    c: Contents<KO::V, VO::V, T, R>,
    pairs: Seq<(KO::V, VO::V)>,
    p: Position<KO::V, VO::V>,
    q: Position<KO::V, VO::V>,
)
    requires
        within(c, p),
        p.key is Some,
        p.val is Some,
        lists_before::<KO, VO, T, R>(c, pairs, p),
        stepped_val::<KO, VO, T, R>(c, p, q),
    ensures
        lists_before::<KO, VO, T, R>(c, pairs.push((p.key->0, p.val->0)), q),
{
    let k = p.key->0;
    let v = p.val->0;
    let next = pairs.push((k, v));
    let rest = above::<VO>(vals_of(c, k).dom(), v);
    assert(before::<KO, VO>((k, v), q)) by {
        if let Some(w) = q.val {
            assert(rest.contains(w));
        }
    }
    assert forall|i: int| 0 <= i < next.len() implies holds(c, #[trigger] next[i]) && before::<
        KO,
        VO,
    >(next[i], q) by {
        if i < pairs.len() {
            assert(next[i] == pairs[i]);
            assert(before::<KO, VO>(pairs[i], p));
            if !KO::precedes(pairs[i].0, k) {
                if let Some(w) = q.val {
                    assert(rest.contains(w));
                    VO::lemma_transitive(pairs[i].1, v, w);
                }
            }
        }
    }
    assert forall|i: int, j: int| 0 <= i < j < next.len() implies pair_precedes::<KO, VO>(
        #[trigger] next[i],
        #[trigger] next[j],
    ) by {
        assert(next[i] == pairs[i]);
        if j < pairs.len() {
            assert(next[j] == pairs[j]);
        } else {
            assert(before::<KO, VO>(pairs[i], p));
        }
    }
    assert forall|a: (KO::V, VO::V)| #[trigger] holds(c, a) && before::<KO, VO>(
        a,
        q,
    ) implies next.contains(a) by {
        if before::<KO, VO>(a, p) {
            assert(pairs.contains(a));
            let i = choose|i: int| 0 <= i < pairs.len() && pairs[i] == a;
            assert(next[i] == a);
        } else {
            VO::lemma_connected(a.1, v);
            if a.1 == v {
                assert(next[pairs.len() as int] == a);
            } else {
                assert(rest.contains(a.1));
            }
        }
    }
}

/// With all the values of the current key written out, stepping to the
/// next key keeps the list complete up to the cursor.
pub proof fn lemma_lists_before_step_key<KO: TotalOrder + ?Sized, VO: TotalOrder + ?Sized, T, R>(
    c: Contents<KO::V, VO::V, T, R>,
    pairs: Seq<(KO::V, VO::V)>,
    p: Position<KO::V, VO::V>,
    q: Position<KO::V, VO::V>,
)
    requires
        p.key is Some,
        p.val is None,
        lists_before::<KO, VO, T, R>(c, pairs, p),
        stepped_key::<KO, VO, T, R>(c, p, q),
    ensures
        lists_before::<KO, VO, T, R>(c, pairs, q),
{
    let k = p.key->0;
    let rest = above::<KO>(c.dom(), k);
    assert forall|i: int| 0 <= i < pairs.len() implies holds(c, #[trigger] pairs[i]) && before::<
        KO,
        VO,
    >(pairs[i], q) by {
        assert(before::<KO, VO>(pairs[i], p));
        if let Some(n) = q.key {
            assert(rest.contains(n));
            if pairs[i].0 != k {
                KO::lemma_transitive(pairs[i].0, k, n);
            }
        }
    }
    assert forall|a: (KO::V, VO::V)| #[trigger] holds(c, a) && before::<KO, VO>(
        a,
        q,
    ) implies pairs.contains(a) by {
        assert(c.dom().contains(a.0));
        KO::lemma_connected(a.0, k);
        if KO::precedes(k, a.0) {
            assert(rest.contains(a.0));
            let n = q.key->0;
            assert(at_most::<KO>(n, a.0));
            assert(a.0 == n);
            assert(vals_of(c, n).dom().contains(a.1));
        }
        assert(before::<KO, VO>(a, p));
    }
}

/// Once the cursor is past the last key, the list is complete.
pub proof fn lemma_lists_before_end<KO: TotalOrder + ?Sized, VO: TotalOrder + ?Sized, T, R>(
    c: Contents<KO::V, VO::V, T, R>,
    pairs: Seq<(KO::V, VO::V)>,
    p: Position<KO::V, VO::V>,
)
    requires
        p.key is None,
        lists_before::<KO, VO, T, R>(c, pairs, p),
    ensures
        is_listing::<KO, VO, T, R>(c, pairs),
{
    assert forall|a: (KO::V, VO::V)| #[trigger] holds(c, a) implies pairs.contains(a) by {
        assert(before::<KO, VO>(a, p));
    }
}

/// How many elements of `s` are still to come for a cursor at `at`.
pub open spec fn remaining<O: TotalOrder + ?Sized>(s: Set<O::V>, at: Option<O::V>) -> nat {
    match at {
        Some(x) => from::<O>(s, x).len(),
        None => 0,
    }
}

/// A step to the next element leaves fewer to come.
pub proof fn lemma_remaining_decreases<O: TotalOrder + ?Sized>(
    s: Set<O::V>,
    x: O::V,
    next: Option<O::V>,
)
    requires
        s.finite(),
        s.contains(x),
        is_min::<O>(above::<O>(s, x), next),
    ensures
        remaining::<O>(s, next) < remaining::<O>(s, Some(x)),
{
    let here = from::<O>(s, x);
    lemma_set_subset_finite(s, here);
    O::lemma_irreflexive(x);
    assert(here.contains(x));
    if let Some(y) = next {
        let there = from::<O>(s, y);
        assert(above::<O>(s, x).contains(y));
        assert forall|z: O::V| there.contains(z) implies #[trigger] here.remove(x).contains(z) by {
            lemma_precedes_then_at_most::<O>(x, y, z);
            lemma_asymmetric::<O>(x, z);
        }
        lemma_len_subset(there, here.remove(x));
    }
}

/// `out` is a copy of `times`: as long, and update for update a clone.
pub open spec fn copies_times<T: Clone, R: Clone>(times: Seq<(T, R)>, out: Seq<(T, R)>) -> bool {
    &&& out.len() == times.len()
    &&& forall|i: int|
        0 <= i < times.len() ==> cloned(times[i].0, (#[trigger] out[i]).0) && cloned(
            times[i].1,
            out[i].1,
        )
}

/// `val` is a clone of a value whose view is `view`.
pub open spec fn copies_val<V: Clone + View>(view: V::V, val: V) -> bool {
    exists|source: V| source@ == view && #[trigger] cloned(source, val)
}

/// `entry` is a copy of the group of `c` at the pair `at`: the key in its
/// owned form, a clone of the value, and a copy of the updates.
pub open spec fn copies_group<K: View, V: Clone + View, T: Clone, R: Clone>(
    c: Contents<K::V, V::V, T, R>,
    at: (K::V, V::V),
    entry: ((K, V), Vec<(T, R)>),
) -> bool {
    &&& entry.0.0@ == at.0
    &&& copies_val::<V>(at.1, entry.0.1)
    &&& copies_times(times_of(c, at.0, at.1), entry.1@)
}

/// `out` holds a copy of the group at each of `pairs`, in the same order.
pub open spec fn copies_groups<K: View, V: Clone + View, T: Clone, R: Clone>(
    c: Contents<K::V, V::V, T, R>,
    pairs: Seq<(K::V, V::V)>,
    out: Seq<((K, V), Vec<(T, R)>)>,
) -> bool {
    &&& out.len() == pairs.len()
    &&& forall|i: int|
        0 <= i < pairs.len() ==> copies_group::<K, V, T, R>(c, pairs[i], #[trigger] out[i])
}

} // verus!
