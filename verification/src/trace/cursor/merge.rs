//! The model of merging: what several sorted sources hold together, where
//! a cursor over all of them stands, and why moving the cursors of the
//! sources moves the merged cursor as the protocol asks.

use crate::order::{
    above, at_most, from, is_min, lemma_asymmetric, lemma_at_most_transitive,
    lemma_precedes_then_at_most, TotalOrder,
};
use crate::trace::cursor::listing::{ascending, holds, is_listing};
use crate::trace::cursor::model::{
    accepts, current_times, finite, fresh, rewound_keys, rewound_vals, sought_key, sought_val,
    stepped_key, stepped_val, times_of, vals_of, within, yields, Contents, Position,
};
use vstd::prelude::*;

verus! {

/// What two sources hold together: the keys of both, under each key the
/// values of both, and for each pair the updates of the first source
/// followed by those of the second. Updates are not combined.
pub open spec fn merged_pair<KV, VV, T, R>(
    a: Contents<KV, VV, T, R>,
    b: Contents<KV, VV, T, R>,
) -> Contents<KV, VV, T, R> {
    Map::new(
        |k: KV| a.dom().contains(k) || b.dom().contains(k),
        |k: KV|
            Map::new(
                |v: VV| vals_of(a, k).dom().contains(v) || vals_of(b, k).dom().contains(v),
                |v: VV| times_of(a, k, v) + times_of(b, k, v),
            ),
    )
}

/// What the sources `cs` hold together, merged one after the other.
pub open spec fn merged_list<KV, VV, T, R>(cs: Seq<Contents<KV, VV, T, R>>) -> Contents<
    KV,
    VV,
    T,
    R,
>
    decreases cs.len(),
{
    if cs.len() == 0 {
        Map::empty()
    } else {
        merged_pair(merged_list(cs.drop_last()), cs.last())
    }
}

/// The updates of `(k, v)` in each of `cs`, one source after the other.
pub open spec fn list_times<KV, VV, T, R>(cs: Seq<Contents<KV, VV, T, R>>, k: KV, v: VV) -> Seq<
    (T, R),
>
    decreases cs.len(),
{
    if cs.len() == 0 {
        Seq::empty()
    } else {
        list_times(cs.drop_last(), k, v) + times_of(cs.last(), k, v)
    }
}

/// The source at `i` has the key `k`.
pub open spec fn has_key<KV, VV, T, R>(cs: Seq<Contents<KV, VV, T, R>>, i: int, k: KV) -> bool {
    0 <= i < cs.len() && cs[i].dom().contains(k)
}

/// The source at `i` has the value `v` under the key `k`.
pub open spec fn has_val<KV, VV, T, R>(
    cs: Seq<Contents<KV, VV, T, R>>,
    i: int,
    k: KV,
    v: VV,
) -> bool {
    0 <= i < cs.len() && vals_of(cs[i], k).dom().contains(v)
}

/// `m` has the keys of the sources `cs` and, under each, their values.
pub open spec fn joins<KV, VV, T, R>(
    m: Contents<KV, VV, T, R>,
    cs: Seq<Contents<KV, VV, T, R>>,
) -> bool {
    &&& forall|k: KV| #[trigger] m.dom().contains(k) <==> exists|i: int| has_key(cs, i, k)
    &&& forall|k: KV, v: VV| #[trigger]
        vals_of(m, k).dom().contains(v) <==> exists|i: int| has_val(cs, i, k, v)
}

/// The merge of two sources, pair by pair.
pub proof fn lemma_merged_pair<KV, VV, T, R>(
    a: Contents<KV, VV, T, R>,
    b: Contents<KV, VV, T, R>,
    k: KV,
    v: VV,
)
    ensures
        merged_pair(a, b).dom().contains(k) <==> a.dom().contains(k) || b.dom().contains(k),
        vals_of(merged_pair(a, b), k).dom().contains(v) <==> vals_of(a, k).dom().contains(v)
            || vals_of(b, k).dom().contains(v),
        times_of(merged_pair(a, b), k, v) == times_of(a, k, v) + times_of(b, k, v),
{
    if !vals_of(merged_pair(a, b), k).dom().contains(v) {
        assert(times_of(a, k, v) + times_of(b, k, v) =~= Seq::<(T, R)>::empty());
    }
}

pub proof fn lemma_merged_pair_joins<KV, VV, T, R>(
    a: Contents<KV, VV, T, R>,
    b: Contents<KV, VV, T, R>,
)
    ensures
        joins(merged_pair(a, b), seq![a, b]),
{
    let m = merged_pair(a, b);
    let cs = seq![a, b];
    assert forall|k: KV| #[trigger] m.dom().contains(k) <==> exists|i: int|
        has_key(cs, i, k) by {
        if a.dom().contains(k) {
            assert(has_key(cs, 0, k));
        }
        if b.dom().contains(k) {
            assert(has_key(cs, 1, k));
        }
    }
    assert forall|k: KV, v: VV| #[trigger]
        vals_of(m, k).dom().contains(v) <==> exists|i: int| has_val(cs, i, k, v) by {
        lemma_merged_pair(a, b, k, v);
        if vals_of(a, k).dom().contains(v) {
            assert(has_val(cs, 0, k, v));
        }
        if vals_of(b, k).dom().contains(v) {
            assert(has_val(cs, 1, k, v));
        }
    }
}

pub proof fn lemma_merged_pair_finite<KV, VV, T, R>(
    a: Contents<KV, VV, T, R>,
    b: Contents<KV, VV, T, R>,
)
    requires
        finite(a),
        finite(b),
    ensures
        finite(merged_pair(a, b)),
{
    let m = merged_pair(a, b);
    assert(m.dom() =~= a.dom().union(b.dom()));
    assert forall|k: KV| #[trigger] vals_of(m, k).dom().finite() by {
        assert(vals_of(a, k).dom().finite());
        assert(vals_of(b, k).dom().finite());
        assert(vals_of(m, k).dom() =~= vals_of(a, k).dom().union(vals_of(b, k).dom())) by {
            assert forall|v: VV|
                vals_of(m, k).dom().contains(v) <==> vals_of(a, k).dom().union(
                    vals_of(b, k).dom(),
                ).contains(v) by {
                lemma_merged_pair(a, b, k, v);
            }
        }
    }
}

/// The merge of a list of sources, pair by pair.
pub proof fn lemma_merged_list<KV, VV, T, R>(cs: Seq<Contents<KV, VV, T, R>>, k: KV, v: VV)
    ensures
        merged_list(cs).dom().contains(k) <==> exists|i: int| has_key(cs, i, k),
        vals_of(merged_list(cs), k).dom().contains(v) <==> exists|i: int| has_val(cs, i, k, v),
        times_of(merged_list(cs), k, v) == list_times(cs, k, v),
    decreases cs.len(),
{
    if cs.len() == 0 {
    } else {
        let init = cs.drop_last();
        lemma_merged_list(init, k, v);
        lemma_merged_pair(merged_list(init), cs.last(), k, v);
        if exists|i: int| has_key(init, i, k) {
            let i = choose|i: int| has_key(init, i, k);
            assert(has_key(cs, i, k));
        }
        if cs.last().dom().contains(k) {
            assert(has_key(cs, cs.len() - 1, k));
        }
        if exists|i: int| has_key(cs, i, k) {
            let i = choose|i: int| has_key(cs, i, k);
            if i < cs.len() - 1 {
                assert(has_key(init, i, k));
            }
        }
        if exists|i: int| has_val(init, i, k, v) {
            let i = choose|i: int| has_val(init, i, k, v);
            assert(has_val(cs, i, k, v));
        }
        if vals_of(cs.last(), k).dom().contains(v) {
            assert(has_val(cs, cs.len() - 1, k, v));
        }
        if exists|i: int| has_val(cs, i, k, v) {
            let i = choose|i: int| has_val(cs, i, k, v);
            if i < cs.len() - 1 {
                assert(has_val(init, i, k, v));
            }
        }
    }
}

pub proof fn lemma_merged_list_joins<KV, VV, T, R>(cs: Seq<Contents<KV, VV, T, R>>)
    ensures
        joins(merged_list(cs), cs),
{
    let m = merged_list(cs);
    assert forall|k: KV| #[trigger] m.dom().contains(k) <==> exists|i: int|
        has_key(cs, i, k) by {
        let v: VV = arbitrary();
        lemma_merged_list(cs, k, v);
    }
    assert forall|k: KV, v: VV| #[trigger]
        vals_of(m, k).dom().contains(v) <==> exists|i: int| has_val(cs, i, k, v) by {
        lemma_merged_list(cs, k, v);
    }
}

pub proof fn lemma_merged_list_finite<KV, VV, T, R>(cs: Seq<Contents<KV, VV, T, R>>)
    requires
        forall|i: int| 0 <= i < cs.len() ==> finite(#[trigger] cs[i]),
    ensures
        finite(merged_list(cs)),
    decreases cs.len(),
{
    if cs.len() == 0 {
        assert(merged_list(cs).dom() =~= Set::<KV>::empty());
    } else {
        let init = cs.drop_last();
        assert forall|i: int| 0 <= i < init.len() implies finite(#[trigger] init[i]) by {
            assert(init[i] == cs[i]);
        }
        lemma_merged_list_finite(init);
        lemma_merged_pair_finite(merged_list(init), cs.last());
    }
}

/// The merge of no source holds nothing, and a cursor over it stands past
/// the end.
pub proof fn lemma_no_source<KO: TotalOrder + ?Sized, VO: TotalOrder + ?Sized, T, R>()
    ensures
        merged_list(Seq::<Contents<KO::V, VO::V, T, R>>::empty()) == Map::<
            KO::V,
            Map<VO::V, Seq<(T, R)>>,
        >::empty(),
        merged_position::<KO, VO>(Seq::empty()) == (Position::<KO::V, VO::V> {
            key: None,
            val: None,
        }),
{
    assert(keys_at(Seq::<Position<KO::V, VO::V>>::empty()) =~= Seq::<Option<KO::V>>::empty());
}

/// The merge of one source holds what the source holds, and a cursor over
/// it stands where the cursor of the source stands.
pub proof fn lemma_single_source<KO: TotalOrder + ?Sized, VO: TotalOrder + ?Sized, T, R>(
    c: Contents<KO::V, VO::V, T, R>,
    p: Position<KO::V, VO::V>,
)
    requires
        within(c, p),
    ensures
        merged_list(seq![c]) == c,
        merged_position::<KO, VO>(seq![p]) == p,
{
    let m = merged_list(seq![c]);
    reveal_with_fuel(merged_list, 2);
    assert(seq![c].drop_last() =~= Seq::<Contents<KO::V, VO::V, T, R>>::empty());
    assert forall|k: KO::V| #[trigger] m.dom().contains(k) implies m[k] == c[k] by {
        assert forall|v: VO::V| #[trigger] m[k].dom().contains(v) implies m[k][v] == c[k][v] by {
            lemma_merged_list(seq![c], k, v);
            assert(times_of(c, k, v) == c[k][v]);
            assert(Seq::<(T, R)>::empty() + times_of(c, k, v) =~= times_of(c, k, v));
        }
        assert(m[k].dom() =~= c[k].dom());
        assert(m[k] =~= c[k]);
    }
    assert(m.dom() =~= c.dom());
    assert(m =~= c);
    let ps = seq![p];
    reveal_with_fuel(least, 2);
    assert(keys_at(ps) =~= seq![p.key]);
    assert(seq![p.key].drop_last() =~= Seq::<Option<KO::V>>::empty());
    assert(vals_under(ps, p.key) =~= seq![p.val]);
    assert(seq![p.val].drop_last() =~= Seq::<Option<VO::V>>::empty());
}

/// Merging a source with itself holds the same pairs, each with its
/// updates twice over.
pub proof fn lemma_merged_with_itself<KV, VV, T, R>(a: Contents<KV, VV, T, R>, k: KV, v: VV)
    ensures
        merged_pair(a, a).dom().contains(k) <==> a.dom().contains(k),
        vals_of(merged_pair(a, a), k).dom().contains(v) <==> vals_of(a, k).dom().contains(v),
        times_of(merged_pair(a, a), k, v) == times_of(a, k, v) + times_of(a, k, v),
{
    lemma_merged_pair(a, a, k, v);
}

/// Writing out the merge of the sources `cs` gives what writing out each
/// of them gives, taken together: the list is ascending, it holds a pair
/// where and only where the list of some source holds it, and with each
/// pair go the updates of the sources, one source after the other.
pub proof fn lemma_merged_listing<KO: TotalOrder + ?Sized, VO: TotalOrder + ?Sized, T, R>(
    cs: Seq<Contents<KO::V, VO::V, T, R>>,
    each: Seq<Seq<(KO::V, VO::V)>>,
    all: Seq<(KO::V, VO::V)>,
)
    requires
        each.len() == cs.len(),
        forall|i: int| 0 <= i < cs.len() ==> is_listing::<KO, VO, T, R>(cs[i], #[trigger] each[i]),
        is_listing::<KO, VO, T, R>(merged_list(cs), all),
    ensures
        ascending::<KO, VO>(all),
        forall|a: (KO::V, VO::V)|
            all.contains(a) <==> exists|i: int| 0 <= i < cs.len() && (#[trigger] each[i]).contains(a),
        forall|k: KO::V, v: VO::V| #[trigger]
            times_of(merged_list(cs), k, v) == list_times(cs, k, v),
{
    let m = merged_list(cs);
    assert forall|a: (KO::V, VO::V)|
        all.contains(a) <==> exists|i: int| 0 <= i < cs.len() && (#[trigger] each[i]).contains(
            a,
        ) by {
        lemma_merged_list(cs, a.0, a.1);
        if all.contains(a) {
            let n = choose|n: int| 0 <= n < all.len() && all[n] == a;
            assert(holds(m, all[n]));
            let i = choose|i: int| has_val(cs, i, a.0, a.1);
            assert(holds(cs[i], a));
            assert(each[i].contains(a));
        }
        if exists|i: int| 0 <= i < cs.len() && (#[trigger] each[i]).contains(a) {
            let i = choose|i: int| 0 <= i < cs.len() && (#[trigger] each[i]).contains(a);
            let n = choose|n: int| 0 <= n < each[i].len() && each[i][n] == a;
            assert(holds(cs[i], each[i][n]));
            assert(has_val(cs, i, a.0, a.1));
            assert(holds(m, a));
        }
    }
    assert forall|k: KO::V, v: VO::V| #[trigger]
        times_of(merged_list(cs), k, v) == list_times(cs, k, v) by {
        lemma_merged_list(cs, k, v);
    }
}

/// The lesser of two places, where `None` is past the end.
pub open spec fn min_opt<O: TotalOrder + ?Sized>(a: Option<O::V>, b: Option<O::V>) -> Option<
    O::V,
> {
    match (a, b) {
        (None, _) => b,
        (_, None) => a,
        (Some(x), Some(y)) => if O::precedes(y, x) {
            b
        } else {
            a
        },
    }
}

/// The least of the places `xs`, where `None` is past the end.
pub open spec fn least<O: TotalOrder + ?Sized>(xs: Seq<Option<O::V>>) -> Option<O::V>
    decreases xs.len(),
{
    if xs.len() == 0 {
        None
    } else {
        min_opt::<O>(least::<O>(xs.drop_last()), xs.last())
    }
}

/// `m` is among `xs` and none of `xs` comes before it; or all are `None`.
pub open spec fn is_least<O: TotalOrder + ?Sized>(xs: Seq<Option<O::V>>, m: Option<O::V>) -> bool {
    match m {
        Some(x) => (exists|i: int| 0 <= i < xs.len() && #[trigger] xs[i] == Some(x)) && forall|
            j: int,
        |
            0 <= j < xs.len() && (#[trigger] xs[j]) is Some ==> at_most::<O>(x, xs[j]->0),
        None => forall|j: int| 0 <= j < xs.len() ==> (#[trigger] xs[j]) is None,
    }
}

pub proof fn lemma_least<O: TotalOrder + ?Sized>(xs: Seq<Option<O::V>>)
    ensures
        is_least::<O>(xs, least::<O>(xs)),
    decreases xs.len(),
{
    if xs.len() > 0 {
        let init = xs.drop_last();
        let n = xs.len() - 1;
        lemma_least::<O>(init);
        let a = least::<O>(init);
        let b = xs.last();
        let m = least::<O>(xs);
        assert forall|j: int| 0 <= j < n implies init[j] == xs[j] by {}
        match m {
            Some(x) => {
                if m == b && b is Some {
                    assert(xs[n] == Some(x));
                } else {
                    let i = choose|i: int| 0 <= i < init.len() && #[trigger] init[i] == Some(x);
                    assert(xs[i] == Some(x));
                }
                assert forall|j: int| 0 <= j < xs.len() && (#[trigger] xs[j]) is Some implies at_most::<
                    O,
                >(x, xs[j]->0) by {
                    O::lemma_irreflexive(x);
                    if j < n {
                        assert(init[j] is Some);
                        let p = a->0;
                        if a != m {
                            lemma_precedes_then_at_most::<O>(x, p, xs[j]->0);
                            lemma_asymmetric::<O>(x, xs[j]->0);
                        }
                    }
                }
            },
            None => {
                assert forall|j: int| 0 <= j < xs.len() implies (#[trigger] xs[j]) is None by {
                    if j < n {
                        assert(init[j] is None);
                    }
                }
            },
        }
    }
}

/// Places that are `None` do not change the least.
pub proof fn lemma_least_skip<O: TotalOrder + ?Sized>(xs: Seq<Option<O::V>>, a: int, b: int)
    requires
        0 <= a <= b <= xs.len(),
        forall|i: int| a <= i < b ==> (#[trigger] xs[i]) is None,
    ensures
        least::<O>(xs.take(b)) == least::<O>(xs.take(a)),
    decreases b - a,
{
    if a < b {
        lemma_least_skip::<O>(xs, a, b - 1);
        assert(xs.take(b).drop_last() =~= xs.take(b - 1));
        assert(xs.take(b).last() == xs[b - 1]);
    }
}

/// The least of the first `i + 1` places, from that of the first `i`.
pub proof fn lemma_least_next<O: TotalOrder + ?Sized>(xs: Seq<Option<O::V>>, i: int)
    requires
        0 <= i < xs.len(),
    ensures
        least::<O>(xs.take(i + 1)) == min_opt::<O>(least::<O>(xs.take(i)), xs[i]),
{
    assert(xs.take(i + 1).drop_last() =~= xs.take(i));
    assert(xs.take(i + 1).last() == xs[i]);
}

/// `g` holds of `x`.
pub open spec fn passes<A>(g: spec_fn(A) -> bool, x: A) -> bool {
    g(x)
}

/// The elements of `s` of which `g` holds.
pub open spec fn restrict<A>(s: Set<A>, g: spec_fn(A) -> bool) -> Set<A> {
    Set::new(|x: A| s.contains(x) && passes(g, x))
}

/// Where `g` holds of an element, it holds of all that do not come before.
pub open spec fn upward<O: TotalOrder + ?Sized>(g: spec_fn(O::V) -> bool) -> bool {
    forall|x: O::V, y: O::V|
        #![trigger passes(g, x), passes(g, y)]
        passes(g, x) && at_most::<O>(x, y) ==> passes(g, y)
}

/// One level of a merge. Where each `xs[i]` is the least element of the
/// set `ss[i]` of which `g` holds, the least of `xs` is the least such
/// element of the union `u`; each `xs[i]` is the first element of `ss[i]`
/// not before that least; and a set whose first is another lacks it.
pub proof fn lemma_level<O: TotalOrder + ?Sized>(
    ss: Seq<Set<O::V>>,
    u: Set<O::V>,
    xs: Seq<Option<O::V>>,
    g: spec_fn(O::V) -> bool,
)
    requires
        ss.len() == xs.len(),
        forall|y: O::V| u.contains(y) <==> exists|i: int| 0 <= i < ss.len() && (#[trigger] ss[i]).contains(y),
        upward::<O>(g),
        forall|i: int| 0 <= i < xs.len() ==> is_min::<O>(restrict(ss[i], g), #[trigger] xs[i]),
    ensures
        is_min::<O>(restrict(u, g), least::<O>(xs)),
        forall|i: int|
            0 <= i < xs.len() && least::<O>(xs) is Some ==> is_min::<O>(
                from::<O>(ss[i], least::<O>(xs)->0),
                #[trigger] xs[i],
            ),
        forall|i: int|
            0 <= i < xs.len() && least::<O>(xs) is Some && #[trigger] xs[i] != least::<O>(xs)
                ==> !ss[i].contains(least::<O>(xs)->0),
{
    lemma_least::<O>(xs);
    let l = least::<O>(xs);
    match l {
        Some(m) => {
            let i0 = choose|i: int| 0 <= i < xs.len() && #[trigger] xs[i] == Some(m);
            assert(restrict(ss[i0], g).contains(m));
            assert(ss[i0].contains(m));
            assert(passes(g, m));
            assert forall|y: O::V| restrict(u, g).contains(y) implies at_most::<O>(m, y) by {
                let j = choose|j: int| 0 <= j < ss.len() && (#[trigger] ss[j]).contains(y);
                assert(restrict(ss[j], g).contains(y));
                assert(xs[j] is Some);
                lemma_at_most_transitive::<O>(m, xs[j]->0, y);
            }
            assert forall|i: int| 0 <= i < xs.len() implies is_min::<O>(
                from::<O>(ss[i], m),
                #[trigger] xs[i],
            ) by {
                assert(is_min::<O>(restrict(ss[i], g), xs[i]));
                assert forall|y: O::V| from::<O>(ss[i], m).contains(y) implies restrict(
                    ss[i],
                    g,
                ).contains(y) by {
                    assert(passes(g, m) && at_most::<O>(m, y));
                    assert(passes(g, y));
                }
                if let Some(z) = xs[i] {
                    assert(restrict(ss[i], g).contains(z));
                }
            }
            assert forall|i: int|
                0 <= i < xs.len() && #[trigger] xs[i] != l implies !ss[i].contains(m) by {
                if ss[i].contains(m) {
                    assert(restrict(ss[i], g).contains(m));
                    assert(xs[i] is Some);
                    O::lemma_connected(xs[i]->0, m);
                }
            }
        },
        None => {
            assert forall|y: O::V| !restrict(u, g).contains(y) by {
                if restrict(u, g).contains(y) {
                    let j = choose|j: int| 0 <= j < ss.len() && (#[trigger] ss[j]).contains(y);
                    assert(restrict(ss[j], g).contains(y));
                    assert(xs[j] is None);
                }
            }
        },
    }
}

/// A first element not before `t` that is not `t` itself is the first
/// element after `t`, and the set lacks `t`.
pub proof fn lemma_from_to_above<O: TotalOrder + ?Sized>(s: Set<O::V>, t: O::V, x: Option<O::V>)
    requires
        is_min::<O>(from::<O>(s, t), x),
        x != Some(t),
    ensures
        is_min::<O>(above::<O>(s, t), x),
        !s.contains(t),
{
    O::lemma_irreflexive(t);
    if s.contains(t) {
        assert(from::<O>(s, t).contains(t));
        O::lemma_connected(x->0, t);
    }
    assert forall|y: O::V| above::<O>(s, t).contains(y) implies from::<O>(s, t).contains(y) by {
        lemma_asymmetric::<O>(t, y);
    }
    if let Some(z) = x {
        O::lemma_connected(t, z);
    }
}

/// A first element not before `k` that is not before a later `t` either is
/// the first element not before `t`.
pub proof fn lemma_from_later<O: TotalOrder + ?Sized>(
    s: Set<O::V>,
    k: O::V,
    t: O::V,
    x: Option<O::V>,
)
    requires
        is_min::<O>(from::<O>(s, k), x),
        at_most::<O>(k, t),
        x matches Some(z) ==> at_most::<O>(t, z),
    ensures
        is_min::<O>(from::<O>(s, t), x),
{
    assert forall|y: O::V| from::<O>(s, t).contains(y) implies from::<O>(s, k).contains(y) by {
        lemma_at_most_transitive::<O>(k, t, y);
    }
}

/// The keys at which the cursors `ps` stand.
pub open spec fn keys_at<KV, VV>(ps: Seq<Position<KV, VV>>) -> Seq<Option<KV>> {
    Seq::new(ps.len(), |i: int| ps[i].key)
}

/// The values at which those of `ps` stand that stand at `key`.
pub open spec fn vals_under<KV, VV>(ps: Seq<Position<KV, VV>>, key: Option<KV>) -> Seq<
    Option<VV>,
> {
    Seq::new(
        ps.len(),
        |i: int|
            if ps[i].key == key {
                ps[i].val
            } else {
                None
            },
    )
}

/// Where a cursor over the merge stands, given where the cursors of the
/// sources stand: at the least of their keys, and at the least value of
/// those that stand at that key.
pub open spec fn merged_position<KO: TotalOrder + ?Sized, VO: TotalOrder + ?Sized>(
    ps: Seq<Position<KO::V, VO::V>>,
) -> Position<KO::V, VO::V> {
    let key = least::<KO>(keys_at(ps));
    Position {
        key,
        val: if key is Some {
            least::<VO>(vals_under(ps, key))
        } else {
            None
        },
    }
}

/// The cursor at `p` over the source `c` keeps step with a merged cursor
/// at `at`: it stands at its first key not before the merged key; where
/// that is the merged key itself, at its first value not before the
/// merged value; and elsewhere at the first value of its key.
pub open spec fn aligned_at<KO: TotalOrder + ?Sized, VO: TotalOrder + ?Sized, T, R>(
    c: Contents<KO::V, VO::V, T, R>,
    p: Position<KO::V, VO::V>,
    at: Position<KO::V, VO::V>,
) -> bool {
    &&& within(c, p)
    &&& at.key is Some ==> is_min::<KO>(from::<KO>(c.dom(), at.key->0), p.key)
    &&& p.key != at.key ==> fresh::<KO, VO, T, R>(c, p)
    &&& p.key == at.key && at.key is Some && at.val is Some ==> is_min::<VO>(
        from::<VO>(vals_of(c, at.key->0).dom(), at.val->0),
        p.val,
    )
}

/// The cursors at `ps` over the sources `cs` keep step with the merged
/// cursor.
pub open spec fn aligned<KO: TotalOrder + ?Sized, VO: TotalOrder + ?Sized, T, R>(
    cs: Seq<Contents<KO::V, VO::V, T, R>>,
    ps: Seq<Position<KO::V, VO::V>>,
) -> bool {
    &&& ps.len() == cs.len()
    &&& forall|i: int|
        0 <= i < ps.len() ==> aligned_at::<KO, VO, T, R>(
            cs[i],
            #[trigger] ps[i],
            merged_position::<KO, VO>(ps),
        )
}

/// The sources that lack the merged key do not stand at it, and those
/// that stand elsewhere lack it.
pub proof fn lemma_elsewhere<KO: TotalOrder + ?Sized, VO: TotalOrder + ?Sized, T, R>(
    cs: Seq<Contents<KO::V, VO::V, T, R>>,
    ps: Seq<Position<KO::V, VO::V>>,
    i: int,
)
    requires
        aligned::<KO, VO, T, R>(cs, ps),
        0 <= i < ps.len(),
        merged_position::<KO, VO>(ps).key is Some,
    ensures
        ps[i].key != merged_position::<KO, VO>(ps).key ==> vals_of(
            cs[i],
            merged_position::<KO, VO>(ps).key->0,
        ).dom() == Set::<VO::V>::empty(),
        ps[i].key == merged_position::<KO, VO>(ps).key && merged_position::<KO, VO>(ps).val is Some
            && ps[i].val != merged_position::<KO, VO>(ps).val ==> !vals_of(
            cs[i],
            merged_position::<KO, VO>(ps).key->0,
        ).dom().contains(merged_position::<KO, VO>(ps).val->0),
{
    let at = merged_position::<KO, VO>(ps);
    let k = at.key->0;
    assert(aligned_at::<KO, VO, T, R>(cs[i], ps[i], at));
    if ps[i].key != at.key {
        lemma_from_to_above::<KO>(cs[i].dom(), k, ps[i].key);
        assert(vals_of(cs[i], k).dom() =~= Set::<VO::V>::empty());
    } else if at.val is Some && ps[i].val != at.val {
        lemma_from_to_above::<VO>(vals_of(cs[i], k).dom(), at.val->0, ps[i].val);
    }
}

/// The updates that the source at `i` adds under the merged cursor: its
/// own current ones where it stands at the merged key and value, and
/// none elsewhere.
pub proof fn lemma_part_times<KO: TotalOrder + ?Sized, VO: TotalOrder + ?Sized, T, R>(
    cs: Seq<Contents<KO::V, VO::V, T, R>>,
    ps: Seq<Position<KO::V, VO::V>>,
    i: int,
)
    requires
        aligned::<KO, VO, T, R>(cs, ps),
        0 <= i < ps.len(),
        merged_position::<KO, VO>(ps).key is Some,
        merged_position::<KO, VO>(ps).val is Some,
    ensures
        times_of(
            cs[i],
            merged_position::<KO, VO>(ps).key->0,
            merged_position::<KO, VO>(ps).val->0,
        ) == if ps[i].key == merged_position::<KO, VO>(ps).key && ps[i].val == merged_position::<
            KO,
            VO,
        >(ps).val {
            current_times(cs[i], ps[i])
        } else {
            Seq::<(T, R)>::empty()
        },
{
    lemma_elsewhere::<KO, VO, T, R>(cs, ps, i);
}

/// The merged cursor stands at a key that the merge has, and at a value
/// that the merge has under it.
pub proof fn lemma_merged_within<KO: TotalOrder + ?Sized, VO: TotalOrder + ?Sized, T, R>(
    cs: Seq<Contents<KO::V, VO::V, T, R>>,
    m: Contents<KO::V, VO::V, T, R>,
    ps: Seq<Position<KO::V, VO::V>>,
)
    requires
        joins(m, cs),
        ps.len() == cs.len(),
        forall|i: int| 0 <= i < ps.len() ==> within(cs[i], #[trigger] ps[i]),
    ensures
        within(m, merged_position::<KO, VO>(ps)),
{
    let at = merged_position::<KO, VO>(ps);
    lemma_least::<KO>(keys_at(ps));
    if let Some(k) = at.key {
        let i = choose|i: int| 0 <= i < ps.len() && #[trigger] keys_at(ps)[i] == Some(k);
        assert(within(cs[i], ps[i]));
        assert(has_key(cs, i, k));
        lemma_least::<VO>(vals_under(ps, at.key));
        if let Some(v) = at.val {
            let j = choose|j: int|
                0 <= j < ps.len() && #[trigger] vals_under(ps, at.key)[j] == Some(v);
            assert(within(cs[j], ps[j]));
            assert(has_val(cs, j, k, v));
        }
    }
}

/// The keys have moved: each cursor stands at the first key of its source
/// of which `g` holds, and at the first value of that key. Then the
/// merged cursor stands at the first such key of the merge and its first
/// value, and the cursors keep step with it.
pub proof fn lemma_keys_moved<KO: TotalOrder + ?Sized, VO: TotalOrder + ?Sized, T, R>(
    cs: Seq<Contents<KO::V, VO::V, T, R>>,
    m: Contents<KO::V, VO::V, T, R>,
    qs: Seq<Position<KO::V, VO::V>>,
    g: spec_fn(KO::V) -> bool,
)
    requires
        joins(m, cs),
        qs.len() == cs.len(),
        upward::<KO>(g),
        forall|i: int|
            0 <= i < qs.len() ==> {
                &&& within(cs[i], #[trigger] qs[i])
                &&& fresh::<KO, VO, T, R>(cs[i], qs[i])
                &&& is_min::<KO>(restrict(cs[i].dom(), g), qs[i].key)
            },
    ensures
        aligned::<KO, VO, T, R>(cs, qs),
        is_min::<KO>(restrict(m.dom(), g), merged_position::<KO, VO>(qs).key),
        fresh::<KO, VO, T, R>(m, merged_position::<KO, VO>(qs)),
        within(m, merged_position::<KO, VO>(qs)),
{
    let n = cs.len() as int;
    let q = merged_position::<KO, VO>(qs);
    let ss = Seq::new(cs.len(), |i: int| cs[i].dom());
    let xs = keys_at(qs);
    assert forall|y: KO::V| m.dom().contains(y) <==> exists|i: int|
        0 <= i < ss.len() && (#[trigger] ss[i]).contains(y) by {
        if m.dom().contains(y) {
            let i = choose|i: int| has_key(cs, i, y);
            assert(ss[i].contains(y));
        }
        if exists|i: int| 0 <= i < ss.len() && (#[trigger] ss[i]).contains(y) {
            let i = choose|i: int| 0 <= i < ss.len() && (#[trigger] ss[i]).contains(y);
            assert(has_key(cs, i, y));
        }
    }
    assert forall|i: int| 0 <= i < xs.len() implies is_min::<KO>(
        restrict(ss[i], g),
        #[trigger] xs[i],
    ) by {
        assert(within(cs[i], qs[i]));
    }
    lemma_level::<KO>(ss, m.dom(), xs, g);
    lemma_merged_within::<KO, VO, T, R>(cs, m, qs);
    if let Some(k) = q.key {
        let all = |v: VO::V| true;
        let vss = Seq::new(cs.len(), |i: int| vals_of(cs[i], k).dom());
        let vs = vals_under(qs, q.key);
        let under = vals_of(m, k).dom();
        assert forall|y: VO::V| under.contains(y) <==> exists|i: int|
            0 <= i < vss.len() && (#[trigger] vss[i]).contains(y) by {
            if under.contains(y) {
                let i = choose|i: int| has_val(cs, i, k, y);
                assert(vss[i].contains(y));
            }
            if exists|i: int| 0 <= i < vss.len() && (#[trigger] vss[i]).contains(y) {
                let i = choose|i: int| 0 <= i < vss.len() && (#[trigger] vss[i]).contains(y);
                assert(has_val(cs, i, k, y));
            }
        }
        assert forall|i: int| 0 <= i < vs.len() implies is_min::<VO>(
            restrict(vss[i], all),
            #[trigger] vs[i],
        ) by {
            assert(within(cs[i], qs[i]));
            assert(restrict(vss[i], all) =~= vss[i]);
            if qs[i].key != q.key {
                assert(xs[i] != least::<KO>(xs));
                assert(!ss[i].contains(k));
            }
        }
        lemma_level::<VO>(vss, under, vs, all);
        assert(restrict(under, all) =~= under);
        assert forall|i: int| 0 <= i < qs.len() implies aligned_at::<KO, VO, T, R>(
            cs[i],
            #[trigger] qs[i],
            q,
        ) by {
            assert(is_min::<KO>(from::<KO>(ss[i], k), xs[i]));
            if q.val is Some {
                assert(is_min::<VO>(from::<VO>(vss[i], q.val->0), vs[i]));
            }
        }
    } else {
        assert forall|i: int| 0 <= i < qs.len() implies aligned_at::<KO, VO, T, R>(
            cs[i],
            #[trigger] qs[i],
            q,
        ) by {
            assert(within(cs[i], qs[i]));
            lemma_least::<KO>(xs);
            assert(xs[i] is None);
        }
    }
}

/// The values have moved under an unmoved key: each cursor that stands at
/// the merged key stands at the first value of its source of which `h`
/// holds, and the others have not moved. Then the merged cursor stands at
/// the first such value of the merge, and the cursors keep step with it.
pub proof fn lemma_vals_moved<KO: TotalOrder + ?Sized, VO: TotalOrder + ?Sized, T, R>(
    cs: Seq<Contents<KO::V, VO::V, T, R>>,
    m: Contents<KO::V, VO::V, T, R>,
    ps: Seq<Position<KO::V, VO::V>>,
    qs: Seq<Position<KO::V, VO::V>>,
    h: spec_fn(VO::V) -> bool,
)
    requires
        joins(m, cs),
        aligned::<KO, VO, T, R>(cs, ps),
        qs.len() == cs.len(),
        merged_position::<KO, VO>(ps).key is Some,
        upward::<VO>(h),
        forall|i: int|
            0 <= i < qs.len() ==> if ps[i].key == merged_position::<KO, VO>(ps).key {
                &&& (#[trigger] qs[i]).key == ps[i].key
                &&& within(cs[i], qs[i])
                &&& is_min::<VO>(
                    restrict(vals_of(cs[i], merged_position::<KO, VO>(ps).key->0).dom(), h),
                    qs[i].val,
                )
            } else {
                qs[i] == ps[i]
            },
    ensures
        aligned::<KO, VO, T, R>(cs, qs),
        merged_position::<KO, VO>(qs).key == merged_position::<KO, VO>(ps).key,
        is_min::<VO>(
            restrict(vals_of(m, merged_position::<KO, VO>(ps).key->0).dom(), h),
            merged_position::<KO, VO>(qs).val,
        ),
        within(m, merged_position::<KO, VO>(qs)),
{
    let at = merged_position::<KO, VO>(ps);
    let q = merged_position::<KO, VO>(qs);
    let k = at.key->0;
    assert(keys_at(qs) =~= keys_at(ps)) by {
        assert forall|i: int| 0 <= i < qs.len() implies keys_at(qs)[i] == keys_at(ps)[i] by {
            assert(qs[i].key == ps[i].key);
        }
    }
    let vss = Seq::new(cs.len(), |i: int| vals_of(cs[i], k).dom());
    let vs = vals_under(qs, q.key);
    let under = vals_of(m, k).dom();
    assert forall|y: VO::V| under.contains(y) <==> exists|i: int|
        0 <= i < vss.len() && (#[trigger] vss[i]).contains(y) by {
        if under.contains(y) {
            let i = choose|i: int| has_val(cs, i, k, y);
            assert(vss[i].contains(y));
        }
        if exists|i: int| 0 <= i < vss.len() && (#[trigger] vss[i]).contains(y) {
            let i = choose|i: int| 0 <= i < vss.len() && (#[trigger] vss[i]).contains(y);
            assert(has_val(cs, i, k, y));
        }
    }
    assert forall|i: int| 0 <= i < vs.len() implies is_min::<VO>(
        restrict(vss[i], h),
        #[trigger] vs[i],
    ) by {
        assert(qs[i].key == ps[i].key);
        if ps[i].key != at.key {
            lemma_elsewhere::<KO, VO, T, R>(cs, ps, i);
        }
    }
    lemma_level::<VO>(vss, under, vs, h);
    assert forall|i: int| 0 <= i < qs.len() implies within(cs[i], #[trigger] qs[i]) by {
        assert(aligned_at::<KO, VO, T, R>(cs[i], ps[i], at));
    }
    lemma_merged_within::<KO, VO, T, R>(cs, m, qs);
    assert forall|i: int| 0 <= i < qs.len() implies aligned_at::<KO, VO, T, R>(
        cs[i],
        #[trigger] qs[i],
        q,
    ) by {
        assert(aligned_at::<KO, VO, T, R>(cs[i], ps[i], at));
        assert(qs[i].key == ps[i].key);
        if q.val is Some {
            assert(is_min::<VO>(from::<VO>(vss[i], q.val->0), vs[i]));
        }
    }
}

/// Nothing has moved.
pub proof fn lemma_unmoved<KO: TotalOrder + ?Sized, VO: TotalOrder + ?Sized>(
    ps: Seq<Position<KO::V, VO::V>>,
    qs: Seq<Position<KO::V, VO::V>>,
)
    requires
        qs.len() == ps.len(),
        forall|i: int| 0 <= i < ps.len() ==> #[trigger] qs[i] == ps[i],
    ensures
        qs == ps,
{
    assert(qs =~= ps);
}

/// All cursors were rewound to their first keys.
pub proof fn lemma_all_rewound_keys<KO: TotalOrder + ?Sized, VO: TotalOrder + ?Sized, T, R>(
    cs: Seq<Contents<KO::V, VO::V, T, R>>,
    m: Contents<KO::V, VO::V, T, R>,
    qs: Seq<Position<KO::V, VO::V>>,
)
    requires
        joins(m, cs),
        qs.len() == cs.len(),
        forall|i: int|
            0 <= i < qs.len() ==> within(cs[i], #[trigger] qs[i]) && rewound_keys::<KO, VO, T, R>(
                cs[i],
                qs[i],
            ),
    ensures
        aligned::<KO, VO, T, R>(cs, qs),
        rewound_keys::<KO, VO, T, R>(m, merged_position::<KO, VO>(qs)),
        within(m, merged_position::<KO, VO>(qs)),
{
    let all = |x: KO::V| true;
    assert forall|i: int| 0 <= i < qs.len() implies is_min::<KO>(
        restrict(cs[i].dom(), all),
        (#[trigger] qs[i]).key,
    ) by {
        assert(restrict(cs[i].dom(), all) =~= cs[i].dom());
    }
    lemma_keys_moved::<KO, VO, T, R>(cs, m, qs, all);
    assert(restrict(m.dom(), all) =~= m.dom());
}

/// The cursors at the merged key have stepped to their next keys.
pub proof fn lemma_all_stepped_key<KO: TotalOrder + ?Sized, VO: TotalOrder + ?Sized, T, R>(
    cs: Seq<Contents<KO::V, VO::V, T, R>>,
    m: Contents<KO::V, VO::V, T, R>,
    ps: Seq<Position<KO::V, VO::V>>,
    qs: Seq<Position<KO::V, VO::V>>,
)
    requires
        joins(m, cs),
        aligned::<KO, VO, T, R>(cs, ps),
        qs.len() == cs.len(),
        forall|i: int|
            0 <= i < qs.len() ==> if ps[i].key == merged_position::<KO, VO>(ps).key {
                within(cs[i], #[trigger] qs[i]) && stepped_key::<KO, VO, T, R>(cs[i], ps[i], qs[i])
            } else {
                qs[i] == ps[i]
            },
    ensures
        aligned::<KO, VO, T, R>(cs, qs),
        stepped_key::<KO, VO, T, R>(
            m,
            merged_position::<KO, VO>(ps),
            merged_position::<KO, VO>(qs),
        ),
        within(m, merged_position::<KO, VO>(qs)),
{
    let at = merged_position::<KO, VO>(ps);
    lemma_least::<KO>(keys_at(ps));
    if let Some(k) = at.key {
        let g = |x: KO::V| KO::precedes(k, x);
        assert(upward::<KO>(g)) by {
            assert forall|x: KO::V, y: KO::V|
                #![trigger passes(g, x), passes(g, y)]
                passes(g, x) && at_most::<KO>(x, y) implies passes(g, y) by {
                lemma_precedes_then_at_most::<KO>(k, x, y);
            }
        }
        assert forall|i: int| 0 <= i < qs.len() implies {
            &&& within(cs[i], #[trigger] qs[i])
            &&& fresh::<KO, VO, T, R>(cs[i], qs[i])
            &&& is_min::<KO>(restrict(cs[i].dom(), g), qs[i].key)
        } by {
            assert(aligned_at::<KO, VO, T, R>(cs[i], ps[i], at));
            assert(restrict(cs[i].dom(), g) =~= above::<KO>(cs[i].dom(), k));
            if ps[i].key != at.key {
                lemma_from_to_above::<KO>(cs[i].dom(), k, ps[i].key);
            }
        }
        lemma_keys_moved::<KO, VO, T, R>(cs, m, qs, g);
        assert(restrict(m.dom(), g) =~= above::<KO>(m.dom(), k));
    } else {
        assert forall|i: int| 0 <= i < ps.len() implies #[trigger] qs[i] == ps[i] by {
            assert(keys_at(ps)[i] is None);
        }
        lemma_unmoved::<KO, VO>(ps, qs);
        lemma_merged_within::<KO, VO, T, R>(cs, m, ps);
    }
}

/// All cursors have sought `target`.
pub proof fn lemma_all_sought_key<KO: TotalOrder + ?Sized, VO: TotalOrder + ?Sized, T, R>(
    cs: Seq<Contents<KO::V, VO::V, T, R>>,
    m: Contents<KO::V, VO::V, T, R>,
    ps: Seq<Position<KO::V, VO::V>>,
    target: KO::V,
    qs: Seq<Position<KO::V, VO::V>>,
)
    requires
        joins(m, cs),
        aligned::<KO, VO, T, R>(cs, ps),
        qs.len() == cs.len(),
        forall|i: int|
            0 <= i < qs.len() ==> within(cs[i], #[trigger] qs[i]) && sought_key::<KO, VO, T, R>(
                cs[i],
                ps[i],
                target,
                qs[i],
            ),
    ensures
        aligned::<KO, VO, T, R>(cs, qs),
        sought_key::<KO, VO, T, R>(
            m,
            merged_position::<KO, VO>(ps),
            target,
            merged_position::<KO, VO>(qs),
        ),
        within(m, merged_position::<KO, VO>(qs)),
{
    let at = merged_position::<KO, VO>(ps);
    lemma_least::<KO>(keys_at(ps));
    if at.key is Some && KO::precedes(at.key->0, target) {
        let k = at.key->0;
        let g = |x: KO::V| at_most::<KO>(target, x);
        assert(upward::<KO>(g)) by {
            assert forall|x: KO::V, y: KO::V|
                #![trigger passes(g, x), passes(g, y)]
                passes(g, x) && at_most::<KO>(x, y) implies passes(g, y) by {
                lemma_at_most_transitive::<KO>(target, x, y);
            }
        }
        lemma_asymmetric::<KO>(k, target);
        assert forall|i: int| 0 <= i < qs.len() implies {
            &&& within(cs[i], #[trigger] qs[i])
            &&& fresh::<KO, VO, T, R>(cs[i], qs[i])
            &&& is_min::<KO>(restrict(cs[i].dom(), g), qs[i].key)
        } by {
            assert(aligned_at::<KO, VO, T, R>(cs[i], ps[i], at));
            assert(restrict(cs[i].dom(), g) =~= from::<KO>(cs[i].dom(), target));
            if !(ps[i].key is Some && KO::precedes(ps[i].key->0, target)) {
                assert(qs[i] == ps[i]);
                lemma_from_later::<KO>(cs[i].dom(), k, target, ps[i].key);
            }
        }
        lemma_keys_moved::<KO, VO, T, R>(cs, m, qs, g);
        assert(restrict(m.dom(), g) =~= from::<KO>(m.dom(), target));
    } else {
        assert forall|i: int| 0 <= i < ps.len() implies #[trigger] qs[i] == ps[i] by {
            if let Some(z) = ps[i].key {
                assert(keys_at(ps)[i] is Some);
                if KO::precedes(z, target) {
                    lemma_at_most_transitive::<KO>(target, at.key->0, z);
                }
            }
        }
        lemma_unmoved::<KO, VO>(ps, qs);
        lemma_merged_within::<KO, VO, T, R>(cs, m, ps);
    }
}

/// The cursors at the merged key were rewound to their first values.
pub proof fn lemma_all_rewound_vals<KO: TotalOrder + ?Sized, VO: TotalOrder + ?Sized, T, R>(
    cs: Seq<Contents<KO::V, VO::V, T, R>>,
    m: Contents<KO::V, VO::V, T, R>,
    ps: Seq<Position<KO::V, VO::V>>,
    qs: Seq<Position<KO::V, VO::V>>,
)
    requires
        joins(m, cs),
        aligned::<KO, VO, T, R>(cs, ps),
        qs.len() == cs.len(),
        forall|i: int|
            0 <= i < qs.len() ==> if ps[i].key == merged_position::<KO, VO>(ps).key {
                within(cs[i], #[trigger] qs[i]) && rewound_vals::<KO, VO, T, R>(
                    cs[i],
                    ps[i],
                    qs[i],
                )
            } else {
                qs[i] == ps[i]
            },
    ensures
        aligned::<KO, VO, T, R>(cs, qs),
        rewound_vals::<KO, VO, T, R>(
            m,
            merged_position::<KO, VO>(ps),
            merged_position::<KO, VO>(qs),
        ),
        within(m, merged_position::<KO, VO>(qs)),
{
    let at = merged_position::<KO, VO>(ps);
    lemma_least::<KO>(keys_at(ps));
    if let Some(k) = at.key {
        let all = |v: VO::V| true;
        assert forall|i: int| 0 <= i < qs.len() implies if ps[i].key == at.key {
            &&& (#[trigger] qs[i]).key == ps[i].key
            &&& within(cs[i], qs[i])
            &&& is_min::<VO>(restrict(vals_of(cs[i], k).dom(), all), qs[i].val)
        } else {
            qs[i] == ps[i]
        } by {
            assert(restrict(vals_of(cs[i], k).dom(), all) =~= vals_of(cs[i], k).dom());
        }
        lemma_vals_moved::<KO, VO, T, R>(cs, m, ps, qs, all);
        assert(restrict(vals_of(m, k).dom(), all) =~= vals_of(m, k).dom());
    } else {
        assert forall|i: int| 0 <= i < ps.len() implies #[trigger] qs[i] == ps[i] by {
            assert(keys_at(ps)[i] is None);
            assert(aligned_at::<KO, VO, T, R>(cs[i], ps[i], at));
        }
        lemma_unmoved::<KO, VO>(ps, qs);
        lemma_merged_within::<KO, VO, T, R>(cs, m, ps);
    }
}

/// The cursors at the merged key and value have stepped to their next
/// values.
pub proof fn lemma_all_stepped_val<KO: TotalOrder + ?Sized, VO: TotalOrder + ?Sized, T, R>(
    cs: Seq<Contents<KO::V, VO::V, T, R>>,
    m: Contents<KO::V, VO::V, T, R>,
    ps: Seq<Position<KO::V, VO::V>>,
    qs: Seq<Position<KO::V, VO::V>>,
)
    requires
        joins(m, cs),
        aligned::<KO, VO, T, R>(cs, ps),
        qs.len() == cs.len(),
        forall|i: int|
            0 <= i < qs.len() ==> if ps[i].key == merged_position::<KO, VO>(ps).key && ps[i].val
                == merged_position::<KO, VO>(ps).val {
                within(cs[i], #[trigger] qs[i]) && stepped_val::<KO, VO, T, R>(cs[i], ps[i], qs[i])
            } else {
                qs[i] == ps[i]
            },
    ensures
        aligned::<KO, VO, T, R>(cs, qs),
        stepped_val::<KO, VO, T, R>(
            m,
            merged_position::<KO, VO>(ps),
            merged_position::<KO, VO>(qs),
        ),
        within(m, merged_position::<KO, VO>(qs)),
{
    let at = merged_position::<KO, VO>(ps);
    lemma_least::<KO>(keys_at(ps));
    if at.key is Some && at.val is Some {
        let k = at.key->0;
        let v = at.val->0;
        let h = |x: VO::V| VO::precedes(v, x);
        assert(upward::<VO>(h)) by {
            assert forall|x: VO::V, y: VO::V|
                #![trigger passes(h, x), passes(h, y)]
                passes(h, x) && at_most::<VO>(x, y) implies passes(h, y) by {
                lemma_precedes_then_at_most::<VO>(v, x, y);
            }
        }
        assert forall|i: int| 0 <= i < qs.len() implies if ps[i].key == at.key {
            &&& (#[trigger] qs[i]).key == ps[i].key
            &&& within(cs[i], qs[i])
            &&& is_min::<VO>(restrict(vals_of(cs[i], k).dom(), h), qs[i].val)
        } else {
            qs[i] == ps[i]
        } by {
            assert(aligned_at::<KO, VO, T, R>(cs[i], ps[i], at));
            assert(restrict(vals_of(cs[i], k).dom(), h) =~= above::<VO>(
                vals_of(cs[i], k).dom(),
                v,
            ));
            if ps[i].key == at.key && ps[i].val != at.val {
                lemma_from_to_above::<VO>(vals_of(cs[i], k).dom(), v, ps[i].val);
            }
        }
        lemma_vals_moved::<KO, VO, T, R>(cs, m, ps, qs, h);
        assert(restrict(vals_of(m, k).dom(), h) =~= above::<VO>(vals_of(m, k).dom(), v));
    } else {
        assert forall|i: int| 0 <= i < ps.len() implies #[trigger] qs[i] == ps[i] by {
            assert(aligned_at::<KO, VO, T, R>(cs[i], ps[i], at));
        }
        lemma_unmoved::<KO, VO>(ps, qs);
        lemma_merged_within::<KO, VO, T, R>(cs, m, ps);
    }
}

/// The cursors at the merged key have sought the value `target`.
pub proof fn lemma_all_sought_val<KO: TotalOrder + ?Sized, VO: TotalOrder + ?Sized, T, R>(
    cs: Seq<Contents<KO::V, VO::V, T, R>>,
    m: Contents<KO::V, VO::V, T, R>,
    ps: Seq<Position<KO::V, VO::V>>,
    target: VO::V,
    qs: Seq<Position<KO::V, VO::V>>,
)
    requires
        joins(m, cs),
        aligned::<KO, VO, T, R>(cs, ps),
        qs.len() == cs.len(),
        forall|i: int|
            0 <= i < qs.len() ==> if ps[i].key == merged_position::<KO, VO>(ps).key {
                within(cs[i], #[trigger] qs[i]) && sought_val::<KO, VO, T, R>(
                    cs[i],
                    ps[i],
                    target,
                    qs[i],
                )
            } else {
                qs[i] == ps[i]
            },
    ensures
        aligned::<KO, VO, T, R>(cs, qs),
        sought_val::<KO, VO, T, R>(
            m,
            merged_position::<KO, VO>(ps),
            target,
            merged_position::<KO, VO>(qs),
        ),
        within(m, merged_position::<KO, VO>(qs)),
{
    let at = merged_position::<KO, VO>(ps);
    lemma_least::<KO>(keys_at(ps));
    if at.key is Some {
        lemma_least::<VO>(vals_under(ps, at.key));
    }
    if at.key is Some && at.val is Some && VO::precedes(at.val->0, target) {
        let k = at.key->0;
        let v = at.val->0;
        let h = |x: VO::V| at_most::<VO>(target, x);
        assert(upward::<VO>(h)) by {
            assert forall|x: VO::V, y: VO::V|
                #![trigger passes(h, x), passes(h, y)]
                passes(h, x) && at_most::<VO>(x, y) implies passes(h, y) by {
                lemma_at_most_transitive::<VO>(target, x, y);
            }
        }
        lemma_asymmetric::<VO>(v, target);
        assert forall|i: int| 0 <= i < qs.len() implies if ps[i].key == at.key {
            &&& (#[trigger] qs[i]).key == ps[i].key
            &&& within(cs[i], qs[i])
            &&& is_min::<VO>(restrict(vals_of(cs[i], k).dom(), h), qs[i].val)
        } else {
            qs[i] == ps[i]
        } by {
            assert(aligned_at::<KO, VO, T, R>(cs[i], ps[i], at));
            assert(restrict(vals_of(cs[i], k).dom(), h) =~= from::<VO>(
                vals_of(cs[i], k).dom(),
                target,
            ));
            if ps[i].key == at.key && !(ps[i].val is Some && VO::precedes(ps[i].val->0, target)) {
                assert(qs[i] == ps[i]);
                lemma_from_later::<VO>(vals_of(cs[i], k).dom(), v, target, ps[i].val);
            }
        }
        lemma_vals_moved::<KO, VO, T, R>(cs, m, ps, qs, h);
        assert(restrict(vals_of(m, k).dom(), h) =~= from::<VO>(vals_of(m, k).dom(), target));
    } else {
        assert forall|i: int| 0 <= i < ps.len() implies #[trigger] qs[i] == ps[i] by {
            assert(aligned_at::<KO, VO, T, R>(cs[i], ps[i], at));
            if ps[i].key == at.key && ps[i].key is Some && ps[i].val is Some {
                assert(vals_under(ps, at.key)[i] is Some);
                if VO::precedes(ps[i].val->0, target) {
                    lemma_at_most_transitive::<VO>(target, at.val->0, ps[i].val->0);
                }
            }
        }
        lemma_unmoved::<KO, VO>(ps, qs);
        lemma_merged_within::<KO, VO, T, R>(cs, m, ps);
    }
}

/// The updates of the first `i + 1` sources, from those of the first `i`.
pub proof fn lemma_list_times_next<KV, VV, T, R>(
    cs: Seq<Contents<KV, VV, T, R>>,
    k: KV,
    v: VV,
    i: int,
)
    requires
        0 <= i < cs.len(),
    ensures
        list_times(cs.take(i + 1), k, v) == list_times(cs.take(i), k, v) + times_of(cs[i], k, v),
{
    assert(cs.take(i + 1).drop_last() =~= cs.take(i));
    assert(cs.take(i + 1).last() == cs[i]);
}

/// Sources without updates for `(k, v)` add nothing.
pub proof fn lemma_list_times_skip<KV, VV, T, R>(
    cs: Seq<Contents<KV, VV, T, R>>,
    k: KV,
    v: VV,
    a: int,
    b: int,
)
    requires
        0 <= a <= b <= cs.len(),
        forall|i: int| a <= i < b ==> times_of(#[trigger] cs[i], k, v).len() == 0,
    ensures
        list_times(cs.take(b), k, v) == list_times(cs.take(a), k, v),
    decreases b - a,
{
    if a < b {
        lemma_list_times_skip(cs, k, v, a, b - 1);
        lemma_list_times_next(cs, k, v, b - 1);
        assert(list_times(cs.take(b - 1), k, v) + times_of(cs[b - 1], k, v) =~= list_times(
            cs.take(b - 1),
            k,
            v,
        ));
    }
}

/// A visitor that accepts the updates of all sources accepts those of
/// each.
pub proof fn lemma_accepts_listed<KV, VV, T, R, U, L: Fn(&T, &R) -> U>(
    logic: L,
    cs: Seq<Contents<KV, VV, T, R>>,
    k: KV,
    v: VV,
    i: int,
)
    requires
        accepts(logic, list_times(cs, k, v)),
        0 <= i < cs.len(),
    ensures
        accepts(logic, times_of(cs[i], k, v)),
    decreases cs.len(),
{
    let init = cs.drop_last();
    lemma_accepts_parts(logic, list_times(init, k, v), times_of(cs.last(), k, v));
    if i < cs.len() - 1 {
        lemma_accepts_listed(logic, init, k, v, i);
    }
}

/// A visitor that accepts all of `a + b` accepts `a` and accepts `b`.
pub proof fn lemma_accepts_parts<T, R, U, L: Fn(&T, &R) -> U>(
    logic: L,
    a: Seq<(T, R)>,
    b: Seq<(T, R)>,
)
    requires
        accepts(logic, a + b),
    ensures
        accepts(logic, a),
        accepts(logic, b),
{
    let whole = a + b;
    assert forall|i: int| #![trigger a[i]] 0 <= i < a.len() implies call_requires(
        logic,
        (&a[i].0, &a[i].1),
    ) by {
        assert(whole[i] == a[i]);
    }
    assert forall|i: int| #![trigger b[i]] 0 <= i < b.len() implies call_requires(
        logic,
        (&b[i].0, &b[i].1),
    ) by {
        assert(whole[a.len() + i] == b[i]);
    }
}

/// What a visitor yields for `a` and for `b` it yields, joined, for
/// `a + b`.
pub proof fn lemma_yields_joined<T, R, U, L: Fn(&T, &R) -> U>(
    logic: L,
    a: Seq<(T, R)>,
    b: Seq<(T, R)>,
    out_a: Seq<U>,
    out_b: Seq<U>,
)
    requires
        yields(logic, a, out_a),
        yields(logic, b, out_b),
    ensures
        yields(logic, a + b, out_a + out_b),
{
    let whole = a + b;
    let out = out_a + out_b;
    assert forall|i: int| #![trigger out[i]] 0 <= i < whole.len() implies call_ensures(
        logic,
        (&whole[i].0, &whole[i].1),
        out[i],
    ) by {
        if i < a.len() {
            assert(whole[i] == a[i]);
            assert(out[i] == out_a[i]);
        } else {
            assert(whole[i] == b[i - a.len()]);
            assert(out[i] == out_b[i - a.len()]);
        }
    }
}

} // verus!
