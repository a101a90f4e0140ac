//! The mathematical model of the cursor protocol: what a sorted source
//! holds, where a cursor stands in it, and where each operation leaves it.

use crate::order::{
    above, at_most, from, is_min, lemma_at_most_transitive, lemma_min_unique, TotalOrder,
};
use vstd::prelude::*;

verus! {

/// What a sorted source holds: for each key its values, and for each value
/// the `(time, delta)` updates in the source's own order.
pub type Contents<KV, VV, T, R> = Map<KV, Map<VV, Seq<(T, R)>>>;

/// Where a cursor stands: at a key, or past the last one; and under that
/// key at a value, or past its last one.
pub struct Position<KV, VV> {
    pub key: Option<KV>,
    pub val: Option<VV>,
}

/// The values under `k`, none where `c` lacks the key.
pub open spec fn vals_of<KV, VV, T, R>(c: Contents<KV, VV, T, R>, k: KV) -> Map<
    VV,
    Seq<(T, R)>,
> {
    if c.dom().contains(k) {
        c[k]
    } else {
        Map::empty()
    }
}

/// The updates of `(k, v)`, none where `c` lacks the pair.
pub open spec fn times_of<KV, VV, T, R>(c: Contents<KV, VV, T, R>, k: KV, v: VV) -> Seq<(T, R)> {
    if vals_of(c, k).dom().contains(v) {
        vals_of(c, k)[v]
    } else {
        Seq::empty()
    }
}

/// `c` has finitely many keys, each with finitely many values.
pub open spec fn finite<KV, VV, T, R>(c: Contents<KV, VV, T, R>) -> bool {
    &&& c.dom().finite()
    &&& forall|k: KV| #[trigger] vals_of(c, k).dom().finite()
}

/// `p` points into `c`, and at no value unless at a key.
pub open spec fn within<KV, VV, T, R>(c: Contents<KV, VV, T, R>, p: Position<KV, VV>) -> bool {
    match p.key {
        Some(k) => c.dom().contains(k) && (p.val matches Some(v) ==> vals_of(c, k).dom().contains(
            v,
        )),
        None => p.val is None,
    }
}

/// The updates under the cursor, none unless it stands at a value.
pub open spec fn current_times<KV, VV, T, R>(
    c: Contents<KV, VV, T, R>,
    p: Position<KV, VV>,
) -> Seq<(T, R)> {
    match (p.key, p.val) {
        (Some(k), Some(v)) => times_of(c, k, v),
        _ => Seq::empty(),
    }
}

/// `p` stands at the first value of its key.
pub open spec fn fresh<KO: TotalOrder + ?Sized, VO: TotalOrder + ?Sized, T, R>(
    c: Contents<KO::V, VO::V, T, R>,
    p: Position<KO::V, VO::V>,
) -> bool {
    match p.key {
        Some(k) => is_min::<VO>(vals_of(c, k).dom(), p.val),
        None => p.val is None,
    }
}

/// After `rewind_keys`: at the first key and its first value.
pub open spec fn rewound_keys<KO: TotalOrder + ?Sized, VO: TotalOrder + ?Sized, T, R>(
    c: Contents<KO::V, VO::V, T, R>,
    post: Position<KO::V, VO::V>,
) -> bool {
    is_min::<KO>(c.dom(), post.key) && fresh::<KO, VO, T, R>(c, post)
}

/// After `step_key`: at the first key after the current one and its first
/// value; a cursor past the last key stays there.
pub open spec fn stepped_key<KO: TotalOrder + ?Sized, VO: TotalOrder + ?Sized, T, R>(
    c: Contents<KO::V, VO::V, T, R>,
    pre: Position<KO::V, VO::V>,
    post: Position<KO::V, VO::V>,
) -> bool {
    match pre.key {
        Some(k) => is_min::<KO>(above::<KO>(c.dom(), k), post.key) && fresh::<KO, VO, T, R>(
            c,
            post,
        ),
        None => post == pre,
    }
}

/// After `seek_key`: where the current key comes before `target`, at the
/// first key not before `target` and its first value; else unmoved.
pub open spec fn sought_key<KO: TotalOrder + ?Sized, VO: TotalOrder + ?Sized, T, R>(
    c: Contents<KO::V, VO::V, T, R>,
    pre: Position<KO::V, VO::V>,
    target: KO::V,
    post: Position<KO::V, VO::V>,
) -> bool {
    if pre.key is Some && KO::precedes(pre.key->0, target) {
        is_min::<KO>(from::<KO>(c.dom(), target), post.key) && fresh::<KO, VO, T, R>(c, post)
    } else {
        post == pre
    }
}

/// After `rewind_vals`: at the same key and its first value.
pub open spec fn rewound_vals<KO: TotalOrder + ?Sized, VO: TotalOrder + ?Sized, T, R>(
    c: Contents<KO::V, VO::V, T, R>,
    pre: Position<KO::V, VO::V>,
    post: Position<KO::V, VO::V>,
) -> bool {
    post.key == pre.key && fresh::<KO, VO, T, R>(c, post)
}

/// After `step_val`: at the same key and the first value after the current
/// one; a cursor past the last value stays there.
pub open spec fn stepped_val<KO: TotalOrder + ?Sized, VO: TotalOrder + ?Sized, T, R>(
    c: Contents<KO::V, VO::V, T, R>,
    pre: Position<KO::V, VO::V>,
    post: Position<KO::V, VO::V>,
) -> bool {
    &&& post.key == pre.key
    &&& if pre.key is Some && pre.val is Some {
        is_min::<VO>(above::<VO>(vals_of(c, pre.key->0).dom(), pre.val->0), post.val)
    } else {
        post.val == pre.val
    }
}

/// After `seek_val`: at the same key; where the current value comes before
/// `target`, at the first value not before `target`; else unmoved.
pub open spec fn sought_val<KO: TotalOrder + ?Sized, VO: TotalOrder + ?Sized, T, R>(
    c: Contents<KO::V, VO::V, T, R>,
    pre: Position<KO::V, VO::V>,
    target: VO::V,
    post: Position<KO::V, VO::V>,
) -> bool {
    &&& post.key == pre.key
    &&& if pre.key is Some && pre.val is Some && VO::precedes(pre.val->0, target) {
        is_min::<VO>(from::<VO>(vals_of(c, pre.key->0).dom(), target), post.val)
    } else {
        post.val == pre.val
    }
}

/// Seeking is monotonic: after a seek to `first`, a seek to a key that
/// does not come after `first` leaves the cursor where it is.
pub proof fn lemma_seek_key_monotonic<KO: TotalOrder + ?Sized, VO: TotalOrder + ?Sized, T, R>(
    c: Contents<KO::V, VO::V, T, R>,
    start: Position<KO::V, VO::V>,
    first: KO::V,
    mid: Position<KO::V, VO::V>,
    second: KO::V,
    end: Position<KO::V, VO::V>,
)
    requires
        sought_key::<KO, VO, T, R>(c, start, first, mid),
        sought_key::<KO, VO, T, R>(c, mid, second, end),
        at_most::<KO>(second, first),
    ensures
        end == mid,
{
    if let Some(k) = mid.key {
        assert(at_most::<KO>(first, k));
        lemma_at_most_transitive::<KO>(second, first, k);
    }
}

/// The same of values: after a seek to `first`, a seek to a value that
/// does not come after `first` leaves the cursor where it is.
pub proof fn lemma_seek_val_monotonic<KO: TotalOrder + ?Sized, VO: TotalOrder + ?Sized, T, R>(
    c: Contents<KO::V, VO::V, T, R>,
    start: Position<KO::V, VO::V>,
    first: VO::V,
    mid: Position<KO::V, VO::V>,
    second: VO::V,
    end: Position<KO::V, VO::V>,
)
    requires
        sought_val::<KO, VO, T, R>(c, start, first, mid),
        sought_val::<KO, VO, T, R>(c, mid, second, end),
        at_most::<VO>(second, first),
    ensures
        end == mid,
{
    if mid.key is Some && mid.val is Some {
        assert(at_most::<VO>(first, mid.val->0));
        lemma_at_most_transitive::<VO>(second, first, mid.val->0);
    }
}

/// Exhaustion is terminal: from past the last key, no step or seek, and no
/// rewind of values, leads back to a key.
pub proof fn lemma_exhaustion_is_terminal<KO: TotalOrder + ?Sized, VO: TotalOrder + ?Sized, T, R>(
    c: Contents<KO::V, VO::V, T, R>,
    pre: Position<KO::V, VO::V>,
    key: KO::V,
    val: VO::V,
    post: Position<KO::V, VO::V>,
)
    requires
        pre.key is None,
        stepped_key::<KO, VO, T, R>(c, pre, post) || sought_key::<KO, VO, T, R>(c, pre, key, post)
            || stepped_val::<KO, VO, T, R>(c, pre, post) || sought_val::<KO, VO, T, R>(
            c,
            pre,
            val,
            post,
        ) || rewound_vals::<KO, VO, T, R>(c, pre, post),
    ensures
        post.key is None,
{
}

/// Rewinding the keys twice in a row leaves the cursor where rewinding
/// them once does.
pub proof fn lemma_rewind_keys_idempotent<KO: TotalOrder + ?Sized, VO: TotalOrder + ?Sized, T, R>(
    c: Contents<KO::V, VO::V, T, R>,
    once: Position<KO::V, VO::V>,
    twice: Position<KO::V, VO::V>,
)
    requires
        rewound_keys::<KO, VO, T, R>(c, once),
        rewound_keys::<KO, VO, T, R>(c, twice),
    ensures
        twice == once,
{
    lemma_min_unique::<KO>(c.dom(), once.key, twice.key);
    if let Some(k) = once.key {
        lemma_min_unique::<VO>(vals_of(c, k).dom(), once.val, twice.val);
    }
}

/// The same of values: a second rewind in a row changes nothing.
pub proof fn lemma_rewind_vals_idempotent<KO: TotalOrder + ?Sized, VO: TotalOrder + ?Sized, T, R>(
    c: Contents<KO::V, VO::V, T, R>,
    start: Position<KO::V, VO::V>,
    once: Position<KO::V, VO::V>,
    twice: Position<KO::V, VO::V>,
)
    requires
        rewound_vals::<KO, VO, T, R>(c, start, once),
        rewound_vals::<KO, VO, T, R>(c, once, twice),
    ensures
        twice == once,
{
    if let Some(k) = once.key {
        lemma_min_unique::<VO>(vals_of(c, k).dom(), once.val, twice.val);
    }
}

/// The visitor `logic` may be called on every update of `times`.
pub open spec fn accepts<T, R, U, L: Fn(&T, &R) -> U>(logic: L, times: Seq<(T, R)>) -> bool {
    forall|i: int|
        #![trigger times[i]]
        0 <= i < times.len() ==> call_requires(logic, (&times[i].0, &times[i].1))
}

/// `out` holds, in order, what `logic` returned for each update of `times`.
pub open spec fn yields<T, R, U, L: Fn(&T, &R) -> U>(
    logic: L,
    times: Seq<(T, R)>,
    out: Seq<U>,
) -> bool {
    &&& out.len() == times.len()
    &&& forall|i: int|
        #![trigger out[i]]
        0 <= i < times.len() ==> call_ensures(logic, (&times[i].0, &times[i].1), out[i])
}

} // verus!
