//! A generic cursor implementation merging multiple cursors.

use crate::order::{lemma_asymmetric, lemma_relate, Order, TotalOrder};
use crate::trace::cursor::merge::{
    aligned, keys_at, least, lemma_accepts_listed, lemma_all_rewound_keys,
    lemma_all_rewound_vals, lemma_all_sought_key, lemma_all_sought_val, lemma_all_stepped_key,
    lemma_all_stepped_val, lemma_least, lemma_least_next, lemma_least_skip,
    lemma_list_times_next, lemma_list_times_skip, lemma_merged_list, lemma_merged_list_finite,
    lemma_merged_list_joins, lemma_merged_within, lemma_part_times, lemma_yields_joined,
    list_times, merged_list, merged_position, min_opt, passes, vals_under,
};
use crate::trace::cursor::model::{
    accepts, finite, rewound_keys, rewound_vals, sought_key, sought_val, stepped_key,
    stepped_val, times_of, within, yields, Contents, Position,
};
use crate::trace::cursor::{Cursor, DdBorrow};
use vstd::prelude::*;

verus! {

/// Provides a cursor interface over a list of cursors.
///
/// The `CursorList` tracks the indices of cursors with the minimum key,
/// and the the indices of cursors with the minimum key and minimum value.
/// It performs no consolidation: updates that agree on key, value and time
/// are all there, those of an earlier cursor before those of a later one.
///
/// After each move of the keys all cursors are looked at once to find the
/// least key, so a step costs time in the number of cursors, not in the
/// number of those at the least key. That is meant for short lists.
pub struct CursorList<C> {
    cursors: Vec<C>,
    min_key: Vec<usize>,
    min_val: Vec<usize>,
}

/// What the storages of a list hold, in order.
pub open spec fn list_sources<K: DdBorrow, V: TotalOrder, T, R, C: Cursor<K, V, T, R>>(
    storage: &Vec<C::Storage>,
) -> Seq<Contents<K::V, V::V, T, R>> {
    Seq::new(storage@.len(), |i: int| C::contents(&storage@[i]))
}

/// The cursor at `i` stands at the key `key`.
pub open spec fn at_key<KV, VV>(ps: Seq<Position<KV, VV>>, key: Option<KV>) -> spec_fn(
    int,
) -> bool {
    |i: int| key is Some && 0 <= i < ps.len() && ps[i].key == key
}

/// The cursor at `i` stands at the key `key` and the value `val`.
pub open spec fn at_val<KV, VV>(
    ps: Seq<Position<KV, VV>>,
    key: Option<KV>,
    val: Option<VV>,
) -> spec_fn(int) -> bool {
    |i: int| key is Some && val is Some && 0 <= i < ps.len() && ps[i].key == key && ps[i].val == val
}

/// `i` is among the first `j` entries of `v`.
pub open spec fn among(v: Seq<usize>, j: int, i: int) -> bool {
    exists|a: int| 0 <= a < j && a < v.len() && #[trigger] v[a] == i
}

/// `v` holds, ascending, the indices below `n` of which `hit` holds.
pub open spec fn lists(v: Seq<usize>, n: int, hit: spec_fn(int) -> bool) -> bool {
    &&& forall|a: int, b: int| 0 <= a < b < v.len() ==> (#[trigger] v[a]) < (#[trigger] v[b])
    &&& forall|a: int| 0 <= a < v.len() ==> (#[trigger] v[a]) < n && passes(hit, v[a] as int)
    &&& forall|i: int| 0 <= i < n && #[trigger] passes(hit, i) ==> among(v, v.len() as int, i)
}

/// The entry of `v` at `j`, or `n` past its end.
pub open spec fn entry(v: Seq<usize>, j: int, n: int) -> int {
    if 0 <= j < v.len() {
        v[j] as int
    } else {
        n
    }
}

proof fn lemma_lists_restart(i: int, hit: spec_fn(int) -> bool)
    requires
        0 <= i <= usize::MAX,
        passes(hit, i),
        forall|x: int| 0 <= x < i ==> !#[trigger] passes(hit, x),
    ensures
        lists(seq![i as usize], i + 1, hit),
{
    let v = seq![i as usize];
    assert forall|x: int| 0 <= x < i + 1 && #[trigger] passes(hit, x) implies among(
        v,
        v.len() as int,
        x,
    ) by {
        assert(v[0] == x);
    }
}

proof fn lemma_lists_push(v: Seq<usize>, i: int, hit: spec_fn(int) -> bool)
    requires
        lists(v, i, hit),
        0 <= i <= usize::MAX,
        passes(hit, i),
    ensures
        lists(v.push(i as usize), i + 1, hit),
{
    let w = v.push(i as usize);
    assert forall|x: int| 0 <= x < i + 1 && #[trigger] passes(hit, x) implies among(
        w,
        w.len() as int,
        x,
    ) by {
        if x < i {
            let a = choose|a: int| 0 <= a < v.len() && a < v.len() && #[trigger] v[a] == x;
            assert(w[a] == x);
        } else {
            assert(w[v.len() as int] == x);
        }
    }
    assert forall|a: int, b: int| 0 <= a < b < w.len() implies (#[trigger] w[a]) < (
    #[trigger] w[b]) by {
        assert(w[a] == v[a]);
        if b < v.len() {
            assert(w[b] == v[b]);
        }
    }
    assert forall|a: int| 0 <= a < w.len() implies (#[trigger] w[a]) < i + 1 && passes(
        hit,
        w[a] as int,
    ) by {
        if a < v.len() {
            assert(w[a] == v[a]);
        }
    }
}

proof fn lemma_lists_pass(v: Seq<usize>, i: int, j: int, hit: spec_fn(int) -> bool)
    requires
        lists(v, i, hit),
        i <= j,
        forall|x: int| i <= x < j ==> !#[trigger] passes(hit, x),
    ensures
        lists(v, j, hit),
{
}

/// Between two entries of the list in a row, `hit` holds of no index.
proof fn lemma_lists_gap(v: Seq<usize>, n: int, hit: spec_fn(int) -> bool, j: int, x: int)
    requires
        lists(v, n, hit),
        0 <= j <= v.len(),
        j > 0 ==> v[j - 1] < x,
        x < entry(v, j, n),
        0 <= x < n,
    ensures
        !passes(hit, x),
{
    if passes(hit, x) {
        let a = choose|a: int| 0 <= a < v.len() && a < v.len() && #[trigger] v[a] == x;
        if a < j {
            if a < j - 1 {
                assert(v[a] < v[j - 1]);
            }
        } else {
            if j < a {
                assert(v[j] < v[a]);
            }
        }
    }
}

impl<C> CursorList<C> {
    /// Where the cursors stand, in order.
    pub closed spec fn places<K: DdBorrow, V: TotalOrder, T, R>(
        &self,
        storage: &Vec<C::Storage>,
    ) -> Seq<Position<K::V, V::V>> where C: Cursor<K, V, T, R> {
        Seq::new(self.cursors@.len(), |i: int| self.cursors@[i].position(&storage@[i]))
    }

    /// There is a storage for each cursor, and each cursor is a position
    /// in its storage.
    pub closed spec fn cursors_wf<K: DdBorrow, V: TotalOrder, T, R>(
        &self,
        storage: &Vec<C::Storage>,
    ) -> bool where C: Cursor<K, V, T, R> {
        &&& self.cursors@.len() == storage@.len()
        &&& forall|i: int|
            0 <= i < self.cursors@.len() ==> (#[trigger] self.cursors@[i]).wf(&storage@[i])
    }

    /// `min_key` lists the cursors at the least key.
    pub closed spec fn keys_listed<K: DdBorrow, V: TotalOrder, T, R>(
        &self,
        storage: &Vec<C::Storage>,
    ) -> bool where C: Cursor<K, V, T, R> {
        let ps = self.places::<K, V, T, R>(storage);
        lists(
            self.min_key@,
            ps.len() as int,
            at_key(ps, merged_position::<K::Borrowed, V>(ps).key),
        )
    }

    /// `min_val` lists the cursors at the least key and its least value.
    pub closed spec fn vals_listed<K: DdBorrow, V: TotalOrder, T, R>(
        &self,
        storage: &Vec<C::Storage>,
    ) -> bool where C: Cursor<K, V, T, R> {
        let ps = self.places::<K, V, T, R>(storage);
        let at = merged_position::<K::Borrowed, V>(ps);
        lists(self.min_val@, ps.len() as int, at_val(ps, at.key, at.val))
    }

    /// What holds of the places and the storages of well-formed cursors.
    proof fn lemma_places<K: DdBorrow, V: TotalOrder, T, R>(
        &self,
        storage: &Vec<C::Storage>,
    ) where C: Cursor<K, V, T, R>
        requires
            self.cursors_wf::<K, V, T, R>(storage),
        ensures
            ({
                let cs = list_sources::<K, V, T, R, C>(storage);
                let ps = self.places::<K, V, T, R>(storage);
                &&& ps.len() == cs.len()
                &&& ps.len() == self.cursors@.len()
                &&& forall|i: int| 0 <= i < ps.len() ==> within(cs[i], #[trigger] ps[i])
                &&& forall|i: int| 0 <= i < cs.len() ==> finite(#[trigger] cs[i])
            }),
    {
        let cs = list_sources::<K, V, T, R, C>(storage);
        let ps = self.places::<K, V, T, R>(storage);
        assert forall|i: int| 0 <= i < ps.len() implies within(cs[i], #[trigger] ps[i]) by {
            self.cursors@[i].lemma_wf(&storage@[i]);
        }
        assert forall|i: int| 0 <= i < cs.len() implies finite(#[trigger] cs[i]) by {
            self.cursors@[i].lemma_wf(&storage@[i]);
        }
    }

    /// A cursor over the merge of the sources, at its first key and value.
    /// All cursors are rewound.
    pub fn new<K: DdBorrow, V: TotalOrder, T, R>(cursors: Vec<C>, storage: &Vec<C::Storage>) -> (list:
        Self) where C: Cursor<K, V, T, R>
        requires
            cursors@.len() == storage@.len(),
            forall|i: int| 0 <= i < cursors@.len() ==> (#[trigger] cursors@[i]).wf(&storage@[i]),
        ensures
            list.wf(storage),
            rewound_keys::<K::Borrowed, V, T, R>(
                merged_list(list_sources::<K, V, T, R, C>(storage)),
                list.position(storage),
            ),
    {
        let mut list = CursorList { cursors, min_key: Vec::new(), min_val: Vec::new() };
        list.rewind_all::<K, V, T, R>(storage);
        list
    }

    /// Rewinds every cursor and finds the least key and value again.
    fn rewind_all<K: DdBorrow, V: TotalOrder, T, R>(&mut self, storage: &Vec<C::Storage>) where
        C: Cursor<K, V, T, R>,

        requires
            old(self).cursors_wf::<K, V, T, R>(storage),
        ensures
            final(self).cursors_wf::<K, V, T, R>(storage),
            final(self).keys_listed::<K, V, T, R>(storage),
            final(self).vals_listed::<K, V, T, R>(storage),
            aligned::<K::Borrowed, V, T, R>(
                list_sources::<K, V, T, R, C>(storage),
                final(self).places::<K, V, T, R>(storage),
            ),
            rewound_keys::<K::Borrowed, V, T, R>(
                merged_list(list_sources::<K, V, T, R, C>(storage)),
                merged_position::<K::Borrowed, V>(final(self).places::<K, V, T, R>(storage)),
            ),
    {
        let ghost cs = list_sources::<K, V, T, R, C>(storage);
        let n = self.cursors.len();
        let mut j: usize = 0;
        while j < n
            invariant
                n == self.cursors@.len(),
                j <= n,
                self.cursors_wf::<K, V, T, R>(storage),
                cs == list_sources::<K, V, T, R, C>(storage),
                forall|i: int|
                    0 <= i < j ==> rewound_keys::<K::Borrowed, V, T, R>(
                        cs[i],
                        #[trigger] self.places::<K, V, T, R>(storage)[i],
                    ),
            decreases n - j,
        {
            let ghost before = self.places::<K, V, T, R>(storage);
            self.cursors[j].rewind_keys(&storage[j]);
            proof {
                let now = self.places::<K, V, T, R>(storage);
                assert forall|i: int| 0 <= i < j + 1 implies rewound_keys::<K::Borrowed, V, T, R>(
                    cs[i],
                    #[trigger] now[i],
                ) by {
                    if i < j {
                        assert(now[i] == before[i]);
                    }
                }
            }
            j += 1;
        }
        let ghost qs = self.places::<K, V, T, R>(storage);
        proof {
            self.lemma_places::<K, V, T, R>(storage);
            lemma_merged_list_joins(cs);
            assert forall|i: int| 0 <= i < qs.len() implies within(cs[i], #[trigger] qs[i])
                && rewound_keys::<K::Borrowed, V, T, R>(cs[i], qs[i]) by {}
            lemma_all_rewound_keys::<K::Borrowed, V, T, R>(cs, merged_list(cs), qs);
        }
        self.minimize_keys::<K, V, T, R>(storage);
        proof {
            assert(self.places::<K, V, T, R>(storage) =~= qs);
        }
    }

    /// Initialize min_key with the indices of cursors with the minimum key.
    ///
    /// This method scans the current keys of each cursor, and tracks the
    /// indices of cursors whose key equals the minimum valid key seen so
    /// far. As it goes along, it clears the list if it finds a lesser key.
    fn minimize_keys<K: DdBorrow, V: TotalOrder, T, R>(
        &mut self,
        storage: &Vec<C::Storage>,
    ) where C: Cursor<K, V, T, R>
        requires
            old(self).cursors_wf::<K, V, T, R>(storage),
        ensures
            final(self).cursors == old(self).cursors,
            final(self).keys_listed::<K, V, T, R>(storage),
            final(self).vals_listed::<K, V, T, R>(storage),
    {
        let ghost ps = self.places::<K, V, T, R>(storage);
        let ghost xs = keys_at(ps);
        let ghost start = self.cursors;
        let n = self.cursors.len();
        self.min_key.clear();
        let mut best: Option<&K::Borrowed> = None;
        let ghost mut low: Option<K::V> = None;
        let mut i: usize = 0;
        proof {
            assert(xs.take(0) =~= Seq::<Option<K::V>>::empty());
        }
        while i < n
            invariant
                self.cursors == start,
                n == self.cursors@.len(),
                i <= n,
                self.cursors_wf::<K, V, T, R>(storage),
                ps == self.places::<K, V, T, R>(storage),
                xs == keys_at(ps),
                low == least::<K::Borrowed>(xs.take(i as int)),
                match best {
                    Some(b) => low == Some(b@),
                    None => low is None,
                },
                lists(self.min_key@, i as int, at_key(ps, low)),
            decreases n - i,
        {
            let key = self.cursors[i].get_key(&storage[i]);
            let ghost listed = self.min_key@;
            let ghost next = min_opt::<K::Borrowed>(low, xs[i as int]);
            proof {
                lemma_least_next::<K::Borrowed>(xs, i as int);
                lemma_least::<K::Borrowed>(xs.take(i as int));
                assert(xs[i as int] == ps[i as int].key);
                assert forall|x: int| 0 <= x < i implies xs.take(i as int)[x] == ps[x].key by {}
            }
            match key {
                Some(k) => {
                    let order = match best {
                        None => Order::Less,
                        Some(b) => k.compare(b),
                    };
                    proof {
                        if best is Some {
                            lemma_relate::<K::Borrowed>(k@, low->0);
                            if K::Borrowed::precedes(low->0, k@) {
                                lemma_asymmetric::<K::Borrowed>(low->0, k@);
                            }
                            K::Borrowed::lemma_irreflexive(k@);
                        }
                    }
                    match order {
                        Order::Less => {
                            best = Some(k);
                            self.min_key.clear();
                            self.min_key.push(i);
                            proof {
                                assert forall|x: int| 0 <= x < i implies !#[trigger] passes(
                                    at_key(ps, next),
                                    x,
                                ) by {
                                    if ps[x].key == next {
                                        assert(xs.take(i as int)[x] == Some(k@));
                                    }
                                }
                                lemma_lists_restart(i as int, at_key(ps, next));
                                assert(self.min_key@ =~= seq![i]);
                            }
                        },
                        Order::Equal => {
                            self.min_key.push(i);
                            proof {
                                lemma_lists_push(listed, i as int, at_key(ps, low));
                            }
                        },
                        Order::Greater => {
                            proof {
                                lemma_lists_pass(listed, i as int, i + 1, at_key(ps, low));
                            }
                        },
                    }
                },
                None => {
                    proof {
                        lemma_lists_pass(listed, i as int, i + 1, at_key(ps, low));
                    }
                },
            }
            proof {
                low = next;
            }
            i += 1;
        }
        proof {
            assert(xs.take(n as int) =~= xs);
        }
        self.minimize_vals::<K, V, T, R>(storage);
    }

    /// Initialize min_val with the indices of minimum key cursors with the minimum value.
    ///
    /// This method prepares the list of cursors, among those at the least
    /// key, whose value is the least one.
    fn minimize_vals<K: DdBorrow, V: TotalOrder, T, R>(
        &mut self,
        storage: &Vec<C::Storage>,
    ) where C: Cursor<K, V, T, R>
        requires
            old(self).cursors_wf::<K, V, T, R>(storage),
            old(self).keys_listed::<K, V, T, R>(storage),
        ensures
            final(self).cursors == old(self).cursors,
            final(self).min_key == old(self).min_key,
            final(self).vals_listed::<K, V, T, R>(storage),
    {
        let ghost ps = self.places::<K, V, T, R>(storage);
        let ghost at = merged_position::<K::Borrowed, V>(ps);
        let ghost vs = vals_under(ps, at.key);
        let ghost start = self.cursors;
        let ghost mk = self.min_key@;
        let ghost first = self.min_key;
        let ghost n = ps.len() as int;
        self.min_val.clear();
        let mut best: Option<&V> = None;
        let ghost mut low: Option<V::V> = None;
        let mut j: usize = 0;
        proof {
            assert(vs.take(0) =~= Seq::<Option<V::V>>::empty());
            assert forall|x: int| 0 <= x < entry(mk, 0, n) implies (#[trigger] vs[x]) is None by {
                lemma_lists_gap(mk, n, at_key(ps, at.key), 0, x);
                if at.key is None {
                    self.lemma_places::<K, V, T, R>(storage);
                    assert(within(list_sources::<K, V, T, R, C>(storage)[x], ps[x]));
                }
            }
            lemma_least_skip::<V>(vs, 0, entry(mk, 0, n));
            assert forall|x: int| 0 <= x < entry(mk, 0, n) implies !#[trigger] passes(
                at_val(ps, at.key, low),
                x,
            ) by {}
            lemma_lists_pass(self.min_val@, 0, entry(mk, 0, n), at_val(ps, at.key, low));
        }
        while j < self.min_key.len()
            invariant
                self.cursors == start,
                self.min_key == first,
                mk == self.min_key@,
                n == self.cursors@.len(),
                n == ps.len(),
                j <= mk.len(),
                self.cursors_wf::<K, V, T, R>(storage),
                ps == self.places::<K, V, T, R>(storage),
                at == merged_position::<K::Borrowed, V>(ps),
                vs == vals_under(ps, at.key),
                lists(mk, n, at_key(ps, at.key)),
                low == least::<V>(vs.take(entry(mk, j as int, n))),
                match best {
                    Some(b) => low == Some(b@),
                    None => low is None,
                },
                lists(self.min_val@, entry(mk, j as int, n), at_val(ps, at.key, low)),
            decreases mk.len() - j,
        {
            let index = self.min_key[j];
            let ghost upto = entry(mk, j + 1, n);
            let ghost listed = self.min_val@;
            let ghost next = min_opt::<V>(low, vs[index as int]);
            proof {
                assert(passes(at_key(ps, at.key), mk[j as int] as int));
                if j + 1 < mk.len() {
                    assert(mk[j as int] < mk[j + 1]);
                }
                lemma_least_next::<V>(vs, index as int);
                lemma_least::<V>(vs.take(index as int));
                assert(vs[index as int] == ps[index as int].val);
                assert forall|x: int| 0 <= x < index implies vs.take(index as int)[x] == vs[x] by {}
            }
            let val = self.cursors[index].get_val(&storage[index]);
            match val {
                Some(w) => {
                    let order = match best {
                        None => Order::Less,
                        Some(b) => w.compare(b),
                    };
                    proof {
                        if best is Some {
                            lemma_relate::<V>(w@, low->0);
                            if V::precedes(low->0, w@) {
                                lemma_asymmetric::<V>(low->0, w@);
                            }
                            V::lemma_irreflexive(w@);
                        }
                    }
                    match order {
                        Order::Less => {
                            best = Some(w);
                            self.min_val.clear();
                            self.min_val.push(index);
                            proof {
                                assert forall|x: int| 0 <= x < index implies !#[trigger] passes(
                                    at_val(ps, at.key, next),
                                    x,
                                ) by {
                                    if ps[x].key == at.key && ps[x].val == next {
                                        assert(vs.take(index as int)[x] == Some(w@));
                                    }
                                }
                                lemma_lists_restart(index as int, at_val(ps, at.key, next));
                                assert(self.min_val@ =~= seq![index]);
                            }
                        },
                        Order::Equal => {
                            self.min_val.push(index);
                            proof {
                                lemma_lists_push(listed, index as int, at_val(ps, at.key, low));
                            }
                        },
                        Order::Greater => {
                            proof {
                                lemma_lists_pass(
                                    listed,
                                    index as int,
                                    index + 1,
                                    at_val(ps, at.key, low),
                                );
                            }
                        },
                    }
                },
                None => {
                    proof {
                        lemma_lists_pass(listed, index as int, index + 1, at_val(ps, at.key, low));
                    }
                },
            }
            proof {
                low = next;
                assert forall|x: int| index + 1 <= x < upto implies (#[trigger] vs[x]) is None by {
                    lemma_lists_gap(mk, n, at_key(ps, at.key), j + 1, x);
                }
                lemma_least_skip::<V>(vs, index + 1, upto);
                assert forall|x: int| index + 1 <= x < upto implies !#[trigger] passes(
                    at_val(ps, at.key, low),
                    x,
                ) by {
                    lemma_lists_gap(mk, n, at_key(ps, at.key), j + 1, x);
                }
                lemma_lists_pass(self.min_val@, index + 1, upto, at_val(ps, at.key, low));
            }
            j += 1;
        }
        proof {
            assert(vs.take(n) =~= vs);
            if at.key is None {
                lemma_least::<V>(vs);
                assert(low is None) by {
                    if low is Some {
                        let x = choose|x: int| 0 <= x < vs.len() && #[trigger] vs[x] == low;
                        self.lemma_places::<K, V, T, R>(storage);
                        assert(within(list_sources::<K, V, T, R, C>(storage)[x], ps[x]));
                        lemma_least::<K::Borrowed>(keys_at(ps));
                        assert(keys_at(ps)[x] is None);
                    }
                }
            }
        }
    }
}

impl<K: DdBorrow, V: TotalOrder, T, R, C: Cursor<K, V, T, R>> Cursor<K, V, T, R> for CursorList<
    C,
> {
    type Storage = Vec<C::Storage>;

    open spec fn contents(storage: &Self::Storage) -> Contents<K::V, V::V, T, R> {
        merged_list(list_sources::<K, V, T, R, C>(storage))
    }

    closed spec fn wf(&self, storage: &Self::Storage) -> bool {
        &&& self.cursors_wf::<K, V, T, R>(storage)
        &&& self.keys_listed::<K, V, T, R>(storage)
        &&& self.vals_listed::<K, V, T, R>(storage)
        &&& aligned::<K::Borrowed, V, T, R>(
            list_sources::<K, V, T, R, C>(storage),
            self.places::<K, V, T, R>(storage),
        )
    }

    closed spec fn position(&self, storage: &Self::Storage) -> Position<K::V, V::V> {
        merged_position::<K::Borrowed, V>(self.places::<K, V, T, R>(storage))
    }

    proof fn lemma_wf(&self, storage: &Self::Storage) {
        let cs = list_sources::<K, V, T, R, C>(storage);
        let ps = self.places::<K, V, T, R>(storage);
        self.lemma_places::<K, V, T, R>(storage);
        lemma_merged_list_finite(cs);
        lemma_merged_list_joins(cs);
        lemma_merged_within::<K::Borrowed, V, T, R>(cs, merged_list(cs), ps);
    }

    fn key_valid(&self, storage: &Self::Storage) -> (valid: bool) {
        proof {
            let ps = self.places::<K, V, T, R>(storage);
            let at = merged_position::<K::Borrowed, V>(ps);
            lemma_least::<K::Borrowed>(keys_at(ps));
            if let Some(k) = at.key {
                let i = choose|i: int|
                    0 <= i < keys_at(ps).len() && #[trigger] keys_at(ps)[i] == Some(k);
                assert(passes(at_key(ps, at.key), i));
            }
            if self.min_key@.len() > 0 {
                assert(passes(at_key(ps, at.key), self.min_key@[0] as int));
            }
        }
        self.min_key.len() > 0
    }

    fn val_valid(&self, storage: &Self::Storage) -> (valid: bool) {
        proof {
            let ps = self.places::<K, V, T, R>(storage);
            let at = merged_position::<K::Borrowed, V>(ps);
            if at.key is Some {
                lemma_least::<V>(vals_under(ps, at.key));
                if let Some(v) = at.val {
                    let i = choose|i: int|
                        0 <= i < vals_under(ps, at.key).len() && #[trigger] vals_under(
                            ps,
                            at.key,
                        )[i] == Some(v);
                    assert(passes(at_val(ps, at.key, at.val), i));
                }
            }
            if self.min_val@.len() > 0 {
                assert(passes(at_val(ps, at.key, at.val), self.min_val@[0] as int));
            }
        }
        self.min_val.len() > 0
    }

    fn key<'a>(&self, storage: &'a Self::Storage) -> (key: &'a K::Borrowed) {
        proof {
            let ps = self.places::<K, V, T, R>(storage);
            let at = merged_position::<K::Borrowed, V>(ps);
            lemma_least::<K::Borrowed>(keys_at(ps));
            let i = choose|i: int|
                0 <= i < keys_at(ps).len() && #[trigger] keys_at(ps)[i] == at.key;
            assert(passes(at_key(ps, at.key), i));
            assert(passes(at_key(ps, at.key), self.min_key@[0] as int));
        }
        let index = self.min_key[0];
        self.cursors[index].key(&storage[index])
    }

    fn val<'a>(&self, storage: &'a Self::Storage) -> (val: &'a V) {
        proof {
            let ps = self.places::<K, V, T, R>(storage);
            let at = merged_position::<K::Borrowed, V>(ps);
            lemma_least::<K::Borrowed>(keys_at(ps));
            if at.key is Some {
                lemma_least::<V>(vals_under(ps, at.key));
                let i = choose|i: int|
                    0 <= i < vals_under(ps, at.key).len() && #[trigger] vals_under(ps, at.key)[i]
                        == at.val;
                assert(passes(at_val(ps, at.key, at.val), i));
                assert(passes(at_val(ps, at.key, at.val), self.min_val@[0] as int));
            }
        }
        let index = self.min_val[0];
        self.cursors[index].val(&storage[index])
    }

    fn map_times<U, L: Fn(&T, &R) -> U>(&mut self, storage: &Self::Storage, logic: &L) -> (out:
        Vec<U>) {
        let ghost cs = list_sources::<K, V, T, R, C>(storage);
        let ghost ps = self.places::<K, V, T, R>(storage);
        let ghost at = merged_position::<K::Borrowed, V>(ps);
        let ghost n = ps.len() as int;
        let ghost mv = self.min_val@;
        let ghost mk = self.min_key;
        let ghost first = self.min_val;
        let ghost k = at.key->0;
        let ghost v = at.val->0;
        let mut out: Vec<U> = Vec::new();
        let mut j: usize = 0;
        proof {
            self.lemma_places::<K, V, T, R>(storage);
            if mv.len() > 0 {
                assert(passes(at_val(ps, at.key, at.val), mv[0] as int));
                lemma_merged_list(cs, k, v);
                assert forall|x: int| 0 <= x < entry(mv, 0, n) implies times_of(
                    #[trigger] cs[x],
                    k,
                    v,
                ).len() == 0 by {
                    lemma_lists_gap(mv, n, at_val(ps, at.key, at.val), 0, x);
                    lemma_part_times::<K::Borrowed, V, T, R>(cs, ps, x);
                }
                lemma_list_times_skip(cs, k, v, 0, entry(mv, 0, n));
                assert(cs.take(0) =~= Seq::<Contents<K::V, V::V, T, R>>::empty());
            }
        }
        while j < self.min_val.len()
            invariant
                self.min_val == first,
                self.min_key == mk,
                mv == self.min_val@,
                j <= mv.len(),
                n == ps.len(),
                cs == list_sources::<K, V, T, R, C>(storage),
                cs.len() == n,
                self.cursors_wf::<K, V, T, R>(storage),
                ps == self.places::<K, V, T, R>(storage),
                at == merged_position::<K::Borrowed, V>(ps),
                aligned::<K::Borrowed, V, T, R>(cs, ps),
                lists(mv, n, at_val(ps, at.key, at.val)),
                mv.len() > 0 ==> at.key == Some(k) && at.val == Some(v) && accepts(
                    *logic,
                    list_times(cs, k, v),
                ),
                mv.len() > 0 ==> yields(
                    *logic,
                    list_times(cs.take(entry(mv, j as int, n)), k, v),
                    out@,
                ),
                mv.len() == 0 ==> out@.len() == 0,
            decreases mv.len() - j,
        {
            let index = self.min_val[j];
            let ghost upto = entry(mv, j + 1, n);
            let ghost had = out@;
            proof {
                assert(passes(at_val(ps, at.key, at.val), mv[j as int] as int));
                if j + 1 < mv.len() {
                    assert(mv[j as int] < mv[j + 1]);
                }
                lemma_part_times::<K::Borrowed, V, T, R>(cs, ps, index as int);
                lemma_accepts_listed(*logic, cs, k, v, index as int);
            }
            let mut part = self.cursors[index].map_times(&storage[index], logic);
            let ghost got = part@;
            out.append(&mut part);
            proof {
                assert(self.places::<K, V, T, R>(storage) =~= ps);
                lemma_list_times_next(cs, k, v, index as int);
                lemma_yields_joined(
                    *logic,
                    list_times(cs.take(index as int), k, v),
                    times_of(cs[index as int], k, v),
                    had,
                    got,
                );
                assert forall|x: int| index + 1 <= x < upto implies times_of(
                    #[trigger] cs[x],
                    k,
                    v,
                ).len() == 0 by {
                    lemma_lists_gap(mv, n, at_val(ps, at.key, at.val), j + 1, x);
                    lemma_part_times::<K::Borrowed, V, T, R>(cs, ps, x);
                }
                lemma_list_times_skip(cs, k, v, index + 1, upto);
            }
            j += 1;
        }
        proof {
            assert(cs.take(n) =~= cs);
            if mv.len() == 0 {
                if at.key is Some && at.val is Some {
                    lemma_least::<V>(vals_under(ps, at.key));
                    let i = choose|i: int|
                        0 <= i < vals_under(ps, at.key).len() && #[trigger] vals_under(
                            ps,
                            at.key,
                        )[i] == at.val;
                    assert(passes(at_val(ps, at.key, at.val), i));
                }
            }
        }
        out
    }

    fn step_key(&mut self, storage: &Self::Storage) {
        let ghost cs = list_sources::<K, V, T, R, C>(storage);
        let ghost ps = self.places::<K, V, T, R>(storage);
        let ghost at = merged_position::<K::Borrowed, V>(ps);
        let ghost n = ps.len() as int;
        let ghost mk = self.min_key@;
        let mut j: usize = 0;
        while j < self.min_key.len()
            invariant
                mk == self.min_key@,
                j <= mk.len(),
                n == ps.len(),
                n == self.cursors@.len(),
                cs == list_sources::<K, V, T, R, C>(storage),
                self.cursors_wf::<K, V, T, R>(storage),
                lists(mk, n, at_key(ps, at.key)),
                forall|i: int|
                    0 <= i < n ==> if among(mk, j as int, i) {
                        stepped_key::<K::Borrowed, V, T, R>(
                            cs[i],
                            ps[i],
                            #[trigger] self.places::<K, V, T, R>(storage)[i],
                        )
                    } else {
                        self.places::<K, V, T, R>(storage)[i] == ps[i]
                    },
            decreases mk.len() - j,
        {
            let index = self.min_key[j];
            let ghost before = self.places::<K, V, T, R>(storage);
            proof {
                assert(!among(mk, j as int, index as int)) by {
                    if among(mk, j as int, index as int) {
                        let a = choose|a: int|
                            0 <= a < j && a < mk.len() && #[trigger] mk[a] == index as int;
                        assert(mk[a] < mk[j as int]);
                    }
                }
            }
            self.cursors[index].step_key(&storage[index]);
            proof {
                let now = self.places::<K, V, T, R>(storage);
                assert forall|i: int| 0 <= i < n implies if among(mk, j + 1, i) {
                    stepped_key::<K::Borrowed, V, T, R>(cs[i], ps[i], #[trigger] now[i])
                } else {
                    now[i] == ps[i]
                } by {
                    if i == index {
                        assert(mk[j as int] == i);
                        assert(before[i] == ps[i]);
                    } else {
                        assert(now[i] == before[i]);
                        if among(mk, j + 1, i) {
                            let a = choose|a: int|
                                0 <= a < j + 1 && a < mk.len() && #[trigger] mk[a] == i;
                            assert(among(mk, j as int, i));
                        }
                    }
                }
            }
            j += 1;
        }
        proof {
            let qs = self.places::<K, V, T, R>(storage);
            self.lemma_places::<K, V, T, R>(storage);
            lemma_merged_list_joins(cs);
            assert forall|i: int| 0 <= i < qs.len() implies if ps[i].key == at.key {
                within(cs[i], #[trigger] qs[i]) && stepped_key::<K::Borrowed, V, T, R>(
                    cs[i],
                    ps[i],
                    qs[i],
                )
            } else {
                qs[i] == ps[i]
            } by {
                if among(mk, mk.len() as int, i) {
                    let a = choose|a: int|
                        0 <= a < mk.len() && a < mk.len() && #[trigger] mk[a] == i;
                    assert(passes(at_key(ps, at.key), mk[a] as int));
                } else {
                    assert(!passes(at_key(ps, at.key), i));
                }
            }
            lemma_all_stepped_key::<K::Borrowed, V, T, R>(cs, merged_list(cs), ps, qs);
        }
        self.minimize_keys::<K, V, T, R>(storage);
    }

    fn seek_key(&mut self, storage: &Self::Storage, key: &K::Borrowed) {
        let ghost cs = list_sources::<K, V, T, R, C>(storage);
        let ghost ps = self.places::<K, V, T, R>(storage);
        let n = self.cursors.len();
        let mut j: usize = 0;
        while j < n
            invariant
                n == self.cursors@.len(),
                n == ps.len(),
                j <= n,
                cs == list_sources::<K, V, T, R, C>(storage),
                self.cursors_wf::<K, V, T, R>(storage),
                forall|i: int|
                    0 <= i < n ==> if i < j {
                        sought_key::<K::Borrowed, V, T, R>(
                            cs[i],
                            ps[i],
                            key@,
                            #[trigger] self.places::<K, V, T, R>(storage)[i],
                        )
                    } else {
                        self.places::<K, V, T, R>(storage)[i] == ps[i]
                    },
            decreases n - j,
        {
            let ghost before = self.places::<K, V, T, R>(storage);
            self.cursors[j].seek_key(&storage[j], key);
            proof {
                let now = self.places::<K, V, T, R>(storage);
                assert forall|i: int| 0 <= i < n implies if i < j + 1 {
                    sought_key::<K::Borrowed, V, T, R>(cs[i], ps[i], key@, #[trigger] now[i])
                } else {
                    now[i] == ps[i]
                } by {
                    if i != j {
                        assert(now[i] == before[i]);
                    } else {
                        assert(before[i] == ps[i]);
                    }
                }
            }
            j += 1;
        }
        proof {
            let qs = self.places::<K, V, T, R>(storage);
            self.lemma_places::<K, V, T, R>(storage);
            lemma_merged_list_joins(cs);
            lemma_all_sought_key::<K::Borrowed, V, T, R>(cs, merged_list(cs), ps, key@, qs);
        }
        self.minimize_keys::<K, V, T, R>(storage);
    }

    fn step_val(&mut self, storage: &Self::Storage) {
        let ghost cs = list_sources::<K, V, T, R, C>(storage);
        let ghost ps = self.places::<K, V, T, R>(storage);
        let ghost at = merged_position::<K::Borrowed, V>(ps);
        let ghost n = ps.len() as int;
        let ghost mv = self.min_val@;
        let ghost mk = self.min_key@;
        let mut j: usize = 0;
        while j < self.min_val.len()
            invariant
                mv == self.min_val@,
                mk == self.min_key@,
                j <= mv.len(),
                n == ps.len(),
                n == self.cursors@.len(),
                cs == list_sources::<K, V, T, R, C>(storage),
                self.cursors_wf::<K, V, T, R>(storage),
                lists(mv, n, at_val(ps, at.key, at.val)),
                forall|i: int|
                    0 <= i < n ==> if among(mv, j as int, i) {
                        stepped_val::<K::Borrowed, V, T, R>(
                            cs[i],
                            ps[i],
                            #[trigger] self.places::<K, V, T, R>(storage)[i],
                        )
                    } else {
                        self.places::<K, V, T, R>(storage)[i] == ps[i]
                    },
            decreases mv.len() - j,
        {
            let index = self.min_val[j];
            let ghost before = self.places::<K, V, T, R>(storage);
            proof {
                assert(!among(mv, j as int, index as int)) by {
                    if among(mv, j as int, index as int) {
                        let a = choose|a: int|
                            0 <= a < j && a < mv.len() && #[trigger] mv[a] == index as int;
                        assert(mv[a] < mv[j as int]);
                    }
                }
            }
            self.cursors[index].step_val(&storage[index]);
            proof {
                let now = self.places::<K, V, T, R>(storage);
                assert forall|i: int| 0 <= i < n implies if among(mv, j + 1, i) {
                    stepped_val::<K::Borrowed, V, T, R>(cs[i], ps[i], #[trigger] now[i])
                } else {
                    now[i] == ps[i]
                } by {
                    if i == index {
                        assert(mv[j as int] == i);
                        assert(before[i] == ps[i]);
                    } else {
                        assert(now[i] == before[i]);
                        if among(mv, j + 1, i) {
                            let a = choose|a: int|
                                0 <= a < j + 1 && a < mv.len() && #[trigger] mv[a] == i;
                            assert(among(mv, j as int, i));
                        }
                    }
                }
            }
            j += 1;
        }
        proof {
            let qs = self.places::<K, V, T, R>(storage);
            self.lemma_places::<K, V, T, R>(storage);
            lemma_merged_list_joins(cs);
            assert forall|i: int| 0 <= i < qs.len() implies if ps[i].key == at.key && ps[i].val
                == at.val {
                within(cs[i], #[trigger] qs[i]) && stepped_val::<K::Borrowed, V, T, R>(
                    cs[i],
                    ps[i],
                    qs[i],
                )
            } else {
                qs[i] == ps[i]
            } by {
                if among(mv, mv.len() as int, i) {
                    let a = choose|a: int|
                        0 <= a < mv.len() && a < mv.len() && #[trigger] mv[a] == i;
                    assert(passes(at_val(ps, at.key, at.val), mv[a] as int));
                } else {
                    assert(!passes(at_val(ps, at.key, at.val), i));
                }
            }
            lemma_all_stepped_val::<K::Borrowed, V, T, R>(cs, merged_list(cs), ps, qs);
            self.lemma_keys_stay::<K, V, T, R>(storage, ps);
        }
        self.minimize_vals::<K, V, T, R>(storage);
    }

    fn seek_val(&mut self, storage: &Self::Storage, val: &V) {
        let ghost cs = list_sources::<K, V, T, R, C>(storage);
        let ghost ps = self.places::<K, V, T, R>(storage);
        let ghost at = merged_position::<K::Borrowed, V>(ps);
        let ghost n = ps.len() as int;
        let ghost mk = self.min_key@;
        let mut j: usize = 0;
        while j < self.min_key.len()
            invariant
                mk == self.min_key@,
                j <= mk.len(),
                n == ps.len(),
                n == self.cursors@.len(),
                cs == list_sources::<K, V, T, R, C>(storage),
                self.cursors_wf::<K, V, T, R>(storage),
                lists(mk, n, at_key(ps, at.key)),
                forall|i: int|
                    0 <= i < n ==> if among(mk, j as int, i) {
                        sought_val::<K::Borrowed, V, T, R>(
                            cs[i],
                            ps[i],
                            val@,
                            #[trigger] self.places::<K, V, T, R>(storage)[i],
                        )
                    } else {
                        self.places::<K, V, T, R>(storage)[i] == ps[i]
                    },
            decreases mk.len() - j,
        {
            let index = self.min_key[j];
            let ghost before = self.places::<K, V, T, R>(storage);
            proof {
                assert(!among(mk, j as int, index as int)) by {
                    if among(mk, j as int, index as int) {
                        let a = choose|a: int|
                            0 <= a < j && a < mk.len() && #[trigger] mk[a] == index as int;
                        assert(mk[a] < mk[j as int]);
                    }
                }
            }
            self.cursors[index].seek_val(&storage[index], val);
            proof {
                let now = self.places::<K, V, T, R>(storage);
                assert forall|i: int| 0 <= i < n implies if among(mk, j + 1, i) {
                    sought_val::<K::Borrowed, V, T, R>(cs[i], ps[i], val@, #[trigger] now[i])
                } else {
                    now[i] == ps[i]
                } by {
                    if i == index {
                        assert(mk[j as int] == i);
                        assert(before[i] == ps[i]);
                    } else {
                        assert(now[i] == before[i]);
                        if among(mk, j + 1, i) {
                            let a = choose|a: int|
                                0 <= a < j + 1 && a < mk.len() && #[trigger] mk[a] == i;
                            assert(among(mk, j as int, i));
                        }
                    }
                }
            }
            j += 1;
        }
        proof {
            let qs = self.places::<K, V, T, R>(storage);
            self.lemma_places::<K, V, T, R>(storage);
            lemma_merged_list_joins(cs);
            assert forall|i: int| 0 <= i < qs.len() implies if ps[i].key == at.key {
                within(cs[i], #[trigger] qs[i]) && sought_val::<K::Borrowed, V, T, R>(
                    cs[i],
                    ps[i],
                    val@,
                    qs[i],
                )
            } else {
                qs[i] == ps[i]
            } by {
                if among(mk, mk.len() as int, i) {
                    let a = choose|a: int|
                        0 <= a < mk.len() && a < mk.len() && #[trigger] mk[a] == i;
                    assert(passes(at_key(ps, at.key), mk[a] as int));
                } else {
                    assert(!passes(at_key(ps, at.key), i));
                    assert(within(cs[i], ps[i]));
                }
            }
            lemma_all_sought_val::<K::Borrowed, V, T, R>(cs, merged_list(cs), ps, val@, qs);
            self.lemma_keys_stay::<K, V, T, R>(storage, ps);
        }
        self.minimize_vals::<K, V, T, R>(storage);
    }

    fn rewind_keys(&mut self, storage: &Self::Storage) {
        self.rewind_all::<K, V, T, R>(storage);
    }

    fn rewind_vals(&mut self, storage: &Self::Storage) {
        let ghost cs = list_sources::<K, V, T, R, C>(storage);
        let ghost ps = self.places::<K, V, T, R>(storage);
        let ghost at = merged_position::<K::Borrowed, V>(ps);
        let ghost n = ps.len() as int;
        let ghost mk = self.min_key@;
        let mut j: usize = 0;
        while j < self.min_key.len()
            invariant
                mk == self.min_key@,
                j <= mk.len(),
                n == ps.len(),
                n == self.cursors@.len(),
                cs == list_sources::<K, V, T, R, C>(storage),
                self.cursors_wf::<K, V, T, R>(storage),
                lists(mk, n, at_key(ps, at.key)),
                forall|i: int|
                    0 <= i < n ==> if among(mk, j as int, i) {
                        rewound_vals::<K::Borrowed, V, T, R>(
                            cs[i],
                            ps[i],
                            #[trigger] self.places::<K, V, T, R>(storage)[i],
                        )
                    } else {
                        self.places::<K, V, T, R>(storage)[i] == ps[i]
                    },
            decreases mk.len() - j,
        {
            let index = self.min_key[j];
            let ghost before = self.places::<K, V, T, R>(storage);
            proof {
                assert(!among(mk, j as int, index as int)) by {
                    if among(mk, j as int, index as int) {
                        let a = choose|a: int|
                            0 <= a < j && a < mk.len() && #[trigger] mk[a] == index as int;
                        assert(mk[a] < mk[j as int]);
                    }
                }
            }
            self.cursors[index].rewind_vals(&storage[index]);
            proof {
                let now = self.places::<K, V, T, R>(storage);
                assert forall|i: int| 0 <= i < n implies if among(mk, j + 1, i) {
                    rewound_vals::<K::Borrowed, V, T, R>(cs[i], ps[i], #[trigger] now[i])
                } else {
                    now[i] == ps[i]
                } by {
                    if i == index {
                        assert(mk[j as int] == i);
                        assert(before[i] == ps[i]);
                    } else {
                        assert(now[i] == before[i]);
                        if among(mk, j + 1, i) {
                            let a = choose|a: int|
                                0 <= a < j + 1 && a < mk.len() && #[trigger] mk[a] == i;
                            assert(among(mk, j as int, i));
                        }
                    }
                }
            }
            j += 1;
        }
        proof {
            let qs = self.places::<K, V, T, R>(storage);
            self.lemma_places::<K, V, T, R>(storage);
            lemma_merged_list_joins(cs);
            assert forall|i: int| 0 <= i < qs.len() implies if ps[i].key == at.key {
                within(cs[i], #[trigger] qs[i]) && rewound_vals::<K::Borrowed, V, T, R>(
                    cs[i],
                    ps[i],
                    qs[i],
                )
            } else {
                qs[i] == ps[i]
            } by {
                if among(mk, mk.len() as int, i) {
                    let a = choose|a: int|
                        0 <= a < mk.len() && a < mk.len() && #[trigger] mk[a] == i;
                    assert(passes(at_key(ps, at.key), mk[a] as int));
                } else {
                    assert(!passes(at_key(ps, at.key), i));
                    assert(within(cs[i], ps[i]));
                }
            }
            lemma_all_rewound_vals::<K::Borrowed, V, T, R>(cs, merged_list(cs), ps, qs);
            self.lemma_keys_stay::<K, V, T, R>(storage, ps);
        }
        self.minimize_vals::<K, V, T, R>(storage);
    }
}

impl<C> CursorList<C> {
    /// A list of the cursors at the least key stays one while no cursor
    /// leaves its key.
    proof fn lemma_keys_stay<K: DdBorrow, V: TotalOrder, T, R>(
        &self,
        storage: &Vec<C::Storage>,
        ps: Seq<Position<K::V, V::V>>,
    ) where C: Cursor<K, V, T, R>
        requires
            ps.len() == self.cursors@.len(),
            lists(
                self.min_key@,
                ps.len() as int,
                at_key(ps, merged_position::<K::Borrowed, V>(ps).key),
            ),
            forall|i: int|
                0 <= i < ps.len() ==> (#[trigger] self.places::<K, V, T, R>(storage)[i]).key
                    == ps[i].key,
        ensures
            self.keys_listed::<K, V, T, R>(storage),
    {
        let qs = self.places::<K, V, T, R>(storage);
        assert(keys_at(qs) =~= keys_at(ps));
        let key = merged_position::<K::Borrowed, V>(ps).key;
        assert forall|i: int| 0 <= i < ps.len() implies passes(at_key(qs, key), i) == passes(
            at_key(ps, key),
            i,
        ) by {
            assert(qs[i].key == ps[i].key);
        }
        let v = self.min_key@;
        assert forall|a: int| 0 <= a < v.len() implies passes(
            at_key(qs, key),
            (#[trigger] v[a]) as int,
        ) by {
            assert(passes(at_key(ps, key), v[a] as int));
        }
        assert forall|i: int| 0 <= i < ps.len() && #[trigger] passes(
            at_key(qs, key),
            i,
        ) implies among(v, v.len() as int, i) by {
            assert(passes(at_key(ps, key), i));
        }
    }
}

} // verus!
