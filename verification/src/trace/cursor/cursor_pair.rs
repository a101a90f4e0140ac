//! A generic cursor implementation merging pairs of different cursors.

use crate::order::{lemma_relate, relate, Order, TotalOrder};
use crate::trace::cursor::merge::{
    aligned, keys_at, least, lemma_accepts_parts, lemma_all_rewound_keys,
    lemma_all_rewound_vals, lemma_all_sought_key, lemma_all_sought_val, lemma_all_stepped_key,
    lemma_all_stepped_val, lemma_merged_pair, lemma_merged_pair_finite,
    lemma_merged_pair_joins, lemma_merged_within, lemma_part_times, lemma_yields_joined,
    merged_pair, merged_position, min_opt, vals_under,
};
use crate::trace::cursor::model::{
    current_times, rewound_keys, Contents, Position,
};
use crate::trace::cursor::{Cursor, DdBorrow};
use vstd::prelude::*;

verus! {

/// A cursor over the combined updates of two different cursors.
///
/// A `CursorPair` wraps two cursors over the same types of updates, and
/// provides navigation through their merged updates. Updates that agree on
/// key, value and time are not combined: each source's updates are all
/// there, the first source's before the second's.
pub struct CursorPair<C1, C2> {
    cursor1: C1,
    cursor2: C2,
    /// Invalid keys are `Greater` than all other keys. `Equal` implies both valid.
    key_order: Order,
    /// Invalid vals are `Greater` than all other vals. `Equal` implies both valid.
    val_order: Order,
}

/// How a place of the first cursor stands to one of the second, where a
/// cursor past the end comes after everything, and the first cursor counts
/// as the later one when both are past the end.
pub open spec fn relate_places<O: TotalOrder + ?Sized>(a: Option<O::V>, b: Option<O::V>) -> Order {
    match (a, b) {
        (None, _) => Order::Greater,
        (Some(_), None) => Order::Less,
        (Some(x), Some(y)) => relate::<O>(x, y),
    }
}

/// What the two storages of a pair hold, first and second.
pub open spec fn pair_sources<
    K: DdBorrow,
    V: TotalOrder,
    T,
    R,
    C1: Cursor<K, V, T, R>,
    C2: Cursor<K, V, T, R>,
>(storage: &(C1::Storage, C2::Storage)) -> Seq<Contents<K::V, V::V, T, R>> {
    seq![C1::contents(&storage.0), C2::contents(&storage.1)]
}

proof fn lemma_least_two<O: TotalOrder + ?Sized>(a: Option<O::V>, b: Option<O::V>)
    ensures
        least::<O>(seq![a, b]) == min_opt::<O>(a, b),
{
    reveal_with_fuel(least, 3);
    assert(seq![a, b].drop_last() =~= seq![a]);
    assert(seq![a].drop_last() =~= Seq::<Option<O::V>>::empty());
}

/// Where the merged cursor of two stands, by how their places compare.
proof fn lemma_two<KO: TotalOrder + ?Sized, VO: TotalOrder + ?Sized>(
    p1: Position<KO::V, VO::V>,
    p2: Position<KO::V, VO::V>,
)
    ensures
        ({
            let at = merged_position::<KO, VO>(seq![p1, p2]);
            let by_key = relate_places::<KO>(p1.key, p2.key);
            let by_val = relate_places::<VO>(p1.val, p2.val);
            &&& by_key is Less ==> at.key == p1.key && p1.key is Some && p2.key != p1.key && at.val
                == p1.val
            &&& by_key is Equal ==> {
                &&& at.key == p1.key && p1.key is Some && p2.key == p1.key
                &&& by_val is Less ==> at.val == p1.val && p1.val is Some && p2.val != p1.val
                &&& by_val is Equal ==> at.val == p1.val && p1.val is Some && p2.val == p1.val
                &&& by_val is Greater ==> at.val == p2.val && (p1.val != p2.val || p2.val is None)
            }
            &&& by_key is Greater ==> {
                &&& at.key == p2.key
                &&& p1.key != p2.key || p2.key is None
                &&& p2.key is Some ==> at.val == p2.val
                &&& p2.key is None ==> at.val is None
            }
        }),
{
    let ps = seq![p1, p2];
    let at = merged_position::<KO, VO>(ps);
    assert(keys_at(ps) =~= seq![p1.key, p2.key]);
    lemma_least_two::<KO>(p1.key, p2.key);
    if p1.key is Some && p2.key is Some {
        lemma_relate::<KO>(p1.key->0, p2.key->0);
    }
    if p1.val is Some && p2.val is Some {
        lemma_relate::<VO>(p1.val->0, p2.val->0);
    }
    let first = if p1.key == at.key {
        p1.val
    } else {
        None
    };
    let second = if p2.key == at.key {
        p2.val
    } else {
        None
    };
    assert(vals_under(ps, at.key) =~= seq![first, second]);
    lemma_least_two::<VO>(first, second);
}

/// How the keys under two cursors compare.
fn key_relation<K: DdBorrow, V: TotalOrder, T, R, C1: Cursor<K, V, T, R>, C2: Cursor<K, V, T, R>>(
    cursor1: &C1,
    cursor2: &C2,
    storage: &(C1::Storage, C2::Storage),
) -> (order: Order)
    requires
        cursor1.wf(&storage.0),
        cursor2.wf(&storage.1),
    ensures
        order == relate_places::<K::Borrowed>(
            cursor1.position(&storage.0).key,
            cursor2.position(&storage.1).key,
        ),
{
    if !cursor1.key_valid(&storage.0) {
        Order::Greater
    } else if !cursor2.key_valid(&storage.1) {
        Order::Less
    } else {
        cursor1.key(&storage.0).compare(cursor2.key(&storage.1))
    }
}

/// How the values under two cursors compare.
fn val_relation<K: DdBorrow, V: TotalOrder, T, R, C1: Cursor<K, V, T, R>, C2: Cursor<K, V, T, R>>(
    cursor1: &C1,
    cursor2: &C2,
    storage: &(C1::Storage, C2::Storage),
) -> (order: Order)
    requires
        cursor1.wf(&storage.0),
        cursor2.wf(&storage.1),
    ensures
        order == relate_places::<V>(
            cursor1.position(&storage.0).val,
            cursor2.position(&storage.1).val,
        ),
{
    if !cursor1.val_valid(&storage.0) {
        Order::Greater
    } else if !cursor2.val_valid(&storage.1) {
        Order::Less
    } else {
        cursor1.val(&storage.0).compare(cursor2.val(&storage.1))
    }
}

impl<C1, C2> CursorPair<C1, C2> {
    /// Where the two cursors stand, first and second.
    pub closed spec fn places<K: DdBorrow, V: TotalOrder, T, R>(
        &self,
        storage: &(C1::Storage, C2::Storage),
    ) -> Seq<Position<K::V, V::V>> where C1: Cursor<K, V, T, R>, C2: Cursor<K, V, T, R> {
        seq![self.cursor1.position(&storage.0), self.cursor2.position(&storage.1)]
    }

    /// The orders are those of the places of the two cursors.
    pub closed spec fn settled<K: DdBorrow, V: TotalOrder, T, R>(
        &self,
        storage: &(C1::Storage, C2::Storage),
    ) -> bool where C1: Cursor<K, V, T, R>, C2: Cursor<K, V, T, R> {
        &&& self.cursor1.wf(&storage.0)
        &&& self.cursor2.wf(&storage.1)
        &&& self.key_order == relate_places::<K::Borrowed>(
            self.cursor1.position(&storage.0).key,
            self.cursor2.position(&storage.1).key,
        )
        &&& self.key_order is Equal ==> self.val_order == relate_places::<V>(
            self.cursor1.position(&storage.0).val,
            self.cursor2.position(&storage.1).val,
        )
    }

    /// A cursor over the merge of two sources, at its first key and value.
    /// Both cursors are rewound.
    pub fn new<K: DdBorrow, V: TotalOrder, T, R>(
        cursor1: C1,
        cursor2: C2,
        storage: &(C1::Storage, C2::Storage),
    ) -> (pair: Self) where C1: Cursor<K, V, T, R>, C2: Cursor<K, V, T, R>
        requires
            cursor1.wf(&storage.0),
            cursor2.wf(&storage.1),
        ensures
            pair.wf(storage),
            rewound_keys::<K::Borrowed, V, T, R>(
                merged_pair(C1::contents(&storage.0), C2::contents(&storage.1)),
                pair.position(storage),
            ),
    {
        let mut pair = CursorPair {
            cursor1,
            cursor2,
            key_order: Order::Equal,
            val_order: Order::Equal,
        };
        pair.cursor1.rewind_keys(&storage.0);
        pair.cursor2.rewind_keys(&storage.1);
        pair.settle::<K, V, T, R>(storage);
        proof {
            let cs = pair_sources::<K, V, T, R, C1, C2>(storage);
            let m = merged_pair(cs[0], cs[1]);
            let qs = pair.places::<K, V, T, R>(storage);
            pair.cursor1.lemma_wf(&storage.0);
            pair.cursor2.lemma_wf(&storage.1);
            lemma_merged_pair_joins(cs[0], cs[1]);
            lemma_all_rewound_keys::<K::Borrowed, V, T, R>(cs, m, qs);
        }
        pair
    }

    /// Brings the orders up to date with the places of the two cursors.
    fn settle<K: DdBorrow, V: TotalOrder, T, R>(
        &mut self,
        storage: &(C1::Storage, C2::Storage),
    ) where C1: Cursor<K, V, T, R>, C2: Cursor<K, V, T, R>
        requires
            old(self).cursor1.wf(&storage.0),
            old(self).cursor2.wf(&storage.1),
        ensures
            final(self).cursor1 == old(self).cursor1,
            final(self).cursor2 == old(self).cursor2,
            final(self).settled::<K, V, T, R>(storage),
    {
        self.key_order = key_relation::<K, V, T, R, C1, C2>(&self.cursor1, &self.cursor2, storage);
        match self.key_order {
            Order::Equal => {
                self.val_order = val_relation::<K, V, T, R, C1, C2>(
                    &self.cursor1,
                    &self.cursor2,
                    storage,
                );
            },
            _ => {},
        }
    }

    /// Whether the updates of the first cursor are among the current ones.
    fn first_is_current(&self) -> (first: bool)
        ensures
            first == (self.key_order is Less || (self.key_order is Equal && !(self.val_order
                is Greater))),
    {
        match self.key_order {
            Order::Less => true,
            Order::Equal => match self.val_order {
                Order::Greater => false,
                _ => true,
            },
            Order::Greater => false,
        }
    }

    /// Whether the updates of the second cursor are among the current ones.
    fn second_is_current(&self) -> (second: bool)
        ensures
            second == (self.key_order is Greater || (self.key_order is Equal && !(self.val_order
                is Less))),
    {
        match self.key_order {
            Order::Less => false,
            Order::Equal => match self.val_order {
                Order::Less => false,
                _ => true,
            },
            Order::Greater => true,
        }
    }
}

impl<K: DdBorrow, V: TotalOrder, T, R, C1: Cursor<K, V, T, R>, C2: Cursor<K, V, T, R>> Cursor<
    K,
    V,
    T,
    R,
> for CursorPair<C1, C2> {
    type Storage = (C1::Storage, C2::Storage);

    open spec fn contents(storage: &Self::Storage) -> Contents<K::V, V::V, T, R> {
        merged_pair(C1::contents(&storage.0), C2::contents(&storage.1))
    }

    closed spec fn wf(&self, storage: &Self::Storage) -> bool {
        &&& self.settled::<K, V, T, R>(storage)
        &&& aligned::<K::Borrowed, V, T, R>(
            pair_sources::<K, V, T, R, C1, C2>(storage),
            self.places::<K, V, T, R>(storage),
        )
    }

    closed spec fn position(&self, storage: &Self::Storage) -> Position<K::V, V::V> {
        merged_position::<K::Borrowed, V>(self.places::<K, V, T, R>(storage))
    }

    proof fn lemma_wf(&self, storage: &Self::Storage) {
        let cs = pair_sources::<K, V, T, R, C1, C2>(storage);
        let ps = self.places::<K, V, T, R>(storage);
        self.cursor1.lemma_wf(&storage.0);
        self.cursor2.lemma_wf(&storage.1);
        lemma_merged_pair_finite(cs[0], cs[1]);
        lemma_merged_pair_joins(cs[0], cs[1]);
        lemma_merged_within::<K::Borrowed, V, T, R>(cs, Self::contents(storage), ps);
    }

    fn key_valid(&self, storage: &Self::Storage) -> (valid: bool) {
        proof {
            lemma_two::<K::Borrowed, V>(
                self.cursor1.position(&storage.0),
                self.cursor2.position(&storage.1),
            );
        }
        match self.key_order {
            Order::Less => self.cursor1.key_valid(&storage.0),
            Order::Equal => true,
            Order::Greater => self.cursor2.key_valid(&storage.1),
        }
    }

    fn val_valid(&self, storage: &Self::Storage) -> (valid: bool) {
        proof {
            lemma_two::<K::Borrowed, V>(
                self.cursor1.position(&storage.0),
                self.cursor2.position(&storage.1),
            );
            self.cursor1.lemma_wf(&storage.0);
            self.cursor2.lemma_wf(&storage.1);
        }
        match self.key_order {
            Order::Less => self.cursor1.val_valid(&storage.0),
            Order::Greater => self.cursor2.val_valid(&storage.1),
            Order::Equal => match self.val_order {
                Order::Less => self.cursor1.val_valid(&storage.0),
                Order::Greater => self.cursor2.val_valid(&storage.1),
                Order::Equal => true,
            },
        }
    }

    fn key<'a>(&self, storage: &'a Self::Storage) -> (key: &'a K::Borrowed) {
        proof {
            lemma_two::<K::Borrowed, V>(
                self.cursor1.position(&storage.0),
                self.cursor2.position(&storage.1),
            );
        }
        match self.key_order {
            Order::Less => self.cursor1.key(&storage.0),
            _ => self.cursor2.key(&storage.1),
        }
    }

    fn val<'a>(&self, storage: &'a Self::Storage) -> (val: &'a V) {
        proof {
            lemma_two::<K::Borrowed, V>(
                self.cursor1.position(&storage.0),
                self.cursor2.position(&storage.1),
            );
        }
        if self.first_is_current() {
            self.cursor1.val(&storage.0)
        } else {
            self.cursor2.val(&storage.1)
        }
    }

    fn map_times<U, L: Fn(&T, &R) -> U>(&mut self, storage: &Self::Storage, logic: &L) -> (out:
        Vec<U>) {
        let ghost cs = pair_sources::<K, V, T, R, C1, C2>(storage);
        let ghost ps = self.places::<K, V, T, R>(storage);
        let ghost at = merged_position::<K::Borrowed, V>(ps);
        let ghost whole = current_times(Self::contents(storage), at);
        let first = self.first_is_current();
        let second = self.second_is_current();
        let ghost part1 = if first {
            current_times(cs[0], ps[0])
        } else {
            Seq::<(T, R)>::empty()
        };
        let ghost part2 = if second {
            current_times(cs[1], ps[1])
        } else {
            Seq::<(T, R)>::empty()
        };
        proof {
            lemma_two::<K::Borrowed, V>(ps[0], ps[1]);
            self.cursor1.lemma_wf(&storage.0);
            self.cursor2.lemma_wf(&storage.1);
            if at.key is Some && at.val is Some {
                lemma_merged_pair(cs[0], cs[1], at.key->0, at.val->0);
                lemma_part_times::<K::Borrowed, V, T, R>(cs, ps, 0);
                lemma_part_times::<K::Borrowed, V, T, R>(cs, ps, 1);
            }
            assert(whole =~= part1 + part2);
            lemma_accepts_parts(*logic, part1, part2);
        }
        let mut out: Vec<U> = Vec::new();
        if first {
            out = self.cursor1.map_times(&storage.0, logic);
        }
        let ghost out1 = out@;
        if second {
            let mut more = self.cursor2.map_times(&storage.1, logic);
            out.append(&mut more);
        }
        proof {
            let out2 = out@.subrange(out1.len() as int, out@.len() as int);
            assert(out@ =~= out1 + out2);
            lemma_yields_joined(*logic, part1, part2, out1, out2);
            assert(self.places::<K, V, T, R>(storage) =~= ps);
        }
        out
    }

    fn step_key(&mut self, storage: &Self::Storage) {
        let ghost cs = pair_sources::<K, V, T, R, C1, C2>(storage);
        let ghost ps = self.places::<K, V, T, R>(storage);
        proof {
            lemma_two::<K::Borrowed, V>(ps[0], ps[1]);
            self.cursor1.lemma_wf(&storage.0);
            self.cursor2.lemma_wf(&storage.1);
        }
        match self.key_order {
            Order::Less => {
                self.cursor1.step_key(&storage.0);
            },
            Order::Equal => {
                self.cursor1.step_key(&storage.0);
                self.cursor2.step_key(&storage.1);
            },
            Order::Greater => {
                self.cursor2.step_key(&storage.1);
            },
        }
        self.settle::<K, V, T, R>(storage);
        proof {
            let qs = self.places::<K, V, T, R>(storage);
            self.cursor1.lemma_wf(&storage.0);
            self.cursor2.lemma_wf(&storage.1);
            lemma_merged_pair_joins(cs[0], cs[1]);
            lemma_all_stepped_key::<K::Borrowed, V, T, R>(cs, Self::contents(storage), ps, qs);
        }
    }

    fn seek_key(&mut self, storage: &Self::Storage, key: &K::Borrowed) {
        let ghost cs = pair_sources::<K, V, T, R, C1, C2>(storage);
        let ghost ps = self.places::<K, V, T, R>(storage);
        self.cursor1.seek_key(&storage.0, key);
        self.cursor2.seek_key(&storage.1, key);
        self.settle::<K, V, T, R>(storage);
        proof {
            let qs = self.places::<K, V, T, R>(storage);
            self.cursor1.lemma_wf(&storage.0);
            self.cursor2.lemma_wf(&storage.1);
            lemma_merged_pair_joins(cs[0], cs[1]);
            lemma_all_sought_key::<K::Borrowed, V, T, R>(
                cs,
                Self::contents(storage),
                ps,
                key@,
                qs,
            );
        }
    }

    fn step_val(&mut self, storage: &Self::Storage) {
        let ghost cs = pair_sources::<K, V, T, R, C1, C2>(storage);
        let ghost ps = self.places::<K, V, T, R>(storage);
        proof {
            lemma_two::<K::Borrowed, V>(ps[0], ps[1]);
            self.cursor1.lemma_wf(&storage.0);
            self.cursor2.lemma_wf(&storage.1);
        }
        let first = self.first_is_current();
        let second = self.second_is_current();
        if first {
            self.cursor1.step_val(&storage.0);
        }
        if second {
            self.cursor2.step_val(&storage.1);
        }
        self.settle::<K, V, T, R>(storage);
        proof {
            let qs = self.places::<K, V, T, R>(storage);
            self.cursor1.lemma_wf(&storage.0);
            self.cursor2.lemma_wf(&storage.1);
            lemma_merged_pair_joins(cs[0], cs[1]);
            lemma_all_stepped_val::<K::Borrowed, V, T, R>(cs, Self::contents(storage), ps, qs);
        }
    }

    fn seek_val(&mut self, storage: &Self::Storage, val: &V) {
        let ghost cs = pair_sources::<K, V, T, R, C1, C2>(storage);
        let ghost ps = self.places::<K, V, T, R>(storage);
        proof {
            lemma_two::<K::Borrowed, V>(ps[0], ps[1]);
            self.cursor1.lemma_wf(&storage.0);
            self.cursor2.lemma_wf(&storage.1);
        }
        match self.key_order {
            Order::Less => {
                self.cursor1.seek_val(&storage.0, val);
            },
            Order::Equal => {
                self.cursor1.seek_val(&storage.0, val);
                self.cursor2.seek_val(&storage.1, val);
            },
            Order::Greater => {
                self.cursor2.seek_val(&storage.1, val);
            },
        }
        self.settle::<K, V, T, R>(storage);
        proof {
            let qs = self.places::<K, V, T, R>(storage);
            self.cursor1.lemma_wf(&storage.0);
            self.cursor2.lemma_wf(&storage.1);
            lemma_merged_pair_joins(cs[0], cs[1]);
            lemma_all_sought_val::<K::Borrowed, V, T, R>(
                cs,
                Self::contents(storage),
                ps,
                val@,
                qs,
            );
        }
    }

    fn rewind_keys(&mut self, storage: &Self::Storage) {
        let ghost cs = pair_sources::<K, V, T, R, C1, C2>(storage);
        self.cursor1.rewind_keys(&storage.0);
        self.cursor2.rewind_keys(&storage.1);
        self.settle::<K, V, T, R>(storage);
        proof {
            let qs = self.places::<K, V, T, R>(storage);
            self.cursor1.lemma_wf(&storage.0);
            self.cursor2.lemma_wf(&storage.1);
            lemma_merged_pair_joins(cs[0], cs[1]);
            lemma_all_rewound_keys::<K::Borrowed, V, T, R>(cs, Self::contents(storage), qs);
        }
    }

    fn rewind_vals(&mut self, storage: &Self::Storage) {
        let ghost cs = pair_sources::<K, V, T, R, C1, C2>(storage);
        let ghost ps = self.places::<K, V, T, R>(storage);
        proof {
            lemma_two::<K::Borrowed, V>(ps[0], ps[1]);
            self.cursor1.lemma_wf(&storage.0);
            self.cursor2.lemma_wf(&storage.1);
        }
        match self.key_order {
            Order::Less => {
                self.cursor1.rewind_vals(&storage.0);
            },
            Order::Equal => {
                self.cursor1.rewind_vals(&storage.0);
                self.cursor2.rewind_vals(&storage.1);
            },
            Order::Greater => {
                self.cursor2.rewind_vals(&storage.1);
            },
        }
        self.settle::<K, V, T, R>(storage);
        proof {
            let qs = self.places::<K, V, T, R>(storage);
            self.cursor1.lemma_wf(&storage.0);
            self.cursor2.lemma_wf(&storage.1);
            lemma_merged_pair_joins(cs[0], cs[1]);
            lemma_all_rewound_vals::<K::Borrowed, V, T, R>(cs, Self::contents(storage), ps, qs);
        }
    }
}

} // verus!
