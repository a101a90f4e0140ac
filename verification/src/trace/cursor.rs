//! Traits and types for navigating ordered sequences of update tuples.
//!
//! A cursor differs from an iterator in that it moves on two levels, over
//! keys and over the values of one key, and in that it can seek.

pub mod cursor_list;
pub mod cursor_pair;
pub mod listing;
pub mod merge;
pub mod model;

pub use self::cursor_list::CursorList;
pub use self::cursor_pair::CursorPair;

use crate::order::{Order, TotalOrder};
use crate::trace::cursor::listing::{
    copies_groups, is_listing, lemma_lists_before_end, lemma_lists_before_start,
    lemma_lists_before_step_key, lemma_lists_before_step_val, lemma_remaining_decreases,
    lists_before, remaining,
};
use crate::trace::cursor::model::{
    accepts, current_times, finite, fresh, rewound_keys, rewound_vals, sought_key, sought_val,
    stepped_key, stepped_val, vals_of, within, yields, Contents, Position,
};
use vstd::prelude::*;

verus! {

/// A borrowed form of a key, which can be made into the owned form again.
pub trait DdToOwned: View {
    /// The owned form.
    type Owned: View<V = <Self as View>::V>;

    /// An owned value that stands for the same key.
    fn dd_to_owned(&self) -> (owned: Self::Owned)
        ensures
            owned@ == self@,
    ;
}

/// An owned key with a borrowed form, possibly unsized, that is ordered
/// as the owned form is.
pub trait DdBorrow: TotalOrder + Sized {
    /// The borrowed form.
    type Borrowed: ?Sized + DdToOwned<Owned = Self> + TotalOrder + View<V = <Self as View>::V>;

    /// The borrowed form is ordered as the owned form is.
    proof fn lemma_same_order(a: Self::V, b: Self::V)
        ensures
            <Self::Borrowed as TotalOrder>::precedes(a, b) == Self::precedes(a, b),
    ;

    /// A borrowed value that stands for the same key.
    fn dd_borrow(&self) -> (borrowed: &Self::Borrowed)
        ensures
            borrowed@ == self@,
    ;
}

impl DdBorrow for Vec<u8> {
    type Borrowed = [u8];

    proof fn lemma_same_order(a: Seq<u8>, b: Seq<u8>) {
    }

    fn dd_borrow(&self) -> (borrowed: &[u8]) {
        self.as_slice()
    }
}

impl DdToOwned for [u8] {
    type Owned = Vec<u8>;

    fn dd_to_owned(&self) -> (owned: Vec<u8>) {
        vstd::slice::slice_to_vec(self)
    }
}

/// A cursor for navigating ordered `(key, val, time, diff)` updates.
///
/// The cursor holds a position only. The storage that it walks is handed
/// to every operation, and `wf` says that the two belong together.
pub trait Cursor<K: DdBorrow, V: TotalOrder, T, R> {
    /// Type the cursor addresses data in.
    type Storage;

    /// What `storage` holds.
    spec fn contents(storage: &Self::Storage) -> Contents<K::V, V::V, T, R>;

    /// The cursor is a position in `storage`.
    spec fn wf(&self, storage: &Self::Storage) -> bool;

    /// Where the cursor stands.
    spec fn position(&self, storage: &Self::Storage) -> Position<K::V, V::V>;

    /// A cursor stands inside its storage, at no value unless at a key, and
    /// the storage is finite.
    proof fn lemma_wf(&self, storage: &Self::Storage)
        requires
            self.wf(storage),
        ensures
            finite(Self::contents(storage)),
            within(Self::contents(storage), self.position(storage)),
    ;

    /// Indicates if the current key is valid.
    ///
    /// A value of `false` indicates that the cursor has exhausted all keys.
    fn key_valid(&self, storage: &Self::Storage) -> (valid: bool)
        requires
            self.wf(storage),
        ensures
            valid == self.position(storage).key.is_some(),
    ;

    /// Indicates if the current value is valid.
    ///
    /// A value of `false` indicates that the cursor has exhausted all values for this key.
    fn val_valid(&self, storage: &Self::Storage) -> (valid: bool)
        requires
            self.wf(storage),
        ensures
            valid == self.position(storage).val.is_some(),
            valid ==> self.position(storage).key.is_some(),
    ;

    /// A reference to the current key.
    fn key<'a>(&self, storage: &'a Self::Storage) -> (key: &'a K::Borrowed)
        requires
            self.wf(storage),
            self.position(storage).key.is_some(),
        ensures
            Some(key@) == self.position(storage).key,
    ;

    /// A reference to the current value.
    fn val<'a>(&self, storage: &'a Self::Storage) -> (val: &'a V)
        requires
            self.wf(storage),
            self.position(storage).val.is_some(),
        ensures
            Some(val@) == self.position(storage).val,
    ;

    /// Returns a reference to the current key, if valid.
    fn get_key<'a>(&self, storage: &'a Self::Storage) -> (key: Option<&'a K::Borrowed>)
        requires
            self.wf(storage),
        ensures
            match key {
                Some(k) => Some(k@) == self.position(storage).key,
                None => self.position(storage).key is None,
            },
    {
        if self.key_valid(storage) {
            Some(self.key(storage))
        } else {
            None
        }
    }

    /// Returns a reference to the current value, if valid.
    fn get_val<'a>(&self, storage: &'a Self::Storage) -> (val: Option<&'a V>)
        requires
            self.wf(storage),
        ensures
            match val {
                Some(v) => Some(v@) == self.position(storage).val,
                None => self.position(storage).val is None,
            },
    {
        if self.val_valid(storage) {
            Some(self.val(storage))
        } else {
            None
        }
    }

    /// Applies `logic` to each pair of time and difference under the
    /// cursor, in the storage's order, and returns what it gave for each.
    /// Where the value is not valid, `logic` is not called.
    fn map_times<U, L: Fn(&T, &R) -> U>(&mut self, storage: &Self::Storage, logic: &L) -> (out:
        Vec<U>)
        requires
            old(self).wf(storage),
            accepts(*logic, current_times(Self::contents(storage), old(self).position(storage))),
        ensures
            final(self).wf(storage),
            final(self).position(storage) == old(self).position(storage),
            yields(
                *logic,
                current_times(Self::contents(storage), old(self).position(storage)),
                out@,
            ),
    ;

    /// Advances the cursor to the next key.
    fn step_key(&mut self, storage: &Self::Storage)
        requires
            old(self).wf(storage),
        ensures
            final(self).wf(storage),
            stepped_key::<K::Borrowed, V, T, R>(
                Self::contents(storage),
                old(self).position(storage),
                final(self).position(storage),
            ),
    ;

    /// Advances the cursor to the specified key.
    fn seek_key(&mut self, storage: &Self::Storage, key: &K::Borrowed)
        requires
            old(self).wf(storage),
        ensures
            final(self).wf(storage),
            sought_key::<K::Borrowed, V, T, R>(
                Self::contents(storage),
                old(self).position(storage),
                key@,
                final(self).position(storage),
            ),
    ;

    /// Advances the cursor to the next value.
    fn step_val(&mut self, storage: &Self::Storage)
        requires
            old(self).wf(storage),
        ensures
            final(self).wf(storage),
            stepped_val::<K::Borrowed, V, T, R>(
                Self::contents(storage),
                old(self).position(storage),
                final(self).position(storage),
            ),
    ;

    /// Advances the cursor to the specified value.
    fn seek_val(&mut self, storage: &Self::Storage, val: &V)
        requires
            old(self).wf(storage),
        ensures
            final(self).wf(storage),
            sought_val::<K::Borrowed, V, T, R>(
                Self::contents(storage),
                old(self).position(storage),
                val@,
                final(self).position(storage),
            ),
    ;

    /// Rewinds the cursor to the first key.
    fn rewind_keys(&mut self, storage: &Self::Storage)
        requires
            old(self).wf(storage),
        ensures
            final(self).wf(storage),
            rewound_keys::<K::Borrowed, V, T, R>(
                Self::contents(storage),
                final(self).position(storage),
            ),
    ;

    /// Rewinds the cursor to the first value for current key.
    fn rewind_vals(&mut self, storage: &Self::Storage)
        requires
            old(self).wf(storage),
        ensures
            final(self).wf(storage),
            rewound_vals::<K::Borrowed, V, T, R>(
                Self::contents(storage),
                old(self).position(storage),
                final(self).position(storage),
            ),
    ;
}

/// Whenever the key of a cursor is not valid, its value is not valid
/// either.
pub proof fn lemma_no_value_without_key<K: DdBorrow, V: TotalOrder, T, R, C: Cursor<K, V, T, R>>(
    cursor: &C,
    storage: &C::Storage,
)
    requires
        cursor.wf(storage),
        cursor.position(storage).key is None,
    ensures
        cursor.position(storage).val is None,
{
    cursor.lemma_wf(storage);
}

/// `out` holds every `(key, value)` pair of `c` once, in ascending order,
/// each with a copy of its updates in the order of `c`.
pub open spec fn materializes<K: DdBorrow, V: Clone + TotalOrder, T: Clone, R: Clone>(
    c: Contents<K::V, V::V, T, R>,
    out: Seq<((K, V), Vec<(T, R)>)>,
) -> bool {
    exists|pairs: Seq<(K::V, V::V)>|
        #![trigger copies_groups::<K, V, T, R>(c, pairs, out)]
        is_listing::<K::Borrowed, V, T, R>(c, pairs) && copies_groups::<K, V, T, R>(c, pairs, out)
}

/// Debugging and testing utilities for Cursor.
pub trait CursorDebug<K: Clone + DdBorrow, V: Clone + TotalOrder, T: Clone, R: Clone>: Cursor<
    K,
    V,
    T,
    R,
> {
    /// Rewinds the cursor and outputs its contents to a Vec
    fn to_vec(&mut self, storage: &Self::Storage) -> (out: Vec<((K, V), Vec<(T, R)>)>)
        requires
            old(self).wf(storage),
        ensures
            final(self).wf(storage),
            final(self).position(storage).key is None,
            materializes::<K, V, T, R>(Self::contents(storage), out@),
    {
        let mut out: Vec<((K, V), Vec<(T, R)>)> = Vec::new();
        self.rewind_keys(storage);
        self.rewind_vals(storage);
        let ghost c = Self::contents(storage);
        let ghost mut pairs: Seq<(K::V, V::V)> = Seq::empty();
        proof {
            self.lemma_wf(storage);
            lemma_lists_before_start::<K::Borrowed, V, T, R>(c, self.position(storage));
        }
        while self.key_valid(storage)
            invariant
                self.wf(storage),
                c == Self::contents(storage),
                finite(c),
                within(c, self.position(storage)),
                fresh::<K::Borrowed, V, T, R>(c, self.position(storage)),
                lists_before::<K::Borrowed, V, T, R>(c, pairs, self.position(storage)),
                copies_groups::<K, V, T, R>(c, pairs, out@),
            decreases remaining::<K::Borrowed>(c.dom(), self.position(storage).key),
        {
            let ghost k = self.position(storage).key->0;
            while self.val_valid(storage)
                invariant
                    self.wf(storage),
                    c == Self::contents(storage),
                    finite(c),
                    within(c, self.position(storage)),
                    self.position(storage).key == Some(k),
                    lists_before::<K::Borrowed, V, T, R>(c, pairs, self.position(storage)),
                    copies_groups::<K, V, T, R>(c, pairs, out@),
                decreases remaining::<V>(vals_of(c, k).dom(), self.position(storage).val),
            {
                let ghost here = self.position(storage);
                let ghost v = here.val->0;
                let copy = |t: &T, r: &R| -> (pair: (T, R))
                    ensures
                        cloned(*t, pair.0),
                        cloned(*r, pair.1),
                    { (t.clone(), r.clone()) };
                let kv_out = self.map_times(storage, &copy);
                let key = self.key(storage).dd_to_owned();
                let source = self.val(storage);
                let val = source.clone();
                proof {
                    assert(cloned(*source, val));
                }
                out.push(((key, val), kv_out));
                self.step_val(storage);
                proof {
                    self.lemma_wf(storage);
                    lemma_lists_before_step_val::<K::Borrowed, V, T, R>(
                        c,
                        pairs,
                        here,
                        self.position(storage),
                    );
                    lemma_remaining_decreases::<V>(
                        vals_of(c, k).dom(),
                        v,
                        self.position(storage).val,
                    );
                    pairs = pairs.push((k, v));
                }
            }
            let ghost here = self.position(storage);
            self.step_key(storage);
            proof {
                self.lemma_wf(storage);
                lemma_lists_before_step_key::<K::Borrowed, V, T, R>(
                    c,
                    pairs,
                    here,
                    self.position(storage),
                );
                lemma_remaining_decreases::<K::Borrowed>(c.dom(), k, self.position(storage).key);
            }
        }
        proof {
            lemma_lists_before_end::<K::Borrowed, V, T, R>(c, pairs, self.position(storage));
        }
        out
    }
}

impl<C, K: Clone + DdBorrow, V: Clone + TotalOrder, T: Clone, R: Clone> CursorDebug<K, V, T, R> for C where
    C: Cursor<K, V, T, R>,
 {

}

/// Whatever borrowing an owned key yields, converting that back yields a
/// key equal to the first.
pub proof fn lemma_round_trip<K: DdBorrow>(key: K, borrowed: &K::Borrowed, back: K)
    requires
        call_ensures(K::dd_borrow, (&key,), borrowed),
        call_ensures(<K::Borrowed as DdToOwned>::dd_to_owned, (borrowed,), back),
    ensures
        back@ == key@,
{
}

/// Comparing the borrowed forms of two owned keys gives what comparing the
/// keys themselves gives.
pub proof fn lemma_borrowed_order<K: DdBorrow>(
    a: K,
    b: K,
    a_borrowed: &K::Borrowed,
    b_borrowed: &K::Borrowed,
    owned_order: Order,
    borrowed_order: Order,
)
    requires
        call_ensures(K::dd_borrow, (&a,), a_borrowed),
        call_ensures(K::dd_borrow, (&b,), b_borrowed),
        call_ensures(K::compare, (&a, &b), owned_order),
        call_ensures(<K::Borrowed as TotalOrder>::compare, (a_borrowed, b_borrowed), borrowed_order),
    ensures
        borrowed_order == owned_order,
        borrowed_order is Equal <==> a@ == b@,
{
    K::lemma_same_order(a@, b@);
    K::lemma_same_order(b@, a@);
    crate::order::lemma_relate::<K>(a@, b@);
}

} // verus!
