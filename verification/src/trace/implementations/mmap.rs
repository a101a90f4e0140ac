//! A batch of updates with byte-string keys and values, held key by key
//! and, under each key, value by value, both ascending.

use crate::bytes::{bytes_precede, lemma_bytes_asymmetric, lemma_bytes_connected, lemma_bytes_transitive};
use crate::order::{
    element_at, lemma_ascending_index, lemma_ascending_order, lemma_min_above_is_next,
    lemma_min_from_is_bound, lemma_min_is_first, strictly_ascending, Order, TotalOrder,
};
use crate::trace::cursor::model::{
    accepts, finite, fresh, rewound_keys, times_of, vals_of, yields, Contents, Position,
};
use crate::trace::cursor::listing::{copies_groups, is_listing};
use crate::trace::cursor::{materializes, Cursor};
use vstd::prelude::*;
use vstd::seq_lib::seq_to_set_is_finite;

verus! {

/// What a batch of byte-keyed updates holds.
pub type ByteContents = Contents<Seq<u8>, Seq<u8>, u64, isize>;

struct ValGroup {
    val: Vec<u8>,
    updates: Vec<(u64, isize)>,
}

struct KeyGroup {
    key: Vec<u8>,
    vals: Vec<ValGroup>,
}

/// An immutable batch of `(key, val, time, diff)` updates, ordered by key
/// and then by value.
pub struct MmapBatch {
    groups: Vec<KeyGroup>,
    updates: usize,
}

/// A position in an `MmapBatch`.
pub struct MmapCursor {
    key_pos: usize,
    val_pos: usize,
}

spec fn keys(groups: Seq<KeyGroup>) -> Seq<Seq<u8>> {
    Seq::new(groups.len(), |i: int| groups[i].key@)
}

spec fn vals(group: KeyGroup) -> Seq<Seq<u8>> {
    Seq::new(group.vals@.len(), |a: int| group.vals@[a].val@)
}

spec fn vals_map(group: KeyGroup) -> Map<Seq<u8>, Seq<(u64, isize)>> {
    vals(group).to_set().mk_map(|v: Seq<u8>| group.vals@[vals(group).index_of(v)].updates@)
}

spec fn groups_map(groups: Seq<KeyGroup>) -> ByteContents {
    keys(groups).to_set().mk_map(|k: Seq<u8>| vals_map(groups[keys(groups).index_of(k)]))
}

spec fn groups_wf(groups: Seq<KeyGroup>) -> bool {
    &&& strictly_ascending::<[u8]>(keys(groups))
    &&& forall|i: int|
        0 <= i < groups.len() ==> strictly_ascending::<Vec<u8>>(vals(#[trigger] groups[i]))
}

/// No key of `c` comes after `key`, and no value of `key` after `val`: the
/// pair can be added at the end.
pub open spec fn admits(c: ByteContents, key: Seq<u8>, val: Seq<u8>) -> bool {
    &&& forall|k: Seq<u8>| c.dom().contains(k) ==> !bytes_precede(key, k)
    &&& forall|v: Seq<u8>| vals_of(c, key).dom().contains(v) ==> !bytes_precede(val, v)
}

/// `c` with `update` added as the last update of `(key, val)`.
pub open spec fn appended(
    c: ByteContents,
    key: Seq<u8>,
    val: Seq<u8>,
    update: (u64, isize),
) -> ByteContents {
    c.insert(key, vals_of(c, key).insert(val, times_of(c, key, val).push(update)))
}

/// The places of the updates of `c`: key, value, and index under them.
pub open spec fn update_slots(c: ByteContents) -> Set<(Seq<u8>, Seq<u8>, int)> {
    Set::new(|slot: (Seq<u8>, Seq<u8>, int)| 0 <= slot.2 < times_of(c, slot.0, slot.1).len())
}

/// How many updates `c` holds.
pub open spec fn update_count(c: ByteContents) -> nat {
    update_slots(c).len()
}

proof fn lemma_group(groups: Seq<KeyGroup>, i: int)
    requires
        groups_wf(groups),
        0 <= i < groups.len(),
    ensures
        groups_map(groups).dom() == keys(groups).to_set(),
        keys(groups)[i] == groups[i].key@,
        groups_map(groups).dom().contains(groups[i].key@),
        vals_of(groups_map(groups), groups[i].key@) == vals_map(groups[i]),
        vals_map(groups[i]).dom() == vals(groups[i]).to_set(),
        strictly_ascending::<Vec<u8>>(vals(groups[i])),
{
    lemma_ascending_index::<[u8]>(keys(groups), i);
}

proof fn lemma_slot(groups: Seq<KeyGroup>, i: int, a: int)
    requires
        groups_wf(groups),
        0 <= i < groups.len(),
        0 <= a < groups[i].vals@.len(),
    ensures
        vals(groups[i])[a] == groups[i].vals@[a].val@,
        vals_of(groups_map(groups), groups[i].key@).dom().contains(groups[i].vals@[a].val@),
        times_of(groups_map(groups), groups[i].key@, groups[i].vals@[a].val@)
            == groups[i].vals@[a].updates@,
{
    lemma_group(groups, i);
    lemma_ascending_index::<Vec<u8>>(vals(groups[i]), a);
}

proof fn lemma_absent(groups: Seq<KeyGroup>, k: Seq<u8>)
    requires
        !keys(groups).contains(k),
    ensures
        vals_of(groups_map(groups), k) == Map::<Seq<u8>, Seq<(u64, isize)>>::empty(),
{
}

proof fn lemma_groups_finite(groups: Seq<KeyGroup>)
    requires
        groups_wf(groups),
    ensures
        finite(groups_map(groups)),
{
    let c = groups_map(groups);
    seq_to_set_is_finite(keys(groups));
    assert forall|k: Seq<u8>| #[trigger] vals_of(c, k).dom().finite() by {
        if keys(groups).contains(k) {
            let i = keys(groups).index_of(k);
            lemma_group(groups, i);
            seq_to_set_is_finite(vals(groups[i]));
        }
    }
}

/// The value position `a` under the key at `i` is the first one.
proof fn lemma_fresh_at(groups: Seq<KeyGroup>, i: int)
    requires
        groups_wf(groups),
        0 <= i <= groups.len(),
    ensures
        fresh::<[u8], Vec<u8>, u64, isize>(groups_map(groups), place(groups, i, 0)),
{
    if i < groups.len() {
        lemma_group(groups, i);
        lemma_min_is_first::<Vec<u8>>(vals(groups[i]));
    }
}

/// The place of a cursor at key index `i` and value index `a`.
spec fn place(groups: Seq<KeyGroup>, i: int, a: int) -> Position<Seq<u8>, Seq<u8>> {
    Position {
        key: element_at(keys(groups), i),
        val: if 0 <= i < groups.len() {
            element_at(vals(groups[i]), a)
        } else {
            None
        },
    }
}

/// Adding an update at the end adds one slot.
proof fn lemma_appended_slots(c: ByteContents, key: Seq<u8>, val: Seq<u8>, update: (u64, isize))
    requires
        update_slots(c).finite(),
    ensures
        update_slots(appended(c, key, val, update)).finite(),
        update_count(appended(c, key, val, update)) == update_count(c) + 1,
{
    let n = times_of(c, key, val).len() as int;
    let next = appended(c, key, val, update);
    assert forall|k: Seq<u8>, v: Seq<u8>| #[trigger]
        times_of(next, k, v) == if k == key && v == val {
            times_of(c, key, val).push(update)
        } else {
            times_of(c, k, v)
        } by {
        if k == key {
            assert(vals_of(next, k) == vals_of(c, key).insert(val, times_of(c, key, val).push(update)));
        } else {
            assert(vals_of(next, k) == vals_of(c, k));
        }
    }
    assert(update_slots(next) =~= update_slots(c).insert((key, val, n))) by {
        assert forall|slot: (Seq<u8>, Seq<u8>, int)|
            update_slots(next).contains(slot) <==> update_slots(c).insert(
                (key, val, n),
            ).contains(slot) by {
            let t = times_of(next, slot.0, slot.1);
        }
    }
}

impl View for MmapBatch {
    type V = ByteContents;

    closed spec fn view(&self) -> ByteContents {
        groups_map(self.groups@)
    }
}

impl MmapBatch {
    /// The batch is ordered, and knows how many updates it holds.
    pub closed spec fn wf(&self) -> bool {
        &&& groups_wf(self.groups@)
        &&& update_slots(self@).finite()
        &&& self.updates == update_count(self@)
    }

    /// A batch without updates.
    pub fn new() -> (batch: Self)
        ensures
            batch.wf(),
            batch@ == Map::<Seq<u8>, Map<Seq<u8>, Seq<(u64, isize)>>>::empty(),
    {
        let batch = MmapBatch { groups: Vec::new(), updates: 0 };
        proof {
            assert(batch@ =~= Map::<Seq<u8>, Map<Seq<u8>, Seq<(u64, isize)>>>::empty());
            assert(update_slots(batch@) =~= Set::empty());
        }
        batch
    }

    /// Adds an update as the last one of `(key, val)`, provided that no
    /// pair of the batch comes after `(key, val)` and that the count of
    /// updates still fits. Says whether it did; a batch that did not is
    /// unchanged.
    pub fn push(&mut self, key: &[u8], val: &[u8], time: u64, diff: isize) -> (accepted: bool)
        requires
            old(self).wf(),
        ensures
            final(self).wf(),
            accepted == (admits(old(self)@, key@, val@) && update_count(old(self)@) < usize::MAX),
            final(self)@ == if accepted {
                appended(old(self)@, key@, val@, (time, diff))
            } else {
                old(self)@
            },
    {
        let ghost before = self.groups@;
        let ghost c = self@;
        let n = self.groups.len();
        let mut same_key = false;
        if n > 0 {
            proof {
                lemma_group(before, n - 1);
            }
            match self.groups[n - 1].key.as_slice().compare(key) {
                Order::Less => {
                    proof {
                        lemma_bytes_asymmetric(before.last().key@, key@);
                    }
                },
                Order::Equal => {
                    proof {
                        lemma_bytes_connected(before.last().key@, key@, 0);
                    }
                    same_key = true;
                },
                Order::Greater => {
                    return false;
                },
            }
        }
        proof {
            lemma_admits_key(before, key@);
        }
        let mut same_val = false;
        if same_key {
            let m = self.groups[n - 1].vals.len();
            if m > 0 {
                proof {
                    lemma_slot(before, n - 1, m - 1);
                }
                match self.groups[n - 1].vals[m - 1].val.as_slice().compare(val) {
                    Order::Less => {
                        proof {
                            lemma_bytes_asymmetric(before.last().vals@.last().val@, val@);
                        }
                    },
                    Order::Equal => {
                        proof {
                            lemma_bytes_connected(before.last().vals@.last().val@, val@, 0);
                        }
                        same_val = true;
                    },
                    Order::Greater => {
                        return false;
                    },
                }
            }
            proof {
                lemma_admits_val(before, val@);
            }
        } else {
            proof {
                lemma_absent(before, key@);
            }
        }
        if self.updates == usize::MAX {
            return false;
        }
        let mut updates: Vec<(u64, isize)> = Vec::new();
        updates.push((time, diff));
        proof {
            assert(updates@ =~= seq![(time, diff)]);
        }
        if same_val {
            let mut group = self.groups.pop().unwrap();
            let mut last = group.vals.pop().unwrap();
            last.updates.push((time, diff));
            group.vals.push(last);
            self.groups.push(group);
            proof {
                lemma_push_same_val(before, self.groups@, (time, diff));
            }
        } else if same_key {
            let mut group = self.groups.pop().unwrap();
            group.vals.push(ValGroup { val: vstd::slice::slice_to_vec(val), updates });
            self.groups.push(group);
            proof {
                lemma_push_new_val(before, self.groups@, val@, (time, diff));
            }
        } else {
            let mut vals: Vec<ValGroup> = Vec::new();
            vals.push(ValGroup { val: vstd::slice::slice_to_vec(val), updates });
            self.groups.push(KeyGroup { key: vstd::slice::slice_to_vec(key), vals });
            proof {
                lemma_push_new_key(before, self.groups@, key@, val@, (time, diff));
            }
        }
        proof {
            lemma_appended_slots(c, key@, val@, (time, diff));
        }
        self.updates = self.updates + 1;
        true
    }

    /// A cursor at the first key of the batch and its first value.
    pub fn cursor(&self) -> (cursor: MmapCursor)
        requires
            self.wf(),
        ensures
            cursor.wf(self),
            rewound_keys::<[u8], Vec<u8>, u64, isize>(self@, cursor.position(self)),
    {
        proof {
            lemma_min_is_first::<[u8]>(keys(self.groups@));
            lemma_fresh_at(self.groups@, 0);
            if self.groups@.len() > 0 {
                lemma_group(self.groups@, 0);
            }
        }
        MmapCursor { key_pos: 0, val_pos: 0 }
    }

    /// The number of updates in the batch.
    pub fn len(&self) -> (n: usize)
        requires
            self.wf(),
        ensures
            n == update_count(self@),
    {
        self.updates
    }
}

/// Whether the batch admits `key` is decided by its last key.
proof fn lemma_admits_key(groups: Seq<KeyGroup>, key: Seq<u8>)
    requires
        groups_wf(groups),
    ensures
        groups.len() == 0 ==> groups_map(groups).dom() == Set::<Seq<u8>>::empty(),
        groups.len() > 0 && bytes_precede(key, groups.last().key@) ==> !admits(
            groups_map(groups),
            key,
            key,
        ),
        groups.len() > 0 && !bytes_precede(key, groups.last().key@) ==> forall|k: Seq<u8>|
            groups_map(groups).dom().contains(k) ==> !bytes_precede(key, k),
        groups.len() > 0 && bytes_precede(groups.last().key@, key) ==> !keys(groups).contains(key),
{
    let c = groups_map(groups);
    let n = groups.len() as int;
    if n == 0 {
        assert(c.dom() =~= Set::<Seq<u8>>::empty());
    } else {
        lemma_group(groups, n - 1);
        let last = groups.last().key@;
        assert forall|k: Seq<u8>| c.dom().contains(k) && !bytes_precede(
            key,
            last,
        ) implies !bytes_precede(key, k) by {
            let i = keys(groups).index_of(k);
            lemma_ascending_order::<[u8]>(keys(groups), i, n - 1);
            if bytes_precede(key, k) {
                if i < n - 1 {
                    lemma_bytes_transitive(key, k, last);
                }
            }
        }
        if bytes_precede(last, key) && keys(groups).contains(key) {
            let i = keys(groups).index_of(key);
            lemma_ascending_order::<[u8]>(keys(groups), i, n - 1);
            lemma_bytes_asymmetric(last, key);
        }
    }
}

/// Whether the last key of the batch admits `val` is decided by the last
/// value of that key.
proof fn lemma_admits_val(groups: Seq<KeyGroup>, val: Seq<u8>)
    requires
        groups_wf(groups),
        groups.len() > 0,
    ensures
        ({
            let group = groups.last();
            let under = vals_of(groups_map(groups), group.key@).dom();
            &&& group.vals@.len() == 0 ==> under == Set::<Seq<u8>>::empty()
            &&& group.vals@.len() > 0 && !bytes_precede(val, group.vals@.last().val@)
                ==> forall|v: Seq<u8>| under.contains(v) ==> !bytes_precede(val, v)
            &&& group.vals@.len() > 0 && bytes_precede(group.vals@.last().val@, val) ==> !vals(
                group,
            ).contains(val)
        }),
{
    let n = groups.len() as int;
    let group = groups.last();
    let m = group.vals@.len() as int;
    lemma_group(groups, n - 1);
    let under = vals_of(groups_map(groups), group.key@).dom();
    if m == 0 {
        assert(under =~= Set::<Seq<u8>>::empty());
    } else {
        let last = group.vals@.last().val@;
        lemma_slot(groups, n - 1, m - 1);
        assert forall|v: Seq<u8>| under.contains(v) && !bytes_precede(
            val,
            last,
        ) implies !bytes_precede(val, v) by {
            let a = vals(group).index_of(v);
            lemma_ascending_order::<Vec<u8>>(vals(group), a, m - 1);
            if bytes_precede(val, v) {
                if a < m - 1 {
                    lemma_bytes_transitive(val, v, last);
                }
            }
        }
        if bytes_precede(last, val) && vals(group).contains(val) {
            let a = vals(group).index_of(val);
            lemma_ascending_order::<Vec<u8>>(vals(group), a, m - 1);
            lemma_bytes_asymmetric(last, val);
        }
    }
}

/// A new last key with one value and one update.
proof fn lemma_push_new_key(
    before: Seq<KeyGroup>,
    after: Seq<KeyGroup>,
    key: Seq<u8>,
    val: Seq<u8>,
    update: (u64, isize),
)
    requires
        groups_wf(before),
        before.len() > 0 ==> bytes_precede(before.last().key@, key),
        after.len() == before.len() + 1,
        forall|i: int| 0 <= i < before.len() ==> after[i] == before[i],
        after.last().key@ == key,
        after.last().vals@.len() == 1,
        after.last().vals@[0].val@ == val,
        after.last().vals@[0].updates@ == seq![update],
    ensures
        groups_wf(after),
        groups_map(after) == appended(groups_map(before), key, val, update),
{
    let n = before.len() as int;
    assert(keys(after) =~= keys(before).push(key));
    assert(strictly_ascending::<[u8]>(keys(after))) by {
        assert forall|i: int, j: int| 0 <= i < j < keys(after).len() implies bytes_precede(
            #[trigger] keys(after)[i],
            #[trigger] keys(after)[j],
        ) by {
            if j < n {
                assert(bytes_precede(keys(before)[i], keys(before)[j]));
            } else if i < n - 1 {
                assert(bytes_precede(keys(before)[i], keys(before)[n - 1]));
                lemma_bytes_transitive(keys(before)[i], before.last().key@, key);
            }
        }
    }
    assert forall|i: int| 0 <= i < after.len() implies strictly_ascending::<Vec<u8>>(
        vals(#[trigger] after[i]),
    ) by {
        if i < n {
            assert(after[i] == before[i]);
        }
    }
    lemma_admits_key(before, key);
    let old_map = groups_map(before);
    let new_map = groups_map(after);
    let want = appended(old_map, key, val, update);
    lemma_absent(before, key);
    assert(times_of(old_map, key, val) =~= Seq::<(u64, isize)>::empty());
    assert(keys(after)[n] == key);
    assert forall|k: Seq<u8>| new_map.dom().contains(k) <==> want.dom().contains(k) by {
        if keys(before).contains(k) {
            let i = keys(before).index_of(k);
            assert(keys(after)[i] == k);
        }
        if keys(after).contains(k) {
            let i = keys(after).index_of(k);
            if i < n {
                assert(keys(before)[i] == k);
            }
        }
    }
    assert forall|k: Seq<u8>| new_map.dom().contains(k) implies #[trigger] new_map[k] == want[k] by {
        let i = keys(after).index_of(k);
        lemma_group(after, i);
        if i < n {
            lemma_group(before, i);
            lemma_ascending_order::<[u8]>(keys(after), i, n);
        } else {
            lemma_slot(after, n, 0);
            assert(vals(after[n]) =~= seq![val]);
            assert(vals_map(after[n]) =~= Map::<Seq<u8>, Seq<(u64, isize)>>::empty().insert(
                val,
                seq![update],
            )) by {
                assert(vals(after[n]).to_set() =~= Set::<Seq<u8>>::empty().insert(val)) by {
                    assert(vals(after[n])[0] == val);
                }
            }
            assert(Seq::<(u64, isize)>::empty().push(update) =~= seq![update]);
        }
    }
    assert(new_map =~= want);
}

/// A new last value, with one update, under the last key.
proof fn lemma_push_new_val(
    before: Seq<KeyGroup>,
    after: Seq<KeyGroup>,
    val: Seq<u8>,
    update: (u64, isize),
)
    requires
        groups_wf(before),
        before.len() > 0,
        before.last().vals@.len() > 0 ==> bytes_precede(before.last().vals@.last().val@, val),
        after.len() == before.len(),
        forall|i: int| 0 <= i < before.len() - 1 ==> after[i] == before[i],
        after.last().key@ == before.last().key@,
        after.last().vals@.len() == before.last().vals@.len() + 1,
        forall|a: int|
            0 <= a < before.last().vals@.len() ==> after.last().vals@[a] == before.last().vals@[a],
        after.last().vals@.last().val@ == val,
        after.last().vals@.last().updates@ == seq![update],
    ensures
        groups_wf(after),
        groups_map(after) == appended(groups_map(before), before.last().key@, val, update),
{
    let n = before.len() as int;
    let key = before.last().key@;
    let was = before.last();
    let now = after.last();
    let m = was.vals@.len() as int;
    assert(keys(after) =~= keys(before));
    assert(vals(now) =~= vals(was).push(val));
    lemma_group(before, n - 1);
    assert(strictly_ascending::<Vec<u8>>(vals(now))) by {
        assert forall|a: int, b: int| 0 <= a < b < vals(now).len() implies bytes_precede(
            #[trigger] vals(now)[a],
            #[trigger] vals(now)[b],
        ) by {
            if b < m {
                assert(bytes_precede(vals(was)[a], vals(was)[b]));
            } else if a < m - 1 {
                assert(bytes_precede(vals(was)[a], vals(was)[m - 1]));
                lemma_bytes_transitive(vals(was)[a], was.vals@.last().val@, val);
            }
        }
    }
    assert forall|i: int| 0 <= i < after.len() implies strictly_ascending::<Vec<u8>>(
        vals(#[trigger] after[i]),
    ) by {
        if i < n - 1 {
            assert(after[i] == before[i]);
        }
    }
    lemma_admits_val(before, val);
    let old_map = groups_map(before);
    let new_map = groups_map(after);
    let want = appended(old_map, key, val, update);
    assert(!vals_of(old_map, key).dom().contains(val));
    assert(times_of(old_map, key, val) =~= Seq::<(u64, isize)>::empty());
    assert(Seq::<(u64, isize)>::empty().push(update) =~= seq![update]);
    assert(new_map.dom() =~= want.dom());
    assert forall|k: Seq<u8>| new_map.dom().contains(k) implies #[trigger] new_map[k] == want[k] by {
        let i = keys(after).index_of(k);
        lemma_group(after, i);
        lemma_group(before, i);
        lemma_ascending_order::<[u8]>(keys(after), i, n - 1);
        if i == n - 1 {
            let have = vals_map(now);
            let had = vals_map(was);
            assert(have.dom() =~= had.dom().insert(val)) by {
                assert forall|v: Seq<u8>| have.dom().contains(v) <==> had.dom().insert(
                    val,
                ).contains(v) by {
                    if vals(was).contains(v) {
                        let a = vals(was).index_of(v);
                        assert(vals(now)[a] == v);
                    }
                    if vals(now).contains(v) {
                        let a = vals(now).index_of(v);
                        if a < m {
                            assert(vals(was)[a] == v);
                        }
                    }
                    assert(vals(now)[m] == val);
                }
            }
            assert forall|v: Seq<u8>| have.dom().contains(v) implies #[trigger] have[v]
                == had.insert(val, seq![update])[v] by {
                let a = vals(now).index_of(v);
                lemma_ascending_order::<Vec<u8>>(vals(now), a, m);
                if a < m {
                    lemma_ascending_index::<Vec<u8>>(vals(was), a);
                }
            }
            assert(have =~= had.insert(val, seq![update]));
        }
    }
    assert(new_map =~= want);
}

/// One more update under the last value of the last key.
proof fn lemma_push_same_val(before: Seq<KeyGroup>, after: Seq<KeyGroup>, update: (u64, isize))
    requires
        groups_wf(before),
        before.len() > 0,
        before.last().vals@.len() > 0,
        after.len() == before.len(),
        forall|i: int| 0 <= i < before.len() - 1 ==> after[i] == before[i],
        after.last().key@ == before.last().key@,
        after.last().vals@.len() == before.last().vals@.len(),
        forall|a: int|
            0 <= a < before.last().vals@.len() - 1 ==> after.last().vals@[a]
                == before.last().vals@[a],
        after.last().vals@.last().val@ == before.last().vals@.last().val@,
        after.last().vals@.last().updates@ == before.last().vals@.last().updates@.push(update),
    ensures
        groups_wf(after),
        groups_map(after) == appended(
            groups_map(before),
            before.last().key@,
            before.last().vals@.last().val@,
            update,
        ),
{
    let n = before.len() as int;
    let key = before.last().key@;
    let was = before.last();
    let now = after.last();
    let m = was.vals@.len() as int;
    let val = was.vals@.last().val@;
    assert(keys(after) =~= keys(before));
    assert(vals(now) =~= vals(was));
    lemma_group(before, n - 1);
    assert forall|i: int| 0 <= i < after.len() implies strictly_ascending::<Vec<u8>>(
        vals(#[trigger] after[i]),
    ) by {
        if i < n - 1 {
            assert(after[i] == before[i]);
        }
    }
    lemma_slot(before, n - 1, m - 1);
    let old_map = groups_map(before);
    let new_map = groups_map(after);
    let want = appended(old_map, key, val, update);
    assert(new_map.dom() =~= want.dom());
    assert forall|k: Seq<u8>| new_map.dom().contains(k) implies #[trigger] new_map[k] == want[k] by {
        let i = keys(after).index_of(k);
        lemma_group(after, i);
        lemma_group(before, i);
        lemma_ascending_order::<[u8]>(keys(after), i, n - 1);
        if i == n - 1 {
            let have = vals_map(now);
            let had = vals_map(was);
            let longer = was.vals@.last().updates@.push(update);
            assert(have.dom() =~= had.insert(val, longer).dom());
            assert forall|v: Seq<u8>| have.dom().contains(v) implies #[trigger] have[v]
                == had.insert(val, longer)[v] by {
                let a = vals(now).index_of(v);
                lemma_ascending_order::<Vec<u8>>(vals(now), a, m - 1);
                lemma_ascending_index::<Vec<u8>>(vals(was), a);
            }
            assert(have =~= had.insert(val, longer));
        }
    }
    assert(new_map =~= want);
}

/// The index of the first key from `lo` on that does not come before
/// `target`, found by bisection.
fn first_key_from(groups: &Vec<KeyGroup>, lo: usize, target: &[u8]) -> (at: usize)
    requires
        groups_wf(groups@),
        lo <= groups@.len(),
        forall|i: int| 0 <= i < lo ==> bytes_precede(#[trigger] keys(groups@)[i], target@),
    ensures
        lo <= at <= groups@.len(),
        forall|i: int| 0 <= i < at ==> bytes_precede(#[trigger] keys(groups@)[i], target@),
        forall|i: int| at <= i < groups@.len() ==> !bytes_precede(
            #[trigger] keys(groups@)[i],
            target@,
        ),
{
    let mut low = lo;
    let mut high = groups.len();
    while low < high
        invariant
            groups_wf(groups@),
            lo <= low <= high <= groups@.len(),
            forall|i: int| 0 <= i < low ==> bytes_precede(#[trigger] keys(groups@)[i], target@),
            forall|i: int|
                high <= i < groups@.len() ==> !bytes_precede(#[trigger] keys(groups@)[i], target@),
        decreases high - low,
    {
        let mid = low + (high - low) / 2;
        let ghost xs = keys(groups@);
        match groups[mid].key.as_slice().compare(target) {
            Order::Less => {
                proof {
                    assert forall|i: int| 0 <= i < mid + 1 implies bytes_precede(
                        #[trigger] xs[i],
                        target@,
                    ) by {
                        if i < mid {
                            lemma_ascending_order::<[u8]>(xs, i, mid as int);
                            lemma_bytes_transitive(xs[i], xs[mid as int], target@);
                        }
                    }
                }
                low = mid + 1;
            },
            _ => {
                proof {
                    assert forall|i: int| mid <= i < xs.len() implies !bytes_precede(
                        #[trigger] xs[i],
                        target@,
                    ) by {
                        if mid < i && bytes_precede(xs[i], target@) {
                            lemma_ascending_order::<[u8]>(xs, mid as int, i);
                            lemma_bytes_transitive(xs[mid as int], xs[i], target@);
                        }
                    }
                }
                high = mid;
            },
        }
    }
    low
}

/// The index of the first value from `lo` on that does not come before
/// `target`, found by bisection.
fn first_val_from(group: &KeyGroup, lo: usize, target: &[u8]) -> (at: usize)
    requires
        strictly_ascending::<Vec<u8>>(vals(*group)),
        lo <= group.vals@.len(),
        forall|a: int| 0 <= a < lo ==> bytes_precede(#[trigger] vals(*group)[a], target@),
    ensures
        lo <= at <= group.vals@.len(),
        forall|a: int| 0 <= a < at ==> bytes_precede(#[trigger] vals(*group)[a], target@),
        forall|a: int|
            at <= a < group.vals@.len() ==> !bytes_precede(#[trigger] vals(*group)[a], target@),
{
    let mut low = lo;
    let mut high = group.vals.len();
    while low < high
        invariant
            strictly_ascending::<Vec<u8>>(vals(*group)),
            lo <= low <= high <= group.vals@.len(),
            forall|a: int| 0 <= a < low ==> bytes_precede(#[trigger] vals(*group)[a], target@),
            forall|a: int|
                high <= a < group.vals@.len() ==> !bytes_precede(
                    #[trigger] vals(*group)[a],
                    target@,
                ),
        decreases high - low,
    {
        let mid = low + (high - low) / 2;
        let ghost xs = vals(*group);
        match group.vals[mid].val.as_slice().compare(target) {
            Order::Less => {
                proof {
                    assert forall|a: int| 0 <= a < mid + 1 implies bytes_precede(
                        #[trigger] xs[a],
                        target@,
                    ) by {
                        if a < mid {
                            lemma_ascending_order::<Vec<u8>>(xs, a, mid as int);
                            lemma_bytes_transitive(xs[a], xs[mid as int], target@);
                        }
                    }
                }
                low = mid + 1;
            },
            _ => {
                proof {
                    assert forall|a: int| mid <= a < xs.len() implies !bytes_precede(
                        #[trigger] xs[a],
                        target@,
                    ) by {
                        if mid < a && bytes_precede(xs[a], target@) {
                            lemma_ascending_order::<Vec<u8>>(xs, mid as int, a);
                            lemma_bytes_transitive(xs[mid as int], xs[a], target@);
                        }
                    }
                }
                high = mid;
            },
        }
    }
    low
}

impl Cursor<Vec<u8>, Vec<u8>, u64, isize> for MmapCursor {
    type Storage = MmapBatch;

    open spec fn contents(storage: &MmapBatch) -> ByteContents {
        storage@
    }

    closed spec fn wf(&self, storage: &MmapBatch) -> bool {
        &&& storage.wf()
        &&& self.key_pos <= storage.groups@.len()
        &&& if self.key_pos < storage.groups@.len() {
            self.val_pos <= storage.groups@[self.key_pos as int].vals@.len()
        } else {
            self.val_pos == 0
        }
    }

    closed spec fn position(&self, storage: &MmapBatch) -> Position<Seq<u8>, Seq<u8>> {
        place(storage.groups@, self.key_pos as int, self.val_pos as int)
    }

    proof fn lemma_wf(&self, storage: &MmapBatch) {
        let groups = storage.groups@;
        lemma_groups_finite(groups);
        if self.key_pos < groups.len() {
            lemma_group(groups, self.key_pos as int);
            if self.val_pos < groups[self.key_pos as int].vals@.len() {
                lemma_slot(groups, self.key_pos as int, self.val_pos as int);
            }
        }
    }

    fn key_valid(&self, storage: &MmapBatch) -> (valid: bool) {
        self.key_pos < storage.groups.len()
    }

    fn val_valid(&self, storage: &MmapBatch) -> (valid: bool) {
        self.key_pos < storage.groups.len() && self.val_pos
            < storage.groups[self.key_pos].vals.len()
    }

    fn key<'a>(&self, storage: &'a MmapBatch) -> (key: &'a [u8]) {
        storage.groups[self.key_pos].key.as_slice()
    }

    fn val<'a>(&self, storage: &'a MmapBatch) -> (val: &'a Vec<u8>) {
        &storage.groups[self.key_pos].vals[self.val_pos].val
    }

    fn map_times<U, L: Fn(&u64, &isize) -> U>(&mut self, storage: &MmapBatch, logic: &L) -> (out:
        Vec<U>) {
        let mut out: Vec<U> = Vec::new();
        if self.key_pos < storage.groups.len() && self.val_pos
            < storage.groups[self.key_pos].vals.len() {
            let updates = &storage.groups[self.key_pos].vals[self.val_pos].updates;
            proof {
                lemma_slot(storage.groups@, self.key_pos as int, self.val_pos as int);
            }
            let mut i: usize = 0;
            while i < updates.len()
                invariant
                    i <= updates@.len(),
                    accepts(*logic, updates@),
                    yields(*logic, updates@.take(i as int), out@),
                decreases updates@.len() - i,
            {
                let given = logic(&updates[i].0, &updates[i].1);
                out.push(given);
                i += 1;
            }
            proof {
                assert(updates@.take(i as int) == updates@);
            }
        }
        out
    }

    fn step_key(&mut self, storage: &MmapBatch) {
        if self.key_pos < storage.groups.len() {
            proof {
                lemma_group(storage.groups@, self.key_pos as int);
                lemma_min_above_is_next::<[u8]>(keys(storage.groups@), self.key_pos as int);
                lemma_fresh_at(storage.groups@, self.key_pos + 1);
            }
            self.key_pos = self.key_pos + 1;
            self.val_pos = 0;
        }
    }

    fn seek_key(&mut self, storage: &MmapBatch, key: &[u8]) {
        if self.key_pos < storage.groups.len() {
            proof {
                lemma_group(storage.groups@, self.key_pos as int);
            }
            match storage.groups[self.key_pos].key.as_slice().compare(key) {
                Order::Less => {
                    proof {
                        let xs = keys(storage.groups@);
                        assert forall|i: int| 0 <= i < self.key_pos + 1 implies bytes_precede(
                            #[trigger] xs[i],
                            key@,
                        ) by {
                            if i < self.key_pos {
                                lemma_ascending_order::<[u8]>(xs, i, self.key_pos as int);
                                lemma_bytes_transitive(xs[i], xs[self.key_pos as int], key@);
                            }
                        }
                    }
                    let at = first_key_from(&storage.groups, self.key_pos + 1, key);
                    proof {
                        lemma_min_from_is_bound::<[u8]>(keys(storage.groups@), at as int, key@);
                        lemma_fresh_at(storage.groups@, at as int);
                    }
                    self.key_pos = at;
                    self.val_pos = 0;
                },
                _ => {},
            }
        }
    }

    fn step_val(&mut self, storage: &MmapBatch) {
        if self.key_pos < storage.groups.len() && self.val_pos
            < storage.groups[self.key_pos].vals.len() {
            proof {
                lemma_slot(storage.groups@, self.key_pos as int, self.val_pos as int);
                lemma_min_above_is_next::<Vec<u8>>(
                    vals(storage.groups@[self.key_pos as int]),
                    self.val_pos as int,
                );
            }
            self.val_pos = self.val_pos + 1;
        }
    }

    fn seek_val(&mut self, storage: &MmapBatch, val: &Vec<u8>) {
        if self.key_pos < storage.groups.len() && self.val_pos
            < storage.groups[self.key_pos].vals.len() {
            let group = &storage.groups[self.key_pos];
            proof {
                lemma_slot(storage.groups@, self.key_pos as int, self.val_pos as int);
            }
            match group.vals[self.val_pos].val.as_slice().compare(val.as_slice()) {
                Order::Less => {
                    proof {
                        let xs = vals(*group);
                        assert forall|a: int| 0 <= a < self.val_pos + 1 implies bytes_precede(
                            #[trigger] xs[a],
                            val@,
                        ) by {
                            if a < self.val_pos {
                                lemma_ascending_order::<Vec<u8>>(xs, a, self.val_pos as int);
                                lemma_bytes_transitive(xs[a], xs[self.val_pos as int], val@);
                            }
                        }
                    }
                    let at = first_val_from(group, self.val_pos + 1, val.as_slice());
                    proof {
                        lemma_min_from_is_bound::<Vec<u8>>(vals(*group), at as int, val@);
                    }
                    self.val_pos = at;
                },
                _ => {},
            }
        }
    }

    fn rewind_keys(&mut self, storage: &MmapBatch) {
        proof {
            lemma_min_is_first::<[u8]>(keys(storage.groups@));
            lemma_fresh_at(storage.groups@, 0);
            if storage.groups@.len() > 0 {
                lemma_group(storage.groups@, 0);
            }
        }
        self.key_pos = 0;
        self.val_pos = 0;
    }

    fn rewind_vals(&mut self, storage: &MmapBatch) {
        proof {
            lemma_fresh_at(storage.groups@, self.key_pos as int);
        }
        self.val_pos = 0;
    }
}

/// `out` holds, for each of `pairs` in order, the key, the value and the
/// updates that `c` has there.
pub open spec fn shows(
    c: ByteContents,
    pairs: Seq<(Seq<u8>, Seq<u8>)>,
    out: Seq<((Vec<u8>, Vec<u8>), Vec<(u64, isize)>)>,
) -> bool {
    &&& out.len() == pairs.len()
    &&& forall|i: int|
        0 <= i < pairs.len() ==> {
            &&& (#[trigger] out[i]).0.0@ == pairs[i].0
            &&& out[i].0.1@ == pairs[i].1
            &&& out[i].1@ == times_of(c, pairs[i].0, pairs[i].1)
        }
}

/// A clone of a byte string, of a time or of a difference equals what it
/// was made from. So what writing out a source of such updates gives is
/// the source itself, pair by pair: the keys, the values and the updates
/// are those of the source, in ascending order of the pairs.
pub proof fn lemma_materialized_bytes(
    c: ByteContents,
    out: Seq<((Vec<u8>, Vec<u8>), Vec<(u64, isize)>)>,
)
    requires
        materializes::<Vec<u8>, Vec<u8>, u64, isize>(c, out),
    ensures
        exists|pairs: Seq<(Seq<u8>, Seq<u8>)>|
            is_listing::<[u8], Vec<u8>, u64, isize>(c, pairs) && #[trigger] shows(c, pairs, out),
{
    let pairs = choose|pairs: Seq<(Seq<u8>, Seq<u8>)>|
        #![trigger copies_groups::<Vec<u8>, Vec<u8>, u64, isize>(c, pairs, out)]
        is_listing::<[u8], Vec<u8>, u64, isize>(c, pairs) && copies_groups::<
            Vec<u8>,
            Vec<u8>,
            u64,
            isize,
        >(c, pairs, out);
    assert forall|i: int| 0 <= i < pairs.len() implies {
        &&& (#[trigger] out[i]).0.0@ == pairs[i].0
        &&& out[i].0.1@ == pairs[i].1
        &&& out[i].1@ == times_of(c, pairs[i].0, pairs[i].1)
    } by {
        let source = choose|source: Vec<u8>|
            source@ == pairs[i].1 && #[trigger] cloned(source, out[i].0.1);
        assert(source@ =~= out[i].0.1@);
        let times = times_of(c, pairs[i].0, pairs[i].1);
        let got = out[i].1@;
        assert forall|j: int| 0 <= j < times.len() implies times[j] == got[j] by {
            assert(cloned(times[j].0, got[j].0));
            assert(cloned(times[j].1, got[j].1));
        }
        assert(got =~= times);
    }
    assert(shows(c, pairs, out));
}

} // verus!
