use trace_cursor::trace::cursor::{Cursor, CursorDebug, CursorList, CursorPair};
use trace_cursor::trace::implementations::mmap::{MmapBatch, MmapCursor};

type Group = ((Vec<u8>, Vec<u8>), Vec<(u64, isize)>);

fn batch(tuples: &[(&[u8], &[u8], u64, isize)]) -> MmapBatch {
    let mut batch = MmapBatch::new();
    for (key, val, time, diff) in tuples.iter() {
        assert!(batch.push(key, val, *time, *diff));
    }
    batch
}

fn group(key: &[u8], val: &[u8], times: &[(u64, isize)]) -> Group {
    ((key.to_vec(), val.to_vec()), times.to_vec())
}

fn pair(storage: &(MmapBatch, MmapBatch)) -> CursorPair<MmapCursor, MmapCursor> {
    CursorPair::new(storage.0.cursor(), storage.1.cursor(), storage)
}

fn list(storage: &Vec<MmapBatch>) -> CursorList<MmapCursor> {
    let cursors: Vec<MmapCursor> = storage.iter().map(|batch| batch.cursor()).collect();
    CursorList::new(cursors, storage)
}

fn first() -> MmapBatch {
    batch(&[
        (b"a", b"p", 1, 1),
        (b"a", b"r", 1, 1),
        (b"c", b"p", 2, 3),
        (b"d", b"q", 1, -1),
        (b"g", b"p", 1, 1),
    ])
}

fn second() -> MmapBatch {
    batch(&[
        (b"a", b"q", 5, 1),
        (b"a", b"r", 6, 2),
        (b"a", b"r", 7, 3),
        (b"b", b"p", 1, 1),
        (b"d", b"q", 1, 1),
        (b"f", b"z", 1, 1),
    ])
}

fn third() -> MmapBatch {
    batch(&[(b"a", b"r", 9, 9), (b"e", b"e", 1, 1), (b"g", b"o", 1, 1), (b"h", b"h", 1, 1)])
}

fn merged_groups() -> Vec<Group> {
    vec![
        group(b"a", b"p", &[(1, 1)]),
        group(b"a", b"q", &[(5, 1)]),
        group(b"a", b"r", &[(1, 1), (6, 2), (7, 3), (9, 9)]),
        group(b"b", b"p", &[(1, 1)]),
        group(b"c", b"p", &[(2, 3)]),
        group(b"d", b"q", &[(1, -1), (1, 1)]),
        group(b"e", b"e", &[(1, 1)]),
        group(b"f", b"z", &[(1, 1)]),
        group(b"g", b"o", &[(1, 1)]),
        group(b"g", b"p", &[(1, 1)]),
        group(b"h", b"h", &[(1, 1)]),
    ]
}

#[test]
fn pair_interleaves_two_sources() {
    let storage = (
        batch(&[(b"a", b"1", 1, 1), (b"c", b"1", 1, 1)]),
        batch(&[(b"b", b"1", 1, 1)]),
    );
    let mut cursor = pair(&storage);
    let out: Vec<Group> = cursor.to_vec(&storage);
    assert_eq!(
        out,
        vec![
            group(b"a", b"1", &[(1, 1)]),
            group(b"b", b"1", &[(1, 1)]),
            group(b"c", b"1", &[(1, 1)]),
        ]
    );
}

#[test]
fn pair_of_a_source_with_itself_has_every_update_twice() {
    let storage = (first(), first());
    let mut cursor = pair(&storage);
    let out: Vec<Group> = cursor.to_vec(&storage);
    assert_eq!(
        out,
        vec![
            group(b"a", b"p", &[(1, 1), (1, 1)]),
            group(b"a", b"r", &[(1, 1), (1, 1)]),
            group(b"c", b"p", &[(2, 3), (2, 3)]),
            group(b"d", b"q", &[(1, -1), (1, -1)]),
            group(b"g", b"p", &[(1, 1), (1, 1)]),
        ]
    );
}

#[test]
fn pair_merges_values_and_joins_updates() {
    let storage = (first(), second());
    let mut cursor = pair(&storage);
    let out: Vec<Group> = cursor.to_vec(&storage);
    assert_eq!(
        out,
        vec![
            group(b"a", b"p", &[(1, 1)]),
            group(b"a", b"q", &[(5, 1)]),
            group(b"a", b"r", &[(1, 1), (6, 2), (7, 3)]),
            group(b"b", b"p", &[(1, 1)]),
            group(b"c", b"p", &[(2, 3)]),
            group(b"d", b"q", &[(1, -1), (1, 1)]),
            group(b"f", b"z", &[(1, 1)]),
            group(b"g", b"p", &[(1, 1)]),
        ]
    );
}

#[test]
fn pair_keeps_the_order_of_its_sources_in_the_updates() {
    let storage = (second(), first());
    let mut cursor = pair(&storage);
    cursor.seek_key(&storage, b"d");
    assert_eq!(cursor.key(&storage), &b"d"[..]);
    assert_eq!(cursor.val(&storage), &b"q".to_vec());
    let times = cursor.map_times(&storage, &|t: &u64, r: &isize| (*t, *r));
    assert_eq!(times, vec![(1, 1), (1, -1)]);
}

#[test]
fn pair_with_an_empty_side_passes_the_other_through() {
    let storage = (MmapBatch::new(), first());
    let mut cursor = pair(&storage);
    let out: Vec<Group> = cursor.to_vec(&storage);
    let mut alone = storage.1.cursor();
    let expected: Vec<Group> = alone.to_vec(&storage.1);
    assert_eq!(out, expected);
    let storage = (first(), MmapBatch::new());
    let mut cursor = pair(&storage);
    let out: Vec<Group> = cursor.to_vec(&storage);
    assert_eq!(out, expected);
    let storage = (MmapBatch::new(), MmapBatch::new());
    let mut cursor = pair(&storage);
    assert!(!cursor.key_valid(&storage));
    assert!(!cursor.val_valid(&storage));
    let out: Vec<Group> = cursor.to_vec(&storage);
    assert_eq!(out, vec![]);
}

#[test]
fn pair_goes_on_with_one_side_when_the_other_is_exhausted() {
    let storage = (batch(&[(b"a", b"1", 1, 1)]), batch(&[(b"b", b"1", 1, 1), (b"c", b"2", 1, 1)]));
    let mut cursor = pair(&storage);
    assert_eq!(cursor.key(&storage), &b"a"[..]);
    cursor.step_key(&storage);
    assert_eq!(cursor.key(&storage), &b"b"[..]);
    cursor.step_key(&storage);
    assert_eq!(cursor.key(&storage), &b"c"[..]);
    assert_eq!(cursor.val(&storage), &b"2".to_vec());
    cursor.step_key(&storage);
    assert!(!cursor.key_valid(&storage));
    cursor.step_key(&storage);
    assert!(!cursor.key_valid(&storage));
    cursor.rewind_keys(&storage);
    assert_eq!(cursor.key(&storage), &b"a"[..]);
}

#[test]
fn pair_steps_and_seeks_through_values() {
    let storage = (first(), second());
    let mut cursor = pair(&storage);
    assert_eq!(cursor.key(&storage), &b"a"[..]);
    assert_eq!(cursor.val(&storage), &b"p".to_vec());
    cursor.step_val(&storage);
    assert_eq!(cursor.val(&storage), &b"q".to_vec());
    cursor.step_val(&storage);
    assert_eq!(cursor.val(&storage), &b"r".to_vec());
    cursor.step_val(&storage);
    assert!(!cursor.val_valid(&storage));
    assert!(cursor.key_valid(&storage));
    cursor.rewind_vals(&storage);
    assert_eq!(cursor.val(&storage), &b"p".to_vec());
    cursor.seek_val(&storage, &b"pp".to_vec());
    assert_eq!(cursor.val(&storage), &b"q".to_vec());
    cursor.seek_val(&storage, &b"a".to_vec());
    assert_eq!(cursor.val(&storage), &b"q".to_vec());
    cursor.seek_val(&storage, &b"r".to_vec());
    assert_eq!(cursor.val(&storage), &b"r".to_vec());
    cursor.seek_val(&storage, &b"s".to_vec());
    assert!(!cursor.val_valid(&storage));
    assert_eq!(cursor.key(&storage), &b"a"[..]);
}

#[test]
fn pair_seeks_keys_in_both_sources() {
    let storage = (first(), second());
    let mut cursor = pair(&storage);
    cursor.seek_key(&storage, b"d");
    assert_eq!(cursor.key(&storage), &b"d"[..]);
    cursor.seek_key(&storage, b"b");
    assert_eq!(cursor.key(&storage), &b"d"[..]);
    cursor.seek_key(&storage, b"e");
    assert_eq!(cursor.key(&storage), &b"f"[..]);
    assert_eq!(cursor.val(&storage), &b"z".to_vec());
    cursor.seek_key(&storage, b"fa");
    assert_eq!(cursor.key(&storage), &b"g"[..]);
    cursor.seek_key(&storage, b"h");
    assert!(!cursor.key_valid(&storage));
    assert!(cursor.get_key(&storage).is_none());
    cursor.seek_key(&storage, b"a");
    assert!(!cursor.key_valid(&storage));
}

#[test]
fn pair_of_pairs_merges_three_sources() {
    let storage = ((first(), second()), third());
    let inner = CursorPair::new(storage.0 .0.cursor(), storage.0 .1.cursor(), &storage.0);
    let mut cursor = CursorPair::new(inner, storage.1.cursor(), &storage);
    let out: Vec<Group> = cursor.to_vec(&storage);
    assert_eq!(out, merged_groups());
}

#[test]
fn list_of_none_has_no_key() {
    let storage: Vec<MmapBatch> = Vec::new();
    let mut cursor = list(&storage);
    assert!(!cursor.key_valid(&storage));
    assert!(!cursor.val_valid(&storage));
    assert!(cursor.get_key(&storage).is_none());
    cursor.step_key(&storage);
    cursor.rewind_keys(&storage);
    assert!(!cursor.key_valid(&storage));
    let out: Vec<Group> = cursor.to_vec(&storage);
    assert_eq!(out, vec![]);
}

#[test]
fn list_of_one_is_that_one() {
    let storage = vec![second()];
    let mut cursor = list(&storage);
    let out: Vec<Group> = cursor.to_vec(&storage);
    let mut alone = storage[0].cursor();
    let expected: Vec<Group> = alone.to_vec(&storage[0]);
    assert_eq!(out, expected);
    cursor.rewind_keys(&storage);
    alone.rewind_keys(&storage[0]);
    cursor.seek_key(&storage, b"c");
    alone.seek_key(&storage[0], b"c");
    assert_eq!(cursor.key(&storage), alone.key(&storage[0]));
    assert_eq!(cursor.val(&storage), alone.val(&storage[0]));
}

#[test]
fn list_merges_as_sorting_all_groups_does() {
    let storage = vec![first(), second(), third()];
    let mut cursor = list(&storage);
    let out: Vec<Group> = cursor.to_vec(&storage);
    assert_eq!(out, merged_groups());
    let mut all: Vec<Group> = Vec::new();
    for source in storage.iter() {
        let mut alone = source.cursor();
        let groups: Vec<Group> = alone.to_vec(source);
        for (pair, times) in groups {
            match all.iter_mut().find(|entry| entry.0 == pair) {
                Some(entry) => entry.1.extend(times),
                None => all.push((pair, times)),
            }
        }
    }
    all.sort_by(|a, b| a.0.cmp(&b.0));
    assert_eq!(out, all);
}

#[test]
fn list_agrees_with_nested_pairs() {
    let storage = vec![first(), second(), third()];
    let mut cursor = list(&storage);
    let out: Vec<Group> = cursor.to_vec(&storage);
    let nested = ((first(), second()), third());
    let inner = CursorPair::new(nested.0 .0.cursor(), nested.0 .1.cursor(), &nested.0);
    let mut pairs = CursorPair::new(inner, nested.1.cursor(), &nested);
    let expected: Vec<Group> = pairs.to_vec(&nested);
    assert_eq!(out, expected);
}

#[test]
fn list_of_the_same_source_three_times() {
    let storage = vec![third(), third(), third()];
    let mut cursor = list(&storage);
    let out: Vec<Group> = cursor.to_vec(&storage);
    assert_eq!(
        out,
        vec![
            group(b"a", b"r", &[(9, 9), (9, 9), (9, 9)]),
            group(b"e", b"e", &[(1, 1), (1, 1), (1, 1)]),
            group(b"g", b"o", &[(1, 1), (1, 1), (1, 1)]),
            group(b"h", b"h", &[(1, 1), (1, 1), (1, 1)]),
        ]
    );
}

#[test]
fn list_steps_over_keys_and_values() {
    let storage = vec![first(), second(), third()];
    let mut cursor = list(&storage);
    assert_eq!(cursor.key(&storage), &b"a"[..]);
    assert_eq!(cursor.val(&storage), &b"p".to_vec());
    cursor.step_val(&storage);
    assert_eq!(cursor.val(&storage), &b"q".to_vec());
    cursor.step_val(&storage);
    assert_eq!(cursor.val(&storage), &b"r".to_vec());
    let times = cursor.map_times(&storage, &|t: &u64, r: &isize| (*t, *r));
    assert_eq!(times, vec![(1, 1), (6, 2), (7, 3), (9, 9)]);
    cursor.step_val(&storage);
    assert!(!cursor.val_valid(&storage));
    let times = cursor.map_times(&storage, &|t: &u64, r: &isize| (*t, *r));
    assert_eq!(times, vec![]);
    cursor.rewind_vals(&storage);
    assert_eq!(cursor.val(&storage), &b"p".to_vec());
    cursor.step_key(&storage);
    assert_eq!(cursor.key(&storage), &b"b"[..]);
    assert_eq!(cursor.val(&storage), &b"p".to_vec());
    cursor.step_key(&storage);
    assert_eq!(cursor.key(&storage), &b"c"[..]);
}

#[test]
fn list_seeks_in_every_source() {
    let storage = vec![first(), second(), third()];
    let mut cursor = list(&storage);
    cursor.seek_key(&storage, b"d");
    assert_eq!(cursor.key(&storage), &b"d"[..]);
    let times = cursor.map_times(&storage, &|t: &u64, r: &isize| (*t, *r));
    assert_eq!(times, vec![(1, -1), (1, 1)]);
    cursor.seek_key(&storage, b"a");
    assert_eq!(cursor.key(&storage), &b"d"[..]);
    cursor.seek_key(&storage, b"g");
    assert_eq!(cursor.key(&storage), &b"g"[..]);
    assert_eq!(cursor.val(&storage), &b"o".to_vec());
    cursor.seek_val(&storage, &b"oo".to_vec());
    assert_eq!(cursor.val(&storage), &b"p".to_vec());
    cursor.seek_val(&storage, &b"a".to_vec());
    assert_eq!(cursor.val(&storage), &b"p".to_vec());
    cursor.seek_val(&storage, &b"q".to_vec());
    assert!(!cursor.val_valid(&storage));
    cursor.seek_key(&storage, b"i");
    assert!(!cursor.key_valid(&storage));
    assert!(!cursor.val_valid(&storage));
    cursor.step_key(&storage);
    cursor.seek_key(&storage, b"a");
    cursor.rewind_vals(&storage);
    assert!(!cursor.key_valid(&storage));
    cursor.rewind_keys(&storage);
    assert_eq!(cursor.key(&storage), &b"a"[..]);
    cursor.rewind_keys(&storage);
    assert_eq!(cursor.key(&storage), &b"a"[..]);
    assert_eq!(cursor.val(&storage), &b"p".to_vec());
}

#[test]
fn list_rewinds_cursors_that_were_moved() {
    let storage = vec![first(), second()];
    let mut moved = storage[0].cursor();
    moved.seek_key(&storage[0], b"g");
    let cursors = vec![moved, storage[1].cursor()];
    let mut cursor = CursorList::new(cursors, &storage);
    assert_eq!(cursor.key(&storage), &b"a"[..]);
    assert_eq!(cursor.val(&storage), &b"p".to_vec());
}
