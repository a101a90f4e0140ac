use trace_cursor::trace::cursor::{Cursor, CursorDebug};
use trace_cursor::trace::implementations::mmap::{MmapBatch, MmapCursor};

type Group = ((Vec<u8>, Vec<u8>), Vec<(u64, isize)>);

fn batch(tuples: &[(&[u8], &[u8], u64, isize)]) -> MmapBatch {
    let mut batch = MmapBatch::new();
    for (key, val, time, diff) in tuples.iter() {
        assert!(batch.push(key, val, *time, *diff));
    }
    batch
}

fn group(key: &[u8], val: &[u8], times: &[(u64, isize)]) -> Group {
    ((key.to_vec(), val.to_vec()), times.to_vec())
}

fn times(cursor: &mut MmapCursor, batch: &MmapBatch) -> Vec<(u64, isize)> {
    cursor.map_times(batch, &|t: &u64, r: &isize| (*t, *r))
}

fn sample() -> MmapBatch {
    batch(&[
        (b"a", b"x", 1, 1),
        (b"a", b"x", 2, -1),
        (b"a", b"z", 1, 4),
        (b"c", b"y", 3, 2),
        (b"e", b"w", 1, 1),
        (b"e", b"x", 1, 1),
        (b"e", b"y", 5, 7),
    ])
}

#[test]
fn empty_batch_has_no_key() {
    let batch = MmapBatch::new();
    let mut cursor = batch.cursor();
    assert_eq!(batch.len(), 0);
    assert!(!cursor.key_valid(&batch));
    assert!(!cursor.val_valid(&batch));
    assert!(cursor.get_key(&batch).is_none());
    assert!(cursor.get_val(&batch).is_none());
    cursor.rewind_keys(&batch);
    assert!(!cursor.key_valid(&batch));
    cursor.step_key(&batch);
    cursor.seek_key(&batch, b"a");
    assert!(!cursor.key_valid(&batch));
    assert_eq!(times(&mut cursor, &batch), vec![]);
    let out: Vec<Group> = cursor.to_vec(&batch);
    assert_eq!(out, vec![]);
}

#[test]
fn push_accepts_ascending_pairs_only() {
    let mut batch = MmapBatch::new();
    assert!(batch.push(b"b", b"m", 1, 1));
    assert!(batch.push(b"b", b"m", 0, 5));
    assert!(batch.push(b"b", b"n", 1, 1));
    assert!(!batch.push(b"b", b"m", 1, 1));
    assert!(!batch.push(b"a", b"z", 1, 1));
    assert!(batch.push(b"c", b"a", 1, 1));
    assert!(!batch.push(b"b", b"z", 1, 1));
    assert_eq!(batch.len(), 4);
    let mut cursor = batch.cursor();
    let out: Vec<Group> = cursor.to_vec(&batch);
    assert_eq!(
        out,
        vec![
            group(b"b", b"m", &[(1, 1), (0, 5)]),
            group(b"b", b"n", &[(1, 1)]),
            group(b"c", b"a", &[(1, 1)]),
        ]
    );
}

#[test]
fn len_counts_updates() {
    let batch = sample();
    assert_eq!(batch.len(), 7);
}

#[test]
fn cursor_starts_at_the_first_key_and_value() {
    let batch = sample();
    let cursor = batch.cursor();
    assert!(cursor.key_valid(&batch));
    assert!(cursor.val_valid(&batch));
    assert_eq!(cursor.key(&batch), &b"a"[..]);
    assert_eq!(cursor.val(&batch), &b"x".to_vec());
    assert_eq!(cursor.get_key(&batch), Some(&b"a"[..]));
    assert_eq!(cursor.get_val(&batch), Some(&b"x".to_vec()));
}

#[test]
fn step_key_moves_to_the_next_key_and_its_first_value() {
    let batch = sample();
    let mut cursor = batch.cursor();
    cursor.step_val(&batch);
    assert_eq!(cursor.val(&batch), &b"z".to_vec());
    cursor.step_key(&batch);
    assert_eq!(cursor.key(&batch), &b"c"[..]);
    assert_eq!(cursor.val(&batch), &b"y".to_vec());
    cursor.step_key(&batch);
    assert_eq!(cursor.key(&batch), &b"e"[..]);
    assert_eq!(cursor.val(&batch), &b"w".to_vec());
    cursor.step_key(&batch);
    assert!(!cursor.key_valid(&batch));
    assert!(!cursor.val_valid(&batch));
}

#[test]
fn step_val_walks_the_values_of_one_key() {
    let batch = sample();
    let mut cursor = batch.cursor();
    cursor.seek_key(&batch, b"e");
    assert_eq!(cursor.val(&batch), &b"w".to_vec());
    cursor.step_val(&batch);
    assert_eq!(cursor.val(&batch), &b"x".to_vec());
    cursor.step_val(&batch);
    assert_eq!(cursor.val(&batch), &b"y".to_vec());
    cursor.step_val(&batch);
    assert!(!cursor.val_valid(&batch));
    assert!(cursor.key_valid(&batch));
    assert_eq!(cursor.key(&batch), &b"e"[..]);
    cursor.step_val(&batch);
    assert!(!cursor.val_valid(&batch));
    assert!(cursor.get_val(&batch).is_none());
    assert_eq!(times(&mut cursor, &batch), vec![]);
}

#[test]
fn seek_key_finds_the_first_key_not_before_the_target() {
    let batch = sample();
    let mut cursor = batch.cursor();
    cursor.seek_key(&batch, b"b");
    assert_eq!(cursor.key(&batch), &b"c"[..]);
    cursor.seek_key(&batch, b"c");
    assert_eq!(cursor.key(&batch), &b"c"[..]);
    cursor.seek_key(&batch, b"d");
    assert_eq!(cursor.key(&batch), &b"e"[..]);
    assert_eq!(cursor.val(&batch), &b"w".to_vec());
}

#[test]
fn seek_key_behind_the_cursor_changes_nothing() {
    let batch = sample();
    let mut cursor = batch.cursor();
    cursor.seek_key(&batch, b"e");
    cursor.step_val(&batch);
    assert_eq!(cursor.key(&batch), &b"e"[..]);
    assert_eq!(cursor.val(&batch), &b"x".to_vec());
    cursor.seek_key(&batch, b"a");
    assert_eq!(cursor.key(&batch), &b"e"[..]);
    assert_eq!(cursor.val(&batch), &b"x".to_vec());
    cursor.seek_key(&batch, b"e");
    assert_eq!(cursor.key(&batch), &b"e"[..]);
    assert_eq!(cursor.val(&batch), &b"x".to_vec());
}

#[test]
fn seek_key_beyond_the_last_key_exhausts_the_cursor() {
    let batch = sample();
    let mut cursor = batch.cursor();
    cursor.seek_key(&batch, b"f");
    assert!(!cursor.key_valid(&batch));
    assert!(!cursor.val_valid(&batch));
    assert!(cursor.get_key(&batch).is_none());
}

#[test]
fn an_exhausted_cursor_stays_exhausted_until_rewound() {
    let batch = sample();
    let mut cursor = batch.cursor();
    cursor.seek_key(&batch, b"zzz");
    assert!(!cursor.key_valid(&batch));
    cursor.step_key(&batch);
    assert!(!cursor.key_valid(&batch));
    cursor.seek_key(&batch, b"a");
    assert!(!cursor.key_valid(&batch));
    cursor.step_val(&batch);
    assert!(!cursor.key_valid(&batch));
    cursor.seek_val(&batch, &b"a".to_vec());
    assert!(!cursor.key_valid(&batch));
    cursor.rewind_vals(&batch);
    assert!(!cursor.key_valid(&batch));
    assert!(!cursor.val_valid(&batch));
    assert_eq!(times(&mut cursor, &batch), vec![]);
    assert!(!cursor.key_valid(&batch));
    cursor.rewind_keys(&batch);
    assert!(cursor.key_valid(&batch));
    assert_eq!(cursor.key(&batch), &b"a"[..]);
}

#[test]
fn seek_val_stays_under_the_current_key() {
    let batch = sample();
    let mut cursor = batch.cursor();
    cursor.seek_val(&batch, &b"y".to_vec());
    assert_eq!(cursor.key(&batch), &b"a"[..]);
    assert_eq!(cursor.val(&batch), &b"z".to_vec());
    cursor.seek_val(&batch, &b"a".to_vec());
    assert_eq!(cursor.val(&batch), &b"z".to_vec());
    cursor.seek_val(&batch, &b"zz".to_vec());
    assert!(!cursor.val_valid(&batch));
    assert!(cursor.key_valid(&batch));
    assert_eq!(cursor.key(&batch), &b"a"[..]);
    cursor.seek_val(&batch, &b"a".to_vec());
    assert!(!cursor.val_valid(&batch));
}

#[test]
fn rewind_vals_returns_to_the_first_value_of_the_key() {
    let batch = sample();
    let mut cursor = batch.cursor();
    cursor.seek_key(&batch, b"e");
    cursor.step_val(&batch);
    cursor.step_val(&batch);
    cursor.step_val(&batch);
    assert!(!cursor.val_valid(&batch));
    cursor.rewind_vals(&batch);
    assert_eq!(cursor.key(&batch), &b"e"[..]);
    assert_eq!(cursor.val(&batch), &b"w".to_vec());
}

#[test]
fn rewinding_twice_is_rewinding_once() {
    let batch = sample();
    let mut cursor = batch.cursor();
    cursor.seek_key(&batch, b"e");
    cursor.step_val(&batch);
    cursor.rewind_keys(&batch);
    let key = cursor.key(&batch).to_vec();
    let val = cursor.val(&batch).clone();
    assert_eq!(key, b"a".to_vec());
    assert_eq!(val, b"x".to_vec());
    cursor.rewind_keys(&batch);
    assert_eq!(cursor.key(&batch), &key[..]);
    assert_eq!(cursor.val(&batch), &val);
    cursor.step_val(&batch);
    cursor.rewind_vals(&batch);
    assert_eq!(cursor.val(&batch), &val);
    cursor.rewind_vals(&batch);
    assert_eq!(cursor.val(&batch), &val);
}

#[test]
fn map_times_visits_the_updates_in_order() {
    let batch = sample();
    let mut cursor = batch.cursor();
    assert_eq!(times(&mut cursor, &batch), vec![(1, 1), (2, -1)]);
    assert_eq!(cursor.key(&batch), &b"a"[..]);
    assert_eq!(cursor.val(&batch), &b"x".to_vec());
    let sum: isize = cursor.map_times(&batch, &|_t: &u64, r: &isize| *r).iter().sum();
    assert_eq!(sum, 0);
    cursor.step_val(&batch);
    assert_eq!(times(&mut cursor, &batch), vec![(1, 4)]);
}

#[test]
fn to_vec_lists_every_group_in_order() {
    let batch = batch(&[(b"k1", b"v1", 1, 1), (b"k1", b"v1", 2, -1), (b"k2", b"v1", 1, 2)]);
    let mut cursor = batch.cursor();
    cursor.step_key(&batch);
    let out: Vec<Group> = cursor.to_vec(&batch);
    assert_eq!(
        out,
        vec![group(b"k1", b"v1", &[(1, 1), (2, -1)]), group(b"k2", b"v1", &[(1, 2)])]
    );
    assert!(!cursor.key_valid(&batch));
}

#[test]
fn to_vec_of_the_sample() {
    let batch = sample();
    let mut cursor = batch.cursor();
    let out: Vec<Group> = cursor.to_vec(&batch);
    assert_eq!(
        out,
        vec![
            group(b"a", b"x", &[(1, 1), (2, -1)]),
            group(b"a", b"z", &[(1, 4)]),
            group(b"c", b"y", &[(3, 2)]),
            group(b"e", b"w", &[(1, 1)]),
            group(b"e", b"x", &[(1, 1)]),
            group(b"e", b"y", &[(5, 7)]),
        ]
    );
}

#[test]
fn seek_key_finds_every_key_of_a_long_batch() {
    let mut batch = MmapBatch::new();
    for i in 0..200u8 {
        assert!(batch.push(&[i, 0], &[i], 0, 1));
    }
    let mut cursor = batch.cursor();
    for i in 0..200u8 {
        cursor.seek_key(&batch, &[i]);
        assert_eq!(cursor.key(&batch), &[i, 0][..]);
        assert_eq!(cursor.val(&batch), &vec![i]);
    }
    cursor.rewind_keys(&batch);
    cursor.seek_key(&batch, &[150, 0]);
    assert_eq!(cursor.key(&batch), &[150u8, 0][..]);
    cursor.seek_key(&batch, &[150, 1]);
    assert_eq!(cursor.key(&batch), &[151u8, 0][..]);
    cursor.seek_key(&batch, &[199, 1]);
    assert!(!cursor.key_valid(&batch));
}

#[test]
fn two_cursors_read_one_batch() {
    let batch = sample();
    let mut one = batch.cursor();
    let mut two = batch.cursor();
    one.seek_key(&batch, b"e");
    two.step_val(&batch);
    assert_eq!(one.key(&batch), &b"e"[..]);
    assert_eq!(two.key(&batch), &b"a"[..]);
    assert_eq!(two.val(&batch), &b"z".to_vec());
}
