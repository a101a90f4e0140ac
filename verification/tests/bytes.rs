use trace_cursor::bytes::starts_with;
use trace_cursor::order::{Order, TotalOrder};
use trace_cursor::trace::cursor::{DdBorrow, DdToOwned};

#[test]
fn compare_orders_by_first_difference() {
    let a: &[u8] = b"abc";
    let b: &[u8] = b"abd";
    assert_eq!(a.compare(b), Order::Less);
    assert_eq!(b.compare(a), Order::Greater);
    assert_eq!(a.compare(a), Order::Equal);
}

#[test]
fn compare_puts_a_prefix_first() {
    let short: &[u8] = b"ab";
    let long: &[u8] = b"abc";
    let empty: &[u8] = b"";
    assert_eq!(short.compare(long), Order::Less);
    assert_eq!(long.compare(short), Order::Greater);
    assert_eq!(empty.compare(short), Order::Less);
    assert_eq!(empty.compare(empty), Order::Equal);
}

#[test]
fn compare_looks_at_bytes_not_lengths() {
    let a: &[u8] = &[2];
    let b: &[u8] = &[1, 255, 255];
    assert_eq!(a.compare(b), Order::Greater);
    assert_eq!(b.compare(a), Order::Less);
    let high: &[u8] = &[200];
    let low: &[u8] = &[100];
    assert_eq!(high.compare(low), Order::Greater);
}

#[test]
fn compare_agrees_with_the_order_of_slices() {
    let samples: Vec<Vec<u8>> = vec![
        vec![],
        vec![0],
        vec![0, 0],
        vec![0, 1],
        vec![1],
        vec![1, 0],
        vec![255],
        vec![255, 0],
        vec![7, 7, 7],
        vec![7, 7],
    ];
    for a in samples.iter() {
        for b in samples.iter() {
            let expected = match a.as_slice().cmp(b.as_slice()) {
                std::cmp::Ordering::Less => Order::Less,
                std::cmp::Ordering::Equal => Order::Equal,
                std::cmp::Ordering::Greater => Order::Greater,
            };
            assert_eq!(a.as_slice().compare(b.as_slice()), expected);
            assert_eq!(a.compare(b), expected);
        }
    }
}

#[test]
fn owned_and_borrowed_round_trip() {
    let key: Vec<u8> = vec![3, 1, 4, 1, 5];
    let borrowed: &[u8] = key.dd_borrow();
    assert_eq!(borrowed, &[3u8, 1, 4, 1, 5][..]);
    let back: Vec<u8> = borrowed.dd_to_owned();
    assert_eq!(back, key);
    let empty: Vec<u8> = Vec::new();
    assert_eq!(empty.dd_borrow().dd_to_owned(), empty);
}

#[test]
fn owned_and_borrowed_are_ordered_alike() {
    let keys: Vec<Vec<u8>> = vec![vec![], vec![1], vec![1, 2], vec![2], vec![1, 2, 3]];
    for a in keys.iter() {
        for b in keys.iter() {
            assert_eq!(a.dd_borrow().compare(b.dd_borrow()), a.compare(b));
        }
    }
}

#[test]
fn starts_with_finds_prefixes() {
    assert!(starts_with(b"F", b"F"));
    assert!(starts_with(b"FINAL", b"F"));
    assert!(starts_with(b"SAUDI ARABIA              ", b"SAUDI ARABIA"));
    assert!(starts_with(b"anything", b""));
    assert!(starts_with(b"", b""));
}

#[test]
fn starts_with_rejects_others() {
    assert!(!starts_with(b"O", b"F"));
    assert!(!starts_with(b"", b"F"));
    assert!(!starts_with(b"SAUDI", b"SAUDI ARABIA"));
    assert!(!starts_with(b"OF", b"F"));
    assert!(!starts_with(b"SAUDI ARABIB", b"SAUDI ARABIA"));
}
