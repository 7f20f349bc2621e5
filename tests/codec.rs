use bkd_tree::{Entry, IndexError, KdbTree, Point, QueryBox};

fn sample() -> Vec<Entry> {
    vec![
        Entry { point: Point { x: -3, y: 7 }, value: 1 },
        Entry { point: Point { x: i64::MIN, y: i64::MAX }, value: u64::MAX },
        Entry { point: Point { x: 0, y: -1 }, value: 0x0102030405060708 },
        Entry { point: Point { x: 9, y: 9 }, value: 4 },
    ]
}

fn sorted(mut v: Vec<Entry>) -> Vec<Entry> {
    v.sort_by_key(|e| (e.point.x, e.point.y, e.value));
    v
}

#[test]
fn segment_bytes_layout() {
    let t = KdbTree::bulk_load(vec![Entry { point: Point { x: -1, y: 2 }, value: 3 }], 5, 2);
    let b = t.to_bytes();
    let mut expect = Vec::new();
    expect.extend_from_slice(&5u64.to_le_bytes());
    expect.extend_from_slice(&1u64.to_le_bytes());
    expect.extend_from_slice(&(-1i64).to_le_bytes());
    expect.extend_from_slice(&2i64.to_le_bytes());
    expect.extend_from_slice(&3u64.to_le_bytes());
    assert_eq!(b, expect);
}

#[test]
fn segment_bytes_round_trip() {
    let t = KdbTree::bulk_load(sample(), 2, 2);
    let b = t.to_bytes();
    assert_eq!(b.len(), 16 + 24 * 4);
    let back = KdbTree::from_bytes(&b, 3).unwrap();
    assert_eq!(sorted(back.entry_store().clone()), sorted(sample()));
    assert_eq!(back.range_query(&QueryBox::everything()).len(), 4);
}

#[test]
fn truncated_segment_is_corrupt() {
    let t = KdbTree::bulk_load(sample(), 2, 2);
    let mut b = t.to_bytes();
    b.pop();
    assert!(matches!(KdbTree::from_bytes(&b, 2), Err(IndexError::CorruptBlock)));
    assert!(matches!(KdbTree::from_bytes(&vec![0u8; 15], 2), Err(IndexError::CorruptBlock)));
}

#[test]
fn bad_header_is_corrupt() {
    let t = KdbTree::bulk_load(sample(), 2, 2);
    let good = t.to_bytes();
    let mut zero_cap = good.clone();
    zero_cap[..8].copy_from_slice(&0u64.to_le_bytes());
    assert!(matches!(KdbTree::from_bytes(&zero_cap, 2), Err(IndexError::CorruptBlock)));
    let mut wrong_count = good.clone();
    wrong_count[8..16].copy_from_slice(&5u64.to_le_bytes());
    assert!(matches!(KdbTree::from_bytes(&wrong_count, 2), Err(IndexError::CorruptBlock)));
    let mut empty = Vec::new();
    empty.extend_from_slice(&1u64.to_le_bytes());
    empty.extend_from_slice(&0u64.to_le_bytes());
    assert_eq!(KdbTree::from_bytes(&empty, 2).unwrap().len(), 0);
}
