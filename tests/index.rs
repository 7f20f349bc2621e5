use bkd_tree::{merge_segments, BkdIndex, Entry, IndexConfig, IndexError, KdbNode, KdbTree, Point, QueryBox};

fn config(buffer_capacity: usize) -> IndexConfig {
    IndexConfig { buffer_capacity, block_capacity: 2, fanout: 3, growth_factor: 2 }
}

fn sorted(mut v: Vec<Entry>) -> Vec<Entry> {
    v.sort_by_key(|e| (e.point.x, e.point.y, e.value));
    v
}

struct Lcg(u64);

impl Lcg {
    fn next(&mut self) -> u64 {
        self.0 = self.0.wrapping_mul(6364136223846793005).wrapping_add(1442695040888963407);
        self.0 >> 33
    }
    fn coord(&mut self) -> i64 {
        (self.next() % 41) as i64 - 20
    }
}

fn count_all(idx: &BkdIndex) -> usize {
    let mut n = idx.buffer_len();
    for l in 0..idx.level_count() {
        n += idx.level_len(l).unwrap_or(0);
    }
    n
}

#[test]
fn full_box_returns_every_inserted_entry() {
    let mut idx = BkdIndex::new(config(3));
    let mut inserted = Vec::new();
    for i in 0..40i64 {
        let p = Point { x: (i * 7) % 13, y: i };
        assert_eq!(idx.insert(p, i as u64), Ok(()));
        inserted.push(Entry { point: p, value: i as u64 });
    }
    assert!(idx.level_count() >= 2);
    for l in 0..idx.level_count() - 1 {
        assert!(idx.level_len(l).unwrap_or(0) <= 3 << l);
    }
    let all = idx.range_query(&QueryBox::everything()).unwrap();
    assert_eq!(all.len(), 40);
    assert_eq!(sorted(all), sorted(inserted));
}

#[test]
fn duplicate_insert_changes_nothing() {
    let mut idx = BkdIndex::new(config(2));
    for i in 0..10i64 {
        assert_eq!(idx.insert(Point { x: i, y: -i }, i as u64), Ok(()));
    }
    let before = count_all(&idx);
    // one of these lives in a segment, the other in the buffer
    assert_eq!(idx.insert(Point { x: 0, y: 0 }, 99), Err(IndexError::DuplicatePoint));
    assert_eq!(idx.insert(Point { x: 9, y: -9 }, 98), Err(IndexError::DuplicatePoint));
    assert_eq!(count_all(&idx), before);
    assert_eq!(idx.range_query(&QueryBox::everything()).unwrap().len(), 10);
}

#[test]
fn flush_keeps_total_and_empties_buffer() {
    let mut idx = BkdIndex::new(config(100));
    for i in 0..7i64 {
        idx.insert(Point { x: i, y: i * i }, i as u64).unwrap();
    }
    assert_eq!(idx.buffer_len(), 7);
    let before = count_all(&idx);
    idx.flush();
    assert_eq!(idx.buffer_len(), 0);
    assert_eq!(count_all(&idx), before);
    assert_eq!(idx.range_query(&QueryBox::everything()).unwrap().len(), 7);
}

#[test]
fn merge_drops_tombstoned_entries() {
    let left_entries: Vec<Entry> = (0..5u64).map(|i| Entry { point: Point { x: i as i64, y: 0 }, value: i }).collect();
    let right_entries: Vec<Entry> = (5..12u64).map(|i| Entry { point: Point { x: i as i64, y: 1 }, value: i }).collect();
    let left = KdbTree::bulk_load(left_entries, 2, 2);
    let right = KdbTree::bulk_load(right_entries, 2, 2);
    let dead = vec![1u64, 7, 8, 100];
    let merged = merge_segments(&left, &right, &dead, 2, 2);
    assert_eq!(merged.len(), 5 + 7 - 1 - 2);
    let values: Vec<u64> = sorted(merged.entry_store().clone()).iter().map(|e| e.value).collect();
    assert_eq!(values, vec![0, 2, 3, 4, 5, 6, 9, 10, 11]);
}

fn check_shape(t: &KdbTree, cap: usize) {
    let blocks = t.blocks();
    let entries = t.entry_store();
    for (a, b) in blocks.iter().enumerate() {
        match b {
            KdbNode::Leaf { lo, hi } => assert!(hi - lo <= cap),
            KdbNode::Inner { splits, children, .. } => {
                assert_eq!(children.len(), splits.len() + 1);
                assert!(children.len() <= 3);
                for w in splits.windows(2) {
                    assert!(w[0].value <= w[1].value);
                }
                for sp in splits.iter() {
                    assert_eq!(sp.axis, splits[0].axis);
                    for &c in children.iter() {
                        if let KdbNode::Inner { splits: inner, .. } = &blocks[c] {
                            assert_ne!(inner[0].axis, sp.axis);
                        }
                    }
                }
                for (i, &c) in children.iter().enumerate() {
                    assert!(c < a);
                    let (clo, chi) = match &blocks[c] {
                        KdbNode::Leaf { lo, hi } => (*lo, *hi),
                        KdbNode::Inner { lo, hi, .. } => (*lo, *hi),
                    };
                    for e in &entries[clo..chi] {
                        if i > 0 {
                            assert!(e.point.coord(splits[i - 1].axis) >= splits[i - 1].value);
                        }
                        if i < splits.len() {
                            assert!(e.point.coord(splits[i].axis) <= splits[i].value);
                        }
                    }
                }
            }
        }
    }
}

#[test]
fn bulk_load_shape_holds() {
    let mut rng = Lcg(7);
    let input: Vec<Entry> = (0..200u64).map(|v| Entry { point: Point { x: rng.coord(), y: rng.coord() }, value: v }).collect();
    let t = KdbTree::bulk_load(input.clone(), 4, 3);
    assert_eq!(t.len(), 200);
    assert_eq!(sorted(t.entry_store().clone()), sorted(input));
    check_shape(&t, 4);
    let root = t.root();
    match &t.blocks()[root] {
        KdbNode::Inner { splits, .. } => assert_eq!(splits[0].axis, 0),
        KdbNode::Leaf { .. } => panic!("a root over 200 entries is an inner block"),
    }
}

#[test]
fn bulk_load_small_is_one_leaf() {
    let input = vec![Entry { point: Point { x: 1, y: 1 }, value: 1 }, Entry { point: Point { x: 0, y: 0 }, value: 2 }];
    let t = KdbTree::bulk_load(input, 2, 2);
    assert_eq!(t.blocks().len(), 1);
    assert!(matches!(t.blocks()[0], KdbNode::Leaf { lo: 0, hi: 2 }));
    let empty = KdbTree::bulk_load(Vec::new(), 2, 2);
    assert_eq!(empty.len(), 0);
    assert!(empty.range_query(&QueryBox::everything()).is_empty());
}

#[test]
fn segment_query_matches_scan() {
    let mut rng = Lcg(11);
    let input: Vec<Entry> = (0..150u64).map(|v| Entry { point: Point { x: rng.coord(), y: rng.coord() }, value: v }).collect();
    let t = KdbTree::bulk_load(input.clone(), 3, 4);
    for _ in 0..50 {
        let (a, b, c, d) = (rng.coord(), rng.coord(), rng.coord(), rng.coord());
        let q = QueryBox { min_x: a.min(b), max_x: a.max(b), min_y: c.min(d), max_y: c.max(d) };
        let expect: Vec<Entry> = input.iter().copied().filter(|e| q.contains(&e.point)).collect();
        assert_eq!(sorted(t.range_query(&q)), sorted(expect));
    }
}

#[test]
fn index_query_matches_scan() {
    let mut rng = Lcg(3);
    let mut idx = BkdIndex::new(config(5));
    let mut oracle: Vec<Entry> = Vec::new();
    for v in 0..300u64 {
        let p = Point { x: rng.coord(), y: rng.coord() };
        let taken = oracle.iter().any(|e| e.point == p);
        let r = idx.insert(p, v);
        if taken {
            assert_eq!(r, Err(IndexError::DuplicatePoint));
        } else {
            assert_eq!(r, Ok(()));
            oracle.push(Entry { point: p, value: v });
        }
    }
    for _ in 0..60 {
        let (a, b, c, d) = (rng.coord(), rng.coord(), rng.coord(), rng.coord());
        let q = QueryBox::new(a.min(b), a.max(b), c.min(d), c.max(d)).unwrap();
        let expect: Vec<Entry> = oracle.iter().copied().filter(|e| q.contains(&e.point)).collect();
        assert_eq!(sorted(idx.range_query(&q).unwrap()), sorted(expect));
    }
}

#[test]
fn deleted_value_is_not_returned() {
    let mut idx = BkdIndex::new(config(2));
    for i in 0..8i64 {
        idx.insert(Point { x: i, y: i }, 100 + i as u64).unwrap();
    }
    // 101 sits in a segment, 107 in the buffer
    assert_eq!(idx.delete(101), Ok(()));
    assert_eq!(idx.delete(107), Ok(()));
    let q = QueryBox::new(0, 7, 0, 7).unwrap();
    let got: Vec<u64> = sorted(idx.range_query(&q).unwrap()).iter().map(|e| e.value).collect();
    assert_eq!(got, vec![100, 102, 103, 104, 105, 106]);
    let one = QueryBox::new(1, 1, 1, 1).unwrap();
    assert!(idx.range_query(&one).unwrap().is_empty());
}

#[test]
fn delete_unknown_or_twice_is_not_found() {
    let mut idx = BkdIndex::new(config(4));
    idx.insert(Point { x: 1, y: 2 }, 5).unwrap();
    assert_eq!(idx.delete(6), Err(IndexError::NotFound));
    assert_eq!(idx.delete(5), Ok(()));
    assert_eq!(idx.delete(5), Err(IndexError::NotFound));
}

#[test]
fn deleted_point_can_be_inserted_again_after_flush() {
    let mut idx = BkdIndex::new(config(1));
    idx.insert(Point { x: 0, y: 0 }, 1).unwrap();
    idx.insert(Point { x: 1, y: 0 }, 2).unwrap();
    assert_eq!(idx.buffer_len(), 0);
    idx.delete(1).unwrap();
    assert_eq!(idx.insert(Point { x: 0, y: 0 }, 3), Ok(()));
    let got = idx.range_query(&QueryBox::new(0, 0, 0, 0).unwrap()).unwrap();
    assert_eq!(got, vec![Entry { point: Point { x: 0, y: 0 }, value: 3 }]);
}

#[test]
fn invalid_box_is_rejected() {
    assert_eq!(QueryBox::new(3, 2, 0, 0), Err(IndexError::InvalidQueryBox));
    assert_eq!(QueryBox::new(0, 0, 1, -1), Err(IndexError::InvalidQueryBox));
    let idx = BkdIndex::new(config(4));
    let bad = QueryBox { min_x: 0, max_x: 0, min_y: 5, max_y: 4 };
    assert_eq!(idx.range_query(&bad), Err(IndexError::InvalidQueryBox));
    assert_eq!(idx.range_query(&QueryBox::everything()), Ok(Vec::new()));
}

#[test]
fn merges_purge_tombstones() {
    let mut idx = BkdIndex::new(config(1));
    for i in 0..4i64 {
        idx.insert(Point { x: i, y: 0 }, i as u64).unwrap();
    }
    let before = count_all(&idx);
    idx.delete(0).unwrap();
    idx.delete(1).unwrap();
    for i in 4..12i64 {
        idx.insert(Point { x: i, y: 0 }, i as u64).unwrap();
    }
    assert!(count_all(&idx) < before + 8);
    assert_eq!(idx.range_query(&QueryBox::everything()).unwrap().len(), 10);
}
