use bkd_tree::{Entry, KdTree, Point};

#[test]
fn kd_tree_basic() {
    let mut tree = KdTree::with_buffer_capacity(10);
    tree.insert(Point { x: 5, y: 5 });

    // root splits on x, so this is left node
    tree.insert(Point { x: 4, y: 6 });

    // root splits on x, so this is left node of root
    // then it's the left node of that one
    tree.insert(Point { x: 3, y: 5 });

    // left node of root, right node of child
    tree.insert(Point { x: 4, y: 7 });

    assert_eq!(
        tree.buffer(),
        vec![
            Some(Point { x: 5, y: 5 }),
            Some(Point { x: 4, y: 6 }),
            None,
            Some(Point { x: 3, y: 5 }),
            Some(Point { x: 4, y: 7 }),
        ],
    );
}

#[test]
fn kd_tree_duplicate_is_rejected() {
    let mut tree = KdTree::with_buffer_capacity(10);
    assert!(tree.insert(Point { x: 1, y: 2 }));
    assert!(tree.insert(Point { x: 0, y: 9 }));
    let before = tree.buffer();
    assert!(!tree.insert(Point { x: 0, y: 9 }));
    assert!(!tree.insert(Point { x: 1, y: 2 }));
    assert_eq!(tree.buffer(), before);
    assert_eq!(tree.len(), 2);
}

#[test]
fn kd_tree_equal_coordinate_goes_right() {
    let mut tree = KdTree::with_buffer_capacity(10);
    assert!(tree.insert(Point { x: 5, y: 5 }));
    assert!(tree.insert(Point { x: 5, y: 1 }));
    assert_eq!(
        tree.buffer(),
        vec![Some(Point { x: 5, y: 5 }), None, Some(Point { x: 5, y: 1 })],
    );
}

#[test]
fn kd_tree_contains_and_full() {
    let mut tree = KdTree::with_buffer_capacity(2);
    assert!(!tree.contains(&Point { x: 1, y: 1 }));
    assert!(tree.insert_with_value(Point { x: 1, y: 1 }, 10));
    assert!(tree.insert_with_value(Point { x: 2, y: 0 }, 20));
    assert!(tree.contains(&Point { x: 2, y: 0 }));
    assert!(!tree.contains(&Point { x: 2, y: 1 }));
    assert!(!tree.is_full());
    assert!(tree.insert_with_value(Point { x: 0, y: 3 }, 30));
    assert!(tree.is_full());
}

#[test]
fn kd_tree_drain_empties() {
    let mut tree = KdTree::with_buffer_capacity(4);
    tree.insert_with_value(Point { x: 5, y: 5 }, 1);
    tree.insert_with_value(Point { x: 4, y: 6 }, 2);
    tree.insert_with_value(Point { x: 6, y: 0 }, 3);
    let drained = tree.drain();
    assert_eq!(
        drained,
        vec![
            Entry { point: Point { x: 5, y: 5 }, value: 1 },
            Entry { point: Point { x: 4, y: 6 }, value: 2 },
            Entry { point: Point { x: 6, y: 0 }, value: 3 },
        ],
    );
    assert_eq!(tree.len(), 0);
    assert!(tree.buffer().is_empty());
    assert!(tree.insert(Point { x: 5, y: 5 }));
}
