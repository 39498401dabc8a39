use binary_search_tree::BinarySearchTree;

#[test]
fn bst_pre_order_traversal_test() {
    let mut bst = BinarySearchTree::new();
    bst.insert(60);
    bst.insert(12);
    bst.insert(90);
    bst.insert(4);
    bst.insert(1);
    bst.insert(100);
    bst.insert(37);
    bst.insert(84);
    assert_eq!(
        Some(vec![&60, &12, &4, &1, &37, &90, &84, &100]),
        bst.pre_order_traversal(),
    );
}

#[test]
fn bst_in_order_traversal_test() {
    let mut bst = BinarySearchTree::new();
    bst.insert(60);
    bst.insert(12);
    bst.insert(90);
    bst.insert(4);
    bst.insert(1);
    bst.insert(100);
    bst.insert(37);
    bst.insert(84);
    assert_eq!(
        Some(vec![&1, &4, &12, &37, &60, &84, &90, &100]),
        bst.in_order_traversal(),
    );
}

#[test]
fn bst_post_order_traversal_test() {
    let mut bst = BinarySearchTree::new();
    bst.insert(60);
    bst.insert(12);
    bst.insert(90);
    bst.insert(4);
    bst.insert(1);
    bst.insert(100);
    bst.insert(37);
    bst.insert(84);
    assert_eq!(
        Some(vec![&1, &4, &37, &12, &84, &100, &90, &60]),
        bst.post_order_traversal(),
    );
}

#[test]
fn bst_breadth_first_traversal_test() {
    let mut bst = BinarySearchTree::new();
    bst.insert(60);
    bst.insert(12);
    bst.insert(90);
    bst.insert(4);
    bst.insert(1);
    bst.insert(100);
    bst.insert(37);
    bst.insert(84);
    assert_eq!(
        Some(vec![&60, &12, &90, &4, &37, &84, &100, &1]),
        bst.breadth_first_traversal(),
    );
}

#[test]
fn bst_empty_tree_sentinel() {
    let bst: BinarySearchTree<i32> = BinarySearchTree::new();
    assert!(bst.is_empty());
    assert_eq!(bst.len(), 0);
    assert_eq!(bst.pre_order_traversal(), None);
    assert_eq!(bst.in_order_traversal(), None);
    assert_eq!(bst.post_order_traversal(), None);
    assert_eq!(bst.breadth_first_traversal(), None);
}

#[test]
fn bst_default_is_empty() {
    let bst: BinarySearchTree<u64> = BinarySearchTree::default();
    assert!(bst.is_empty());
    assert_eq!(bst.len(), 0);
}

#[test]
fn bst_single_element() {
    let mut bst = BinarySearchTree::new();
    bst.insert(7u64);
    assert!(!bst.is_empty());
    assert_eq!(bst.len(), 1);
    assert_eq!(bst.pre_order_traversal(), Some(vec![&7]));
    assert_eq!(bst.in_order_traversal(), Some(vec![&7]));
    assert_eq!(bst.post_order_traversal(), Some(vec![&7]));
    assert_eq!(bst.breadth_first_traversal(), Some(vec![&7]));
}

#[test]
fn bst_len_counts_distinct_inserts() {
    let mut bst = BinarySearchTree::new();
    let values = [60, 12, 90, 4, 1, 100, 37, 84];
    for (n, v) in values.iter().enumerate() {
        bst.insert(*v);
        assert_eq!(bst.len(), n + 1);
    }
    bst.insert(60);
    assert_eq!(bst.len(), values.len());
    bst.insert(61);
    assert_eq!(bst.len(), values.len() + 1);
}

#[test]
fn bst_duplicate_insert_leaves_traversals_unchanged() {
    let mut bst = BinarySearchTree::new();
    for v in [60, 12, 90, 4, 1, 100, 37, 84] {
        bst.insert(v);
    }
    let pre: Vec<i32> = bst.pre_order_traversal().unwrap().into_iter().copied().collect();
    let ino: Vec<i32> = bst.in_order_traversal().unwrap().into_iter().copied().collect();
    let post: Vec<i32> = bst.post_order_traversal().unwrap().into_iter().copied().collect();
    let bfs: Vec<i32> = bst.breadth_first_traversal().unwrap().into_iter().copied().collect();
    bst.insert(37);
    bst.insert(100);
    assert_eq!(
        pre,
        bst.pre_order_traversal().unwrap().into_iter().copied().collect::<Vec<i32>>(),
    );
    assert_eq!(
        ino,
        bst.in_order_traversal().unwrap().into_iter().copied().collect::<Vec<i32>>(),
    );
    assert_eq!(
        post,
        bst.post_order_traversal().unwrap().into_iter().copied().collect::<Vec<i32>>(),
    );
    assert_eq!(
        bfs,
        bst.breadth_first_traversal().unwrap().into_iter().copied().collect::<Vec<i32>>(),
    );
}

#[test]
fn bst_in_order_is_sorted() {
    let mut bst = BinarySearchTree::new();
    for v in [23, -5, 0, 88, 41, 7, -100, 55, 2] {
        bst.insert(v);
    }
    let ino: Vec<i32> = bst.in_order_traversal().unwrap().into_iter().copied().collect();
    for pair in ino.windows(2) {
        assert!(pair[0] < pair[1]);
    }
    assert_eq!(ino.len(), bst.len());
}

#[test]
fn bst_traversals_hold_the_same_elements() {
    let mut bst = BinarySearchTree::new();
    for v in [9, 3, 14, 1, 5, 11, 20] {
        bst.insert(v);
    }
    let mut pre: Vec<i32> = bst.pre_order_traversal().unwrap().into_iter().copied().collect();
    let ino: Vec<i32> = bst.in_order_traversal().unwrap().into_iter().copied().collect();
    let mut post: Vec<i32> = bst.post_order_traversal().unwrap().into_iter().copied().collect();
    let mut bfs: Vec<i32> = bst.breadth_first_traversal().unwrap().into_iter().copied().collect();
    assert_eq!(pre.len(), bst.len());
    assert_eq!(ino.len(), bst.len());
    assert_eq!(post.len(), bst.len());
    assert_eq!(bfs.len(), bst.len());
    pre.sort();
    post.sort();
    bfs.sort();
    // the in-order listing is already sorted and duplicate-free
    assert_eq!(pre, ino);
    assert_eq!(post, ino);
    assert_eq!(bfs, ino);
}

#[test]
fn bst_incomparable_value_is_dropped() {
    let mut bst = BinarySearchTree::new();
    bst.insert(5.0f64);
    bst.insert(2.0f64);
    bst.insert(f64::NAN);
    assert_eq!(bst.len(), 2);
    assert_eq!(bst.in_order_traversal(), Some(vec![&2.0, &5.0]));
}

#[test]
fn bst_incomparable_root_blocks_later_inserts() {
    let mut bst = BinarySearchTree::new();
    bst.insert(f64::NAN);
    assert_eq!(bst.len(), 1);
    assert!(!bst.is_empty());
    bst.insert(1.0f64);
    assert_eq!(bst.len(), 1);
    let ino = bst.in_order_traversal().unwrap();
    assert!(ino[0].is_nan());
}
