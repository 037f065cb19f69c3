use bintree::bst::{BinarySearchTree, TreeTraversalOrders};

fn setup_bst() -> BinarySearchTree<u32> {
    let mut bst: BinarySearchTree<u32> = BinarySearchTree::new();
    bst.add_value(4);
    bst.add_value(2);
    bst.add_value(6);
    bst.add_value(1);
    bst.add_value(3);
    bst.add_value(5);
    bst
    //      4
    //     / \
    //   2    6
    //  /\   /
    // 1 3  5
}

fn values(bst: &BinarySearchTree<u32>, order: TreeTraversalOrders) -> Vec<u32> {
    bst.collectpeek_traversal_values(order).into_iter().copied().collect()
}

#[test]
fn bst_can_be_created_and_added_to() {
    let bst = setup_bst();
    assert!(bst.peek_root_value().is_some());
    assert_eq!(*bst.peek_root_value().unwrap(), 4);
}

#[test]
fn bst_can_delete_nodes() {
    let mut bst = setup_bst();
    bst.remove_value(1);
    bst.remove_value(2);
    let mut list_iter = bst.collectpeek_traversal_values(TreeTraversalOrders::Inorder).into_iter();
    assert_eq!(list_iter.next(), Some(&3));
    assert_eq!(list_iter.next(), Some(&4));
    assert_eq!(list_iter.next(), Some(&5));
    assert_eq!(list_iter.next(), Some(&6));
}

#[test]
fn bst_can_be_traversed_inorder() {
    let bst = setup_bst();
    let list = bst.collectpeek_traversal_values(TreeTraversalOrders::Inorder);
    let mut list_iter = list.into_iter();
    assert_eq!(list_iter.next(), Some(&1));
    assert_eq!(list_iter.next(), Some(&2));
    assert_eq!(list_iter.next(), Some(&3));
    assert_eq!(list_iter.next(), Some(&4));
    assert_eq!(list_iter.next(), Some(&5));
    assert_eq!(list_iter.next(), Some(&6));
}

#[test]
fn bst_can_be_traversed_inorder_with_cratell() {
    let bst = setup_bst();
    let mut list = bst.collectpeek_traversal_values_cratell(TreeTraversalOrders::Inorder);
    assert_eq!(list.dequeue_value(), Some(&1));
    assert_eq!(list.dequeue_value(), Some(&2));
    assert_eq!(list.dequeue_value(), Some(&3));
    assert_eq!(list.dequeue_value(), Some(&4));
    assert_eq!(list.dequeue_value(), Some(&5));
    assert_eq!(list.dequeue_value(), Some(&6));
}

#[test]
fn bst_can_be_traversed_preorder() {
    let bst = setup_bst();
    let list = bst.collectpeek_traversal_values(TreeTraversalOrders::Preorder);
    let mut list_iter = list.into_iter();
    assert_eq!(list_iter.next(), Some(&4));
    assert_eq!(list_iter.next(), Some(&2));
    assert_eq!(list_iter.next(), Some(&1));
    assert_eq!(list_iter.next(), Some(&3));
    assert_eq!(list_iter.next(), Some(&6));
    assert_eq!(list_iter.next(), Some(&5));
}

#[test]
fn bst_can_be_traversed_postorder() {
    let bst = setup_bst();
    let list = bst.collectpeek_traversal_values(TreeTraversalOrders::Postorder);
    let mut list_iter = list.into_iter();
    assert_eq!(list_iter.next(), Some(&1));
    assert_eq!(list_iter.next(), Some(&3));
    assert_eq!(list_iter.next(), Some(&2));
    assert_eq!(list_iter.next(), Some(&5));
    assert_eq!(list_iter.next(), Some(&6));
    assert_eq!(list_iter.next(), Some(&4));
}

#[test]
fn six_values_in_all_three_orders() {
    let bst = setup_bst();
    assert_eq!(values(&bst, TreeTraversalOrders::Inorder), vec![1, 2, 3, 4, 5, 6]);
    assert_eq!(values(&bst, TreeTraversalOrders::Preorder), vec![4, 2, 1, 3, 6, 5]);
    assert_eq!(values(&bst, TreeTraversalOrders::Postorder), vec![1, 3, 2, 5, 6, 4]);
}

#[test]
fn linked_list_traversals_match_vec_traversals() {
    let bst = setup_bst();
    for (order, expected) in [
        (TreeTraversalOrders::Inorder, vec![1, 2, 3, 4, 5, 6]),
        (TreeTraversalOrders::Preorder, vec![4, 2, 1, 3, 6, 5]),
        (TreeTraversalOrders::Postorder, vec![1, 3, 2, 5, 6, 4]),
    ] {
        let mut list = bst.collectpeek_traversal_values_cratell(order);
        let mut got = Vec::new();
        while let Some(v) = list.dequeue_value() {
            got.push(*v);
        }
        assert_eq!(got, expected);
    }
}

#[test]
fn empty_tree_has_nothing_to_show() {
    let bst: BinarySearchTree<u32> = BinarySearchTree::new();
    assert!(values(&bst, TreeTraversalOrders::Inorder).is_empty());
    assert!(values(&bst, TreeTraversalOrders::Preorder).is_empty());
    assert!(values(&bst, TreeTraversalOrders::Postorder).is_empty());
    let mut list = bst.collectpeek_traversal_values_cratell(TreeTraversalOrders::Inorder);
    assert_eq!(list.dequeue_value(), None);
    assert_eq!(bst.min(), None);
    assert_eq!(bst.peek_root_value(), None);
    assert!(!bst.contains(&0));
}

#[test]
fn inorder_is_sorted_and_duplicates_collapse() {
    let mut bst: BinarySearchTree<u32> = BinarySearchTree::new();
    for v in [9, 3, 7, 3, 1, 9, 12, 0, 7, 5, 12, 8] {
        bst.add_value(v);
    }
    assert_eq!(values(&bst, TreeTraversalOrders::Inorder), vec![0, 1, 3, 5, 7, 8, 9, 12]);
}

#[test]
fn adding_a_duplicate_leaves_the_tree_as_it_was() {
    let mut bst = setup_bst();
    bst.add_value(3);
    bst.add_value(4);
    assert_eq!(values(&bst, TreeTraversalOrders::Preorder), vec![4, 2, 1, 3, 6, 5]);
    assert_eq!(values(&bst, TreeTraversalOrders::Postorder), vec![1, 3, 2, 5, 6, 4]);
}

#[test]
fn removing_the_root_with_two_children_promotes_its_successor() {
    let mut bst = setup_bst();
    bst.remove_value(4);
    assert_eq!(values(&bst, TreeTraversalOrders::Inorder), vec![1, 2, 3, 5, 6]);
    assert_eq!(bst.peek_root_value(), Some(&5));
    assert_eq!(values(&bst, TreeTraversalOrders::Preorder), vec![5, 2, 1, 3, 6]);
}

#[test]
fn removing_a_present_value_takes_out_that_value_only() {
    for v in 1..=6u32 {
        let mut bst = setup_bst();
        bst.remove_value(v);
        assert!(!bst.contains(&v));
        let expected: Vec<u32> = (1..=6u32).filter(|x| *x != v).collect();
        assert_eq!(values(&bst, TreeTraversalOrders::Inorder), expected);
        for w in expected {
            assert!(bst.contains(&w));
        }
    }
}

#[test]
fn removing_nodes_with_one_child_or_none() {
    let mut bst = setup_bst();
    // 6 has only a left child
    bst.remove_value(6);
    assert_eq!(values(&bst, TreeTraversalOrders::Preorder), vec![4, 2, 1, 3, 5]);
    // 3 is a leaf
    bst.remove_value(3);
    assert_eq!(values(&bst, TreeTraversalOrders::Preorder), vec![4, 2, 1, 5]);
    // 2 now has only a left child
    bst.remove_value(2);
    assert_eq!(values(&bst, TreeTraversalOrders::Preorder), vec![4, 1, 5]);
}

#[test]
fn removing_an_absent_value_changes_nothing() {
    let mut bst = setup_bst();
    bst.remove_value(0);
    bst.remove_value(7);
    bst.remove_value(100);
    assert_eq!(values(&bst, TreeTraversalOrders::Inorder), vec![1, 2, 3, 4, 5, 6]);
    assert_eq!(values(&bst, TreeTraversalOrders::Preorder), vec![4, 2, 1, 3, 6, 5]);
    assert_eq!(values(&bst, TreeTraversalOrders::Postorder), vec![1, 3, 2, 5, 6, 4]);

    let mut empty: BinarySearchTree<u32> = BinarySearchTree::new();
    empty.remove_value(1);
    assert!(values(&empty, TreeTraversalOrders::Inorder).is_empty());
}

#[test]
fn removing_every_value_empties_the_tree() {
    let mut bst = setup_bst();
    for v in [4, 5, 6, 2, 1, 3] {
        bst.remove_value(v);
    }
    assert!(values(&bst, TreeTraversalOrders::Inorder).is_empty());
    assert_eq!(bst.height(), 0);
    assert_eq!(bst.min(), None);
}

#[test]
fn height_counts_nodes_on_the_longest_path() {
    let mut bst: BinarySearchTree<u32> = BinarySearchTree::new();
    assert_eq!(bst.height(), 0);
    bst.add_value(10);
    assert_eq!(bst.height(), 1);
    let full = setup_bst();
    assert_eq!(full.height(), 3);
    let mut chain: BinarySearchTree<u32> = BinarySearchTree::new();
    for v in 0..20u32 {
        chain.add_value(v);
    }
    assert_eq!(chain.height(), 20);
}

#[test]
fn traversals_hold_the_same_values() {
    let mut bst: BinarySearchTree<u32> = BinarySearchTree::new();
    for v in [50, 20, 80, 10, 30, 70, 90, 25, 35, 75] {
        bst.add_value(v);
    }
    let mut inorder = values(&bst, TreeTraversalOrders::Inorder);
    let mut preorder = values(&bst, TreeTraversalOrders::Preorder);
    let mut postorder = values(&bst, TreeTraversalOrders::Postorder);
    assert_ne!(inorder, preorder);
    assert_ne!(inorder, postorder);
    inorder.sort();
    preorder.sort();
    postorder.sort();
    assert_eq!(inorder, preorder);
    assert_eq!(inorder, postorder);
}

#[test]
fn contains_follows_the_search_path() {
    let bst = setup_bst();
    for v in 1..=6u32 {
        assert!(bst.contains(&v));
    }
    assert!(!bst.contains(&0));
    assert!(!bst.contains(&7));
}

#[test]
fn min_is_the_least_value() {
    let mut bst = setup_bst();
    assert_eq!(bst.min(), Some(&1));
    bst.remove_value(1);
    assert_eq!(bst.min(), Some(&2));
    bst.remove_value(2);
    bst.remove_value(3);
    assert_eq!(bst.min(), Some(&4));
}

#[test]
fn signed_values_are_ordered_too() {
    let mut bst: BinarySearchTree<i64> = BinarySearchTree::new();
    for v in [0i64, -5, 12, -40, 3, i64::MIN, i64::MAX] {
        bst.add_value(v);
    }
    let got: Vec<i64> = bst
        .collectpeek_traversal_values(TreeTraversalOrders::Inorder)
        .into_iter()
        .copied()
        .collect();
    assert_eq!(got, vec![i64::MIN, -40, -5, 0, 3, 12, i64::MAX]);
    assert_eq!(bst.min(), Some(&i64::MIN));
}

#[test]
fn every_integer_order_sorts_the_same_way() {
    let mut a: BinarySearchTree<u64> = BinarySearchTree::new();
    let mut b: BinarySearchTree<usize> = BinarySearchTree::new();
    let mut c: BinarySearchTree<i32> = BinarySearchTree::new();
    for v in [7u32, 2, 9, 2, 0, 5] {
        a.add_value(v as u64 + u32::MAX as u64);
        b.add_value(v as usize);
        c.add_value(v as i32 - 4);
    }
    let got_a: Vec<u64> = a.collectpeek_traversal_values(TreeTraversalOrders::Inorder).into_iter().copied().collect();
    let got_b: Vec<usize> = b.collectpeek_traversal_values(TreeTraversalOrders::Inorder).into_iter().copied().collect();
    let got_c: Vec<i32> = c.collectpeek_traversal_values(TreeTraversalOrders::Inorder).into_iter().copied().collect();
    let m = u32::MAX as u64;
    assert_eq!(got_a, vec![m, m + 2, m + 5, m + 7, m + 9]);
    assert_eq!(got_b, vec![0, 2, 5, 7, 9]);
    assert_eq!(got_c, vec![-4, -2, 1, 3, 5]);
}

#[test]
fn removing_a_value_just_added_restores_the_tree() {
    for v in [0u32, 7, 100] {
        let mut bst = setup_bst();
        bst.add_value(v);
        assert_eq!(bst.peek_root_value(), Some(&4));
        bst.remove_value(v);
        assert_eq!(values(&bst, TreeTraversalOrders::Preorder), vec![4, 2, 1, 3, 6, 5]);
        assert_eq!(values(&bst, TreeTraversalOrders::Postorder), vec![1, 3, 2, 5, 6, 4]);
    }
}

#[test]
fn height_grows_by_at_most_one_and_never_grows_on_removal() {
    let mut bst = setup_bst();
    assert_eq!(bst.height(), 3);
    bst.add_value(7);
    assert_eq!(bst.height(), 3);
    bst.add_value(8);
    assert_eq!(bst.height(), 4);
    bst.remove_value(4);
    assert_eq!(bst.height(), 4);
    bst.remove_value(8);
    assert_eq!(bst.height(), 3);
    assert_eq!(values(&bst, TreeTraversalOrders::Preorder), vec![5, 2, 1, 3, 6, 7]);
}
