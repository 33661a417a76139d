use binary_search_tree::{Tree, TreeOpError};

fn tree_of(values: &[i32]) -> Tree<i32> {
    let mut bst = Tree::new();
    for v in values {
        bst.insert(*v).expect("Failed to insert");
    }
    bst
}

/// The values from greatest to least, as `inorder_predecessor` hands them out.
fn drain(bst: &mut Tree<i32>) -> Vec<i32> {
    let mut out = Vec::new();
    while let Some(v) = bst.inorder_predecessor() {
        out.push(v);
    }
    out
}

#[test]
fn empty() {
    let bst: Tree<i32> = Tree::new();
    assert_eq!(bst, Tree::<i32>::new());
}

#[test]
fn inserts() {
    let mut bst = Tree::new();
    assert!(bst.insert(2).is_ok());
}

#[test]
fn leaf() {
    let mut bst = Tree::new();
    bst.insert(2).expect("Failed to insert");
    assert_eq!(bst, Tree::leaf(2));
}

#[test]
fn contain() {
    let mut bst = Tree::new();
    bst.insert(2).expect("Failed to insert");
    bst.insert(23).expect("Failed to insert");
    bst.insert(20).expect("Failed to insert");
    assert_eq!(bst.contains(23), true);
    assert_eq!(bst.contains(29), false);
}

#[test]
fn remove() {
    let mut bst = Tree::new();
    bst.insert(2).expect("Failed to insert");
    bst.insert(23).expect("Failed to insert");
    bst.insert(20).expect("Failed to insert");
    assert!(bst.delete(&2).is_ok());
    assert!(bst.delete(&23).is_ok());
    assert!(bst.delete(&2).is_err());
}

#[test]
fn default_is_the_empty_tree() {
    let mut bst: Tree<i32> = Tree::default();
    assert_eq!(bst, Tree::new());
    assert!(!bst.contains(0));
    assert_eq!(bst.inorder_predecessor(), None);
}

#[test]
fn new_tree_contains_nothing() {
    let bst: Tree<i32> = Tree::new();
    assert!(!bst.contains(0));
    assert!(!bst.contains(i32::MIN));
    assert!(!bst.contains(i32::MAX));
}

#[test]
fn leaf_holds_its_value_only() {
    let mut bst = Tree::leaf(5);
    assert!(bst.contains(5));
    assert!(!bst.contains(4));
    assert!(!bst.contains(6));
    assert_eq!(drain(&mut bst), vec![5]);
}

#[test]
fn values_come_out_in_order() {
    let mut bst = tree_of(&[50, 30, 70, 20, 40, 60, 80, 35, 45, 65]);
    assert_eq!(drain(&mut bst), vec![80, 70, 65, 60, 50, 45, 40, 35, 30, 20]);
    assert_eq!(bst, Tree::new());
}

#[test]
fn ascending_inserts_come_out_in_order() {
    let mut bst = tree_of(&[1, 2, 3, 4, 5]);
    assert_eq!(drain(&mut bst), vec![5, 4, 3, 2, 1]);
}

#[test]
fn descending_inserts_come_out_in_order() {
    let mut bst = tree_of(&[5, 4, 3, 2, 1]);
    assert_eq!(drain(&mut bst), vec![5, 4, 3, 2, 1]);
}

#[test]
fn inserted_values_are_contained() {
    let values = [8, 3, 10, 1, 6, 14, 4, 7, 13];
    let bst = tree_of(&values);
    for v in values {
        assert!(bst.contains(v));
    }
    for v in [0, 2, 5, 9, 11, 12, 15, -1] {
        assert!(!bst.contains(v));
    }
}

#[test]
fn duplicate_insert_is_refused() {
    let mut bst = tree_of(&[7, 3, 9]);
    assert!(matches!(bst.insert(7), Err(TreeOpError::ValueAlreadyExists)));
    assert!(matches!(bst.insert(3), Err(TreeOpError::ValueAlreadyExists)));
    assert!(matches!(bst.insert(9), Err(TreeOpError::ValueAlreadyExists)));
    assert_eq!(drain(&mut bst), vec![9, 7, 3]);
}

#[test]
fn insert_keeps_the_root() {
    let mut bst = tree_of(&[7]);
    bst.insert(3).expect("Failed to insert");
    bst.insert(9).expect("Failed to insert");
    assert_eq!(bst, Tree::leaf(7));
}

#[test]
fn delete_on_empty_tree_fails() {
    let mut bst: Tree<i32> = Tree::new();
    assert!(matches!(bst.delete(&1), Err(TreeOpError::NoValue)));
    assert_eq!(bst, Tree::new());
}

#[test]
fn delete_of_absent_value_fails() {
    let mut bst = tree_of(&[8, 3, 10]);
    assert!(matches!(bst.delete(&5), Err(TreeOpError::NoValue)));
    assert!(matches!(bst.delete(&11), Err(TreeOpError::NoValue)));
    assert_eq!(drain(&mut bst), vec![10, 8, 3]);
}

#[test]
fn delete_then_insert_again() {
    let mut bst = tree_of(&[8, 3, 10, 1, 6]);
    assert!(bst.delete(&3).is_ok());
    assert!(!bst.contains(3));
    assert!(bst.insert(3).is_ok());
    assert!(bst.contains(3));
    assert_eq!(drain(&mut bst), vec![10, 8, 6, 3, 1]);
}

#[test]
fn delete_twice_fails_the_second_time() {
    let mut bst = tree_of(&[2, 23, 20]);
    assert!(matches!(bst.delete(&2), Ok(())));
    assert!(matches!(bst.delete(&23), Ok(())));
    assert!(matches!(bst.delete(&2), Err(TreeOpError::NoValue)));
    assert!(bst.contains(20));
    assert_eq!(bst, Tree::leaf(20));
}

#[test]
fn delete_moves_the_predecessor_up() {
    let mut bst = tree_of(&[10, 5, 15, 3, 7, 6]);
    assert!(bst.delete(&10).is_ok());
    assert_eq!(bst, Tree::leaf(7));
    assert!(!bst.contains(10));
    assert_eq!(drain(&mut bst), vec![15, 7, 6, 5, 3]);
}

#[test]
fn delete_without_left_subtree_promotes_the_right() {
    let mut bst = tree_of(&[10, 15, 12, 20]);
    assert!(bst.delete(&10).is_ok());
    assert_eq!(bst, Tree::leaf(15));
    assert_eq!(drain(&mut bst), vec![20, 15, 12]);
}

#[test]
fn delete_prefers_the_left_subtree() {
    let mut bst = tree_of(&[10, 5, 15]);
    assert!(bst.delete(&10).is_ok());
    assert_eq!(bst, Tree::leaf(5));
    assert_ne!(bst, Tree::leaf(15));
}

#[test]
fn delete_of_the_last_node_leaves_the_empty_tree() {
    let mut bst = tree_of(&[4]);
    assert!(bst.delete(&4).is_ok());
    assert_eq!(bst, Tree::new());
}

#[test]
fn delete_of_an_inner_leaf() {
    let mut bst = tree_of(&[8, 3, 10, 1, 6, 4, 7]);
    assert!(bst.delete(&4).is_ok());
    assert!(bst.delete(&6).is_ok());
    assert!(!bst.contains(4));
    assert!(!bst.contains(6));
    assert_eq!(drain(&mut bst), vec![10, 8, 7, 3, 1]);
}

#[test]
fn predecessor_of_empty_tree_is_none() {
    let mut bst: Tree<i32> = Tree::new();
    assert_eq!(bst.inorder_predecessor(), None);
    assert_eq!(bst, Tree::new());
}

#[test]
fn predecessor_takes_the_greatest_value() {
    let mut bst = tree_of(&[8, 3, 10, 9]);
    assert_eq!(bst.inorder_predecessor(), Some(10));
    assert!(!bst.contains(10));
    assert!(bst.contains(9));
    assert_eq!(bst.inorder_predecessor(), Some(9));
    assert_eq!(bst.inorder_predecessor(), Some(8));
    assert_eq!(bst, Tree::leaf(3));
}

#[test]
fn predecessor_of_the_root_promotes_its_left_subtree() {
    let mut bst = tree_of(&[8, 3, 1, 6]);
    assert_eq!(bst.inorder_predecessor(), Some(8));
    assert_eq!(bst, Tree::leaf(3));
    assert_eq!(drain(&mut bst), vec![6, 3, 1]);
}
