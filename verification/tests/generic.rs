use binary_search_tree::{Tree, TreeOpError};

#[test]
fn tree_of_strings() {
    let mut bst = Tree::new();
    bst.insert(String::from("pear")).expect("Failed to insert");
    bst.insert(String::from("apple")).expect("Failed to insert");
    bst.insert(String::from("quince")).expect("Failed to insert");
    assert!(bst.contains(String::from("apple")));
    assert!(!bst.contains(String::from("plum")));
    assert!(matches!(
        bst.insert(String::from("pear")),
        Err(TreeOpError::ValueAlreadyExists)
    ));
    assert!(bst.delete(&String::from("pear")).is_ok());
    assert_eq!(bst, Tree::leaf(String::from("apple")));
    assert_eq!(bst.inorder_predecessor(), Some(String::from("quince")));
    assert_eq!(bst.inorder_predecessor(), Some(String::from("apple")));
    assert_eq!(bst.inorder_predecessor(), None);
}

#[test]
fn tree_of_pairs() {
    let mut bst = Tree::new();
    bst.insert((2u8, 1u8)).expect("Failed to insert");
    bst.insert((1, 9)).expect("Failed to insert");
    bst.insert((2, 0)).expect("Failed to insert");
    assert!(bst.contains((1, 9)));
    assert!(!bst.contains((1, 0)));
    assert_eq!(bst.inorder_predecessor(), Some((2, 1)));
    assert_eq!(bst.inorder_predecessor(), Some((2, 0)));
    assert_eq!(bst.inorder_predecessor(), Some((1, 9)));
}

#[test]
fn extreme_values() {
    let mut bst = Tree::new();
    bst.insert(0i64).expect("Failed to insert");
    bst.insert(i64::MAX).expect("Failed to insert");
    bst.insert(i64::MIN).expect("Failed to insert");
    assert!(bst.contains(i64::MIN));
    assert!(bst.contains(i64::MAX));
    assert!(bst.delete(&0).is_ok());
    assert_eq!(bst, Tree::leaf(i64::MIN));
    assert_eq!(bst.inorder_predecessor(), Some(i64::MAX));
    assert_eq!(bst.inorder_predecessor(), Some(i64::MIN));
}

#[test]
fn a_long_chain() {
    let mut bst = Tree::new();
    for v in 0..500u32 {
        bst.insert(v).expect("Failed to insert");
    }
    for v in 0..500u32 {
        assert!(bst.contains(v));
    }
    assert!(!bst.contains(500));
    for v in (0..500u32).step_by(2) {
        assert!(bst.delete(&v).is_ok());
    }
    for v in 0..500u32 {
        assert_eq!(bst.contains(v), v % 2 == 1);
    }
    let mut greatest = 499;
    while let Some(v) = bst.inorder_predecessor() {
        assert_eq!(v, greatest);
        greatest = greatest.wrapping_sub(2);
    }
}
