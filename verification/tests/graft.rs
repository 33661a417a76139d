use binary_search_tree::{Tree, TreeOpError};

fn tree_from(values: &[i32]) -> Tree<i32> {
    let mut bst = Tree::new();
    for v in values {
        bst.insert(*v).expect("Failed to insert");
    }
    bst
}

fn take_all(bst: &mut Tree<i32>) -> Vec<i32> {
    let mut out = Vec::new();
    while let Some(v) = bst.inorder_predecessor() {
        out.push(v);
    }
    out
}

#[test]
fn graft_of_empty_tree_fails() {
    let mut host = tree_from(&[5, 3, 8]);
    assert!(matches!(host.add_to_end(Tree::new()), Err(TreeOpError::NoneTree)));
    assert_eq!(take_all(&mut host), vec![8, 5, 3]);
}

#[test]
fn graft_of_empty_tree_onto_empty_tree_fails() {
    let mut host: Tree<i32> = Tree::new();
    assert!(matches!(host.add_to_end(Tree::new()), Err(TreeOpError::NoneTree)));
    assert_eq!(host, Tree::new());
}

#[test]
fn graft_onto_empty_tree_takes_the_whole_tree() {
    let mut host: Tree<i32> = Tree::new();
    assert!(host.add_to_end(tree_from(&[5, 3, 8])).is_ok());
    assert_eq!(host, Tree::leaf(5));
    assert_eq!(take_all(&mut host), vec![8, 5, 3]);
}

#[test]
fn graft_of_existing_root_fails() {
    let mut host = tree_from(&[10, 5, 15]);
    assert!(matches!(
        host.add_to_end(tree_from(&[5, 4, 6])),
        Err(TreeOpError::ValueAlreadyExists)
    ));
    assert!(!host.contains(4));
    assert!(!host.contains(6));
    assert_eq!(take_all(&mut host), vec![15, 10, 5]);
}

#[test]
fn graft_hangs_the_tree_where_its_root_belongs() {
    let mut host = tree_from(&[10, 20]);
    assert!(host.add_to_end(tree_from(&[5, 3, 7])).is_ok());
    assert_eq!(host, Tree::leaf(10));
    assert!(host.contains(5));
    assert!(host.contains(3));
    assert!(host.contains(7));
    assert_eq!(take_all(&mut host), vec![20, 10, 7, 5, 3]);
}

#[test]
fn graft_descends_to_an_empty_slot() {
    let mut host = tree_from(&[10, 5, 20]);
    assert!(host.add_to_end(tree_from(&[7, 6, 8])).is_ok());
    assert!(host.add_to_end(tree_from(&[30, 25])).is_ok());
    assert_eq!(take_all(&mut host), vec![30, 25, 20, 10, 8, 7, 6, 5]);
}

#[test]
fn graft_compares_the_root_only() {
    let mut host = tree_from(&[2]);
    assert!(host.add_to_end(tree_from(&[5, 1])).is_ok());
    assert!(host.contains(5));
    assert!(!host.contains(1));
    assert_eq!(take_all(&mut host), vec![5, 1, 2]);
}

#[test]
fn delete_after_such_a_graft_may_leave_the_value() {
    let mut other = Tree::new();
    other.insert(3).expect("Failed to insert");
    other.insert(5).expect("Failed to insert");
    let mut host = Tree::leaf(5);
    assert!(host.add_to_end(other).is_ok());
    assert!(host.delete(&5).is_ok());
    assert!(host.contains(5));
    assert_eq!(take_all(&mut host), vec![5, 3]);
}
