//! The tree and its operations.

use crate::order::total_order;
use crate::shape::Shape;
use crate::sorted::{fits, spliced};
use crate::traversal::{
    lemma_finds_iff_holds, lemma_grafted_inorder, lemma_grafted_ordered,
    lemma_grafted_unchanged, lemma_leaf_inorder, lemma_rightmost_is_last, lemma_with_inorder,
    lemma_without_inorder, lemma_without_unchanged,
};
use std::cmp::Ordering;
use std::fmt::Debug;
use vstd::prelude::*;
use vstd::std_specs::cmp::{PartialEqSpec, PartialEqSpecImpl};

verus! {

/// A binary search tree without balancing: every slot is empty or owns one
/// node, and a node owns a value and the two slots below it.
///
/// The operations descend from the root by comparing with each node's value.
/// `insert`, `delete` and `inorder_predecessor` keep a well-ordered tree well
/// ordered. `add_to_end` compares only the root of the tree that it hangs in,
/// so it can leave a tree that is not well ordered; the operations still do
/// on such a tree what their contracts say of its shape.
#[derive(Debug)]
pub struct Tree<T>(Option<Box<Node<T>>>);

#[derive(Debug)]
struct Node<T> {
    value: T,
    left: Tree<T>,
    right: Tree<T>,
}

/// Why an operation on a tree was refused.
#[derive(Debug)]
pub enum TreeOpError {
    /// The descent ended at an empty slot without finding the value.
    NoValue,
    /// The descent found a value alike the one to be put in.
    ValueAlreadyExists,
    /// The tree to be hung in is empty.
    NoneTree,
}

impl<T> View for Tree<T> {
    type V = Shape<T>;

    /// The shape of the tree: its nodes with their values, as they hang.
    closed spec fn view(&self) -> Shape<T>
        decreases self,
    {
        match self.0 {
            None => Shape::Empty,
            Some(n) => Shape::Node {
                left: Box::new(n.left.view()),
                value: n.value,
                right: Box::new(n.right.view()),
            },
        }
    }
}

impl<T> Tree<T> where T: Ord + Debug {
    /// The empty tree.
    pub fn new() -> (tree: Self)
        ensures
            tree@ == Shape::<T>::Empty,
            tree@.ordered(),
    {
        Tree(None)
    }

    /// A tree of one node.
    pub fn leaf(value: T) -> (tree: Self)
        ensures
            tree@ == Shape::leaf(value),
            tree@.inorder() == seq![value],
            tree@.ordered(),
    {
        let left = Tree::new();
        let right = Tree::new();
        proof {
            lemma_leaf_inorder(value);
        }
        Tree(Some(Box::new(Node { value, left, right })))
    }

    /// Puts `value` in as a leaf where its descent ends. Where the descent
    /// finds a value alike it, the tree is left as it is and the value is
    /// refused as `ValueAlreadyExists`. In a well-ordered tree the value goes
    /// in at its rank among the values from left to right.
    pub fn insert(&mut self, value: T) -> (result: Result<(), TreeOpError>)
        requires
            total_order::<T>(),
        ensures
            result == (if old(self)@.finds(value) {
                Err::<(), TreeOpError>(TreeOpError::ValueAlreadyExists)
            } else {
                Ok(())
            }),
            final(self)@ == old(self)@.with(value),
            result is Err ==> final(self)@ == old(self)@,
            old(self)@.ordered() ==> final(self)@.ordered(),
            old(self)@.ordered() ==> (result is Err <==> old(self)@.holds(value)),
            old(self)@.ordered() && result is Ok ==> final(self)@.inorder()
                == old(self)@.inorder().insert(old(self)@.rank(value), value),
        decreases *old(self),
    {
        proof {
            if old(self)@.finds(value) {
                lemma_grafted_unchanged(old(self)@, Shape::leaf(value));
            } else if old(self)@.ordered() {
                lemma_with_inorder(old(self)@, value);
            }
            if old(self)@.ordered() {
                lemma_finds_iff_holds(old(self)@, value);
            }
        }
        match self.0 {
            Some(ref mut n) => match value.cmp(&n.value) {
                Ordering::Equal => Err(TreeOpError::ValueAlreadyExists),
                Ordering::Less => n.left.insert(value),
                Ordering::Greater => n.right.insert(value),
            },
            None => {
                *self = Tree::leaf(value);
                Ok(())
            },
        }
    }

    /// Whether the descent for `target` finds a value alike it. In a
    /// well-ordered tree that is whether the tree holds such a value at all.
    pub fn contains(&self, target: T) -> (found: bool)
        requires
            total_order::<T>(),
        ensures
            found == self@.finds(target),
            self@.ordered() ==> found == self@.holds(target),
        decreases self,
    {
        proof {
            if self@.ordered() {
                lemma_finds_iff_holds(self@, target);
            }
        }
        match self.0 {
            Some(ref n) => match target.cmp(&n.value) {
                Ordering::Equal => true,
                Ordering::Less => n.left.contains(target),
                Ordering::Greater => n.right.contains(target),
            },
            None => false,
        }
    }

    /// Hangs `tree` as a whole into the empty slot where the descent for its
    /// root value ends. An empty `tree` is refused as `NoneTree`, and one
    /// whose root value the descent finds the like of as `ValueAlreadyExists`;
    /// this tree is then left as it is.
    ///
    /// Only the root of `tree` is compared with the values of this tree. Hung
    /// into a well-ordered tree, the values of `tree` go in together at the
    /// rank of its root, and the result is well ordered only if `tree` is and
    /// all its values fit there.
    pub fn add_to_end(&mut self, tree: Tree<T>) -> (result: Result<(), TreeOpError>)
        requires
            total_order::<T>(),
        ensures
            result == (if tree@ is Empty {
                Err::<(), TreeOpError>(TreeOpError::NoneTree)
            } else if old(self)@.finds(tree@.root()) {
                Err(TreeOpError::ValueAlreadyExists)
            } else {
                Ok(())
            }),
            final(self)@ == old(self)@.grafted(tree@),
            result is Err ==> final(self)@ == old(self)@,
            old(self)@.ordered() && tree@ is Node ==> (result is Err
                <==> old(self)@.holds(tree@.root())),
            old(self)@.ordered() && result is Ok ==> final(self)@.inorder() == spliced(
                old(self)@.inorder(),
                old(self)@.rank(tree@.root()),
                tree@.inorder(),
            ),
            old(self)@.ordered() && result is Ok ==> (final(self)@.ordered() <==> tree@.ordered()
                && fits(old(self)@.inorder(), old(self)@.rank(tree@.root()), tree@.inorder())),
        decreases *old(self),
    {
        proof {
            if tree@ is Empty || old(self)@.finds(tree@.root()) {
                lemma_grafted_unchanged(old(self)@, tree@);
            } else if old(self)@.ordered() {
                lemma_grafted_inorder(old(self)@, tree@);
                lemma_grafted_ordered(old(self)@, tree@);
            }
            if old(self)@.ordered() {
                lemma_finds_iff_holds(old(self)@, tree@.root());
            }
        }
        let target = if tree.0.is_some() {
            &tree.0.as_ref().unwrap().value
        } else {
            return Err(TreeOpError::NoneTree);
        };

        match self.0 {
            Some(ref mut n) => match target.cmp(&n.value) {
                Ordering::Equal => Err(TreeOpError::ValueAlreadyExists),
                Ordering::Less => n.left.add_to_end(tree),
                Ordering::Greater => n.right.add_to_end(tree),
            },
            None => {
                *self = tree;
                Ok(())
            },
        }
    }

    /// Takes out the node that the descent for `target` finds. The rightmost
    /// value of its left sub-tree moves up into its place; where that
    /// sub-tree is empty, the right sub-tree takes the node's place. Where
    /// the descent finds nothing, the tree is left as it is and the call
    /// fails with `NoValue`.
    pub fn delete(&mut self, target: &T) -> (result: Result<(), TreeOpError>)
        requires
            total_order::<T>(),
        ensures
            result == (if old(self)@.finds(*target) {
                Ok::<(), TreeOpError>(())
            } else {
                Err(TreeOpError::NoValue)
            }),
            final(self)@ == old(self)@.without(*target),
            result is Err ==> final(self)@ == old(self)@,
            old(self)@.ordered() ==> final(self)@.ordered(),
            old(self)@.ordered() ==> (result is Ok <==> old(self)@.holds(*target)),
            old(self)@.ordered() && result is Ok ==> final(self)@.inorder()
                == old(self)@.inorder().remove(old(self)@.rank(*target)),
        decreases *old(self),
    {
        proof {
            if !old(self)@.finds(*target) {
                lemma_without_unchanged(old(self)@, *target);
            } else if old(self)@.ordered() {
                lemma_without_inorder(old(self)@, *target);
            }
            if old(self)@.ordered() {
                lemma_finds_iff_holds(old(self)@, *target);
            }
        }
        let Node { value, left, right } = match &mut self.0 {
            Some(n) => &mut **n,
            None => return Err(TreeOpError::NoValue),
        };

        match target.cmp(value) {
            Ordering::Equal => {
                match left.inorder_predecessor() {
                    Some(predecessor) => *value = predecessor,
                    None => self.0 = right.0.take(),
                }
                Ok(())
            },
            Ordering::Less => left.delete(target),
            Ordering::Greater => right.delete(target),
        }
    }

    /// Takes the rightmost node out of the tree and returns its value, the
    /// last one from left to right; the node's left sub-tree takes its place.
    /// An empty tree gives `None`. Called on a node's left sub-tree, this
    /// gives the value that comes just before the node's own.
    pub fn inorder_predecessor(&mut self) -> (taken: Option<T>)
        ensures
            taken == (if old(self)@ is Empty {
                None::<T>
            } else {
                Some(old(self)@.rightmost())
            }),
            final(self)@ == old(self)@.without_rightmost(),
            old(self)@ is Node ==> taken == Some(old(self)@.inorder().last()),
            old(self)@ is Node ==> final(self)@.inorder() == old(self)@.inorder().drop_last(),
            old(self)@.ordered() ==> final(self)@.ordered(),
        decreases *old(self),
    {
        proof {
            if old(self)@ is Node {
                lemma_rightmost_is_last(old(self)@);
            }
        }
        match &mut self.0 {
            Some(n) => match n.right.inorder_predecessor() {
                Some(child) => Some(child),
                None => {
                    let predecessor = self.0.take().unwrap();
                    self.0 = predecessor.left.0;
                    Some(predecessor.value)
                },
            },
            None => None,
        }
    }
}

impl<T> Default for Tree<T> where T: Ord + Debug {
    /// The empty tree.
    fn default() -> (tree: Self)
        ensures
            tree@ == Shape::<T>::Empty,
            tree@.ordered(),
    {
        Self::new()
    }
}

impl<T> PartialEq for Tree<T> where T: PartialEq {
    /// Whether both trees are empty, or both have a root and the two root
    /// values are equal. Nothing below the roots is compared.
    fn eq(&self, other: &Self) -> (same: bool)
        ensures
            self@ is Empty && other@ is Empty ==> same,
            (self@ is Empty) != (other@ is Empty) ==> !same,
    {
        match (self.0.as_ref(), other.0.as_ref()) {
            (Some(a), Some(b)) => a.value == b.value,
            (None, None) => true,
            _ => false,
        }
    }
}

impl<T> PartialEqSpecImpl for Tree<T> where T: PartialEq {
    /// `==` on trees is as exact as `==` on their values.
    open spec fn obeys_eq_spec() -> bool {
        T::obeys_eq_spec()
    }

    /// What `==` on trees computes.
    open spec fn eq_spec(&self, other: &Self) -> bool {
        self@.same_root(other@)
    }
}

} // verus!
