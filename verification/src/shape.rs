//! The mathematical model of a tree: its shape, and what each operation
//! makes of a shape.

use crate::order::{alike, below};
use crate::sorted::{holds, increasing, rank};
use vstd::prelude::*;
use vstd::std_specs::cmp::PartialEqSpec;

verus! {

/// What a tree is in contracts: empty, or a value between two sub-trees.
///
/// The operations find their way by descent: at each node they compare with
/// the node's value, stop where the two are alike, and go on to the left or
/// to the right where theirs sorts before or after it. `finds`, `grafted`,
/// `with` and `without` say where a descent ends and what it leaves, for
/// every shape. For a shape that is `ordered` the same is said over the
/// values read from left to right, by the lemmas on traversals.
pub enum Shape<T> {
    /// No node.
    Empty,
    /// A node with its value and the shapes of its two sub-trees.
    Node { left: Box<Shape<T>>, value: T, right: Box<Shape<T>> },
}

impl<T> Shape<T> {
    /// A single node with two empty sub-trees.
    pub open spec fn leaf(value: T) -> Shape<T> {
        Shape::Node { left: Box::new(Shape::Empty), value, right: Box::new(Shape::Empty) }
    }

    /// The value at the root; arbitrary for the empty shape.
    pub open spec fn root(self) -> T {
        self->value
    }

    /// The values from left to right: those of the left sub-tree, the node's
    /// own, those of the right sub-tree.
    pub open spec fn inorder(self) -> Seq<T>
        decreases self,
    {
        match self {
            Shape::Empty => Seq::empty(),
            Shape::Node { left, value, right } => left.inorder().push(value) + right.inorder(),
        }
    }

    /// The value of the rightmost node, the one reached from the root by
    /// going right as long as there is a node; arbitrary for the empty shape.
    pub open spec fn rightmost(self) -> T
        decreases self,
    {
        match self {
            Shape::Empty => arbitrary(),
            Shape::Node { left, value, right } => {
                if *right is Empty {
                    value
                } else {
                    right.rightmost()
                }
            },
        }
    }

    /// The shape after the rightmost node is taken out and its left sub-tree
    /// is put in its place.
    pub open spec fn without_rightmost(self) -> Shape<T>
        decreases self,
    {
        match self {
            Shape::Empty => Shape::Empty,
            Shape::Node { left, value, right } => {
                if *right is Empty {
                    *left
                } else {
                    Shape::Node { left, value, right: Box::new(right.without_rightmost()) }
                }
            },
        }
    }
}

impl<T: PartialEq> Shape<T> {
    /// Both shapes are empty, or both have a root and `==` holds of the two
    /// root values; the sub-trees are not looked at.
    pub open spec fn same_root(self, other: Shape<T>) -> bool {
        match (self, other) {
            (Shape::Empty, Shape::Empty) => true,
            (Shape::Node { value: a, .. }, Shape::Node { value: b, .. }) => a.eq_spec(&b),
            _ => false,
        }
    }
}

impl<T: Ord> Shape<T> {
    /// The values from left to right are strictly increasing: every node's
    /// value sorts after all values to its left and before all to its right,
    /// and no two values are alike.
    pub open spec fn ordered(self) -> bool {
        increasing(self.inorder())
    }

    /// Some node, wherever it hangs, has a value alike `v`.
    pub open spec fn holds(self, v: T) -> bool {
        holds(self.inorder(), v)
    }

    /// The rank of `v` among the values from left to right: in a
    /// well-ordered shape, how many values sort before `v`.
    pub open spec fn rank(self, v: T) -> int {
        rank(self.inorder(), v)
    }

    /// Whether the descent for `target` ends at a node that holds its like.
    pub open spec fn finds(self, target: T) -> bool
        decreases self,
    {
        match self {
            Shape::Empty => false,
            Shape::Node { left, value, right } => {
                if alike(target, value) {
                    true
                } else if below(target, value) {
                    left.finds(target)
                } else {
                    right.finds(target)
                }
            },
        }
    }

    /// The shape after `other` is hung into the empty slot where the descent
    /// for the root of `other` ends; the shape itself where `other` is empty
    /// or the descent finds the like of its root.
    pub open spec fn grafted(self, other: Shape<T>) -> Shape<T>
        decreases self,
    {
        match self {
            Shape::Empty => other,
            Shape::Node { left, value, right } => {
                if other is Empty || alike(other.root(), value) {
                    self
                } else if below(other.root(), value) {
                    Shape::Node { left: Box::new(left.grafted(other)), value, right }
                } else {
                    Shape::Node { left, value, right: Box::new(right.grafted(other)) }
                }
            },
        }
    }

    /// The shape after `value` is put in as a leaf where its descent ends;
    /// the shape itself where the descent finds its like.
    pub open spec fn with(self, value: T) -> Shape<T> {
        self.grafted(Shape::leaf(value))
    }

    /// The shape after the values of `values` are put in one after another,
    /// from first to last.
    pub open spec fn with_all(self, values: Seq<T>) -> Shape<T>
        decreases values.len(),
    {
        if values.len() == 0 {
            self
        } else {
            self.with_all(values.drop_last()).with(values.last())
        }
    }

    /// The shape after the node that the descent for `target` finds is taken
    /// out: the rightmost value of its left sub-tree moves up into it, or,
    /// where that sub-tree is empty, its right sub-tree takes its place. The
    /// shape itself where the descent finds nothing.
    pub open spec fn without(self, target: T) -> Shape<T>
        decreases self,
    {
        match self {
            Shape::Empty => Shape::Empty,
            Shape::Node { left, value, right } => {
                if alike(target, value) {
                    if *left is Empty {
                        *right
                    } else {
                        Shape::Node {
                            left: Box::new(left.without_rightmost()),
                            value: left.rightmost(),
                            right,
                        }
                    }
                } else if below(target, value) {
                    Shape::Node { left: Box::new(left.without(target)), value, right }
                } else {
                    Shape::Node { left, value, right: Box::new(right.without(target)) }
                }
            },
        }
    }
}

} // verus!
