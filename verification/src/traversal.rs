//! What the operations on a shape do to its values read from left to right.

use crate::order::{
    above, alike, below, lemma_alike_symmetric, lemma_below_then_alike, total_order,
};
use crate::shape::Shape;
use crate::sorted::{
    fits, holds, lemma_insert_increasing, lemma_rank_bounds, lemma_rank_is,
    lemma_rank_of_increasing, lemma_remove_increasing, lemma_splice_increasing, rank, spliced,
};
use vstd::prelude::*;

verus! {

/// Where each value of a node's traversal comes from: first the left
/// sub-tree's values, then the node's own, then the right sub-tree's.
proof fn lemma_inorder_of_node<T>(shape: Shape<T>)
    requires
        shape is Node,
    ensures
        shape.inorder().len() == shape->left.inorder().len() + 1 + shape->right.inorder().len(),
        forall|i: int|
            0 <= i < shape->left.inorder().len() ==> #[trigger] shape.inorder()[i]
                == shape->left.inorder()[i],
        shape.inorder()[shape->left.inorder().len() as int] == shape->value,
        forall|i: int|
            shape->left.inorder().len() < i < shape.inorder().len()
                ==> #[trigger] shape.inorder()[i] == shape->right.inorder()[i
                - shape->left.inorder().len() - 1],
{
}

/// A leaf's traversal is its one value.
pub proof fn lemma_leaf_inorder<T>(value: T)
    ensures
        Shape::leaf(value).inorder() == seq![value],
{
    assert(Shape::<T>::Empty.inorder().len() == 0);
    assert(Shape::leaf(value).inorder() =~= seq![value]);
}

/// A node is well ordered exactly when both its sub-trees are, every value
/// on the left sorts before the node's value, and every value on the right
/// after it.
pub proof fn lemma_ordered_node<T: Ord>(shape: Shape<T>)
    requires
        total_order::<T>(),
        shape is Node,
    ensures
        shape.ordered() <==> ({
            &&& shape->left.ordered()
            &&& shape->right.ordered()
            &&& forall|i: int|
                0 <= i < shape->left.inorder().len() ==> below(
                    #[trigger] shape->left.inorder()[i],
                    shape->value,
                )
            &&& forall|i: int|
                0 <= i < shape->right.inorder().len() ==> below(
                    shape->value,
                    #[trigger] shape->right.inorder()[i],
                )
        }),
{
    let whole = shape.inorder();
    let l = shape->left.inorder();
    let r = shape->right.inorder();
    let x = shape->value;
    let n = l.len() as int;
    lemma_inorder_of_node(shape);
    if shape.ordered() {
        assert forall|i: int, j: int| 0 <= i < j < l.len() implies below(
            #[trigger] l[i],
            #[trigger] l[j],
        ) by {
            assert(below(whole[i], whole[j]));
        }
        assert forall|i: int, j: int| 0 <= i < j < r.len() implies below(
            #[trigger] r[i],
            #[trigger] r[j],
        ) by {
            assert(below(whole[n + 1 + i], whole[n + 1 + j]));
        }
        assert forall|i: int| 0 <= i < l.len() implies below(#[trigger] l[i], x) by {
            assert(below(whole[i], whole[n]));
        }
        assert forall|i: int| 0 <= i < r.len() implies below(x, #[trigger] r[i]) by {
            assert(below(whole[n], whole[n + 1 + i]));
        }
    } else if shape->left.ordered() && shape->right.ordered() && (forall|i: int|
        0 <= i < l.len() ==> below(#[trigger] l[i], x)) && (forall|i: int|
        0 <= i < r.len() ==> below(x, #[trigger] r[i])) {
        assert forall|i: int, j: int| 0 <= i < j < whole.len() implies below(
            #[trigger] whole[i],
            #[trigger] whole[j],
        ) by {
            if j < n {
                assert(below(l[i], l[j]));
            } else if j == n {
                assert(below(l[i], x));
            } else if i < n {
                assert(below(l[i], x) && below(x, r[j - n - 1]));
            } else if i == n {
                assert(below(x, r[j - n - 1]));
            } else {
                assert(below(r[i - n - 1], r[j - n - 1]));
            }
        }
    }
}

/// The rightmost value of a shape is the last of its traversal, and taking
/// the rightmost node out drops that last value and moves no other.
pub proof fn lemma_rightmost_is_last<T>(shape: Shape<T>)
    requires
        shape is Node,
    ensures
        shape.inorder().len() > 0,
        shape.rightmost() == shape.inorder().last(),
        shape.without_rightmost().inorder() == shape.inorder().drop_last(),
    decreases shape,
{
    lemma_inorder_of_node(shape);
    if *shape->right is Node {
        lemma_rightmost_is_last(*shape->right);
        lemma_inorder_of_node(shape.without_rightmost());
    }
    assert(shape.without_rightmost().inorder() =~= shape.inorder().drop_last());
}

/// In a well-ordered shape the descent finds the like of a value exactly
/// when some node holds one.
pub proof fn lemma_finds_iff_holds<T: Ord>(shape: Shape<T>, target: T)
    requires
        total_order::<T>(),
        shape.ordered(),
    ensures
        shape.finds(target) <==> shape.holds(target),
    decreases shape,
{
    if shape is Node {
        let whole = shape.inorder();
        let l = shape->left.inorder();
        let r = shape->right.inorder();
        let x = shape->value;
        lemma_inorder_of_node(shape);
        lemma_ordered_node(shape);
        if alike(target, x) {
            assert(alike(target, whole[l.len() as int]));
        } else if below(target, x) {
            lemma_finds_iff_holds(*shape->left, target);
            if holds(l, target) {
                let i = choose|i: int| 0 <= i < l.len() && alike(target, #[trigger] l[i]);
                assert(alike(target, whole[i]));
            }
            if holds(whole, target) {
                let i = choose|i: int| 0 <= i < whole.len() && alike(target, #[trigger] whole[i]);
                if i > l.len() {
                    let e = r[i - l.len() - 1];
                    assert(below(target, x) && below(x, e));
                }
                assert(alike(target, l[i]));
            }
        } else {
            lemma_finds_iff_holds(*shape->right, target);
            assert(below(x, target) <==> above(target, x));
            if holds(r, target) {
                let i = choose|i: int| 0 <= i < r.len() && alike(target, #[trigger] r[i]);
                assert(alike(target, whole[l.len() + 1 + i]));
            }
            if holds(whole, target) {
                let i = choose|i: int| 0 <= i < whole.len() && alike(target, #[trigger] whole[i]);
                if i < l.len() {
                    let e = l[i];
                    assert(below(e, x) && below(x, target));
                    lemma_alike_symmetric(target, e);
                }
                assert(alike(target, r[i - l.len() - 1]));
            }
        }
    }
}

/// Grafting changes nothing where the other shape is empty or the descent
/// finds the like of its root.
pub proof fn lemma_grafted_unchanged<T: Ord>(shape: Shape<T>, other: Shape<T>)
    requires
        other is Empty || shape.finds(other.root()),
    ensures
        shape.grafted(other) == shape,
    decreases shape,
{
    if shape is Node && other is Node && !alike(other.root(), shape->value) {
        if below(other.root(), shape->value) {
            lemma_grafted_unchanged(*shape->left, other);
        } else {
            lemma_grafted_unchanged(*shape->right, other);
        }
    }
}

/// Taking out a value changes nothing where the descent does not find its
/// like.
pub proof fn lemma_without_unchanged<T: Ord>(shape: Shape<T>, target: T)
    requires
        !shape.finds(target),
    ensures
        shape.without(target) == shape,
    decreases shape,
{
    if shape is Node {
        if below(target, shape->value) {
            lemma_without_unchanged(*shape->left, target);
        } else {
            lemma_without_unchanged(*shape->right, target);
        }
    }
}

/// The rank of a value in a well-ordered node's traversal, from its rank in
/// the sub-tree that its descent turns to.
proof fn lemma_rank_in_node<T: Ord>(shape: Shape<T>, v: T)
    requires
        total_order::<T>(),
        shape is Node,
        shape.ordered(),
    ensures
        alike(v, shape->value) ==> shape.rank(v) == shape->left.inorder().len(),
        below(v, shape->value) ==> shape.rank(v) == shape->left.rank(v),
        above(v, shape->value) ==> shape.rank(v) == shape->left.inorder().len() + 1
            + shape->right.rank(v),
{
    let whole = shape.inorder();
    let l = shape->left.inorder();
    let r = shape->right.inorder();
    let x = shape->value;
    lemma_inorder_of_node(shape);
    lemma_ordered_node(shape);
    lemma_alike_symmetric(v, x);
    assert(below(x, v) <==> above(v, x));
    if alike(v, x) {
        assert forall|i: int| 0 <= i < l.len() implies below(#[trigger] whole[i], v) by {
            lemma_below_then_alike(l[i], x, v);
        }
        lemma_rank_is(whole, v, l.len() as int);
    } else if below(v, x) {
        let k = rank(l, v);
        lemma_rank_bounds(l, v);
        assert forall|i: int| 0 <= i < k implies below(#[trigger] whole[i], v) by {
            assert(below(l[i], v));
        }
        lemma_rank_is(whole, v, k);
    } else {
        let k = rank(r, v);
        lemma_rank_bounds(r, v);
        assert forall|i: int| 0 <= i < l.len() + 1 + k implies below(#[trigger] whole[i], v) by {
            if i < l.len() {
                assert(below(l[i], x) && below(x, v));
            } else if i > l.len() {
                assert(below(r[i - l.len() - 1], v));
            }
        }
        lemma_rank_is(whole, v, l.len() + 1 + k);
    }
}

/// Grafting onto a well-ordered shape in which the descent does not find
/// the like of the other shape's root puts the other shape's whole traversal
/// in at the rank of that root, and moves nothing else.
pub proof fn lemma_grafted_inorder<T: Ord>(shape: Shape<T>, other: Shape<T>)
    requires
        total_order::<T>(),
        shape.ordered(),
        other is Node,
        !shape.finds(other.root()),
    ensures
        shape.grafted(other).inorder() == spliced(
            shape.inorder(),
            shape.rank(other.root()),
            other.inorder(),
        ),
    decreases shape,
{
    let v = other.root();
    lemma_rank_bounds(shape.inorder(), v);
    if shape is Node {
        lemma_inorder_of_node(shape);
        lemma_ordered_node(shape);
        lemma_rank_in_node(shape, v);
        lemma_inorder_of_node(shape.grafted(other));
        if below(v, shape->value) {
            lemma_grafted_inorder(*shape->left, other);
            lemma_rank_bounds(shape->left.inorder(), v);
        } else {
            lemma_grafted_inorder(*shape->right, other);
            lemma_rank_bounds(shape->right.inorder(), v);
        }
    }
    assert(shape.grafted(other).inorder() =~= spliced(
        shape.inorder(),
        shape.rank(v),
        other.inorder(),
    ));
}

/// Grafting onto a well-ordered shape leaves it well ordered exactly when
/// the other shape is well ordered and all its values, not only its root,
/// belong between the two values next to the slot that it is hung into.
pub proof fn lemma_grafted_ordered<T: Ord>(shape: Shape<T>, other: Shape<T>)
    requires
        total_order::<T>(),
        shape.ordered(),
        other is Node,
        !shape.finds(other.root()),
    ensures
        shape.grafted(other).ordered() <==> other.ordered() && fits(
            shape.inorder(),
            shape.rank(other.root()),
            other.inorder(),
        ),
{
    lemma_grafted_inorder(shape, other);
    lemma_rank_bounds(shape.inorder(), other.root());
    lemma_splice_increasing(shape.inorder(), shape.rank(other.root()), other.inorder());
}

/// Putting a value into a well-ordered shape in which the descent does not
/// find its like puts it into the traversal at its rank, and leaves the shape
/// well ordered.
pub proof fn lemma_with_inorder<T: Ord>(shape: Shape<T>, value: T)
    requires
        total_order::<T>(),
        shape.ordered(),
        !shape.finds(value),
    ensures
        shape.with(value).inorder() == shape.inorder().insert(shape.rank(value), value),
        shape.with(value).ordered(),
{
    lemma_leaf_inorder(value);
    lemma_grafted_inorder(shape, Shape::leaf(value));
    lemma_rank_bounds(shape.inorder(), value);
    assert(shape.with(value).inorder() =~= shape.inorder().insert(shape.rank(value), value));
    lemma_finds_iff_holds(shape, value);
    lemma_insert_increasing(shape.inorder(), value);
}

/// Taking a value out of a well-ordered shape in which the descent finds its
/// like takes the value at its rank, which is that like, out of the
/// traversal, and leaves the shape well ordered.
pub proof fn lemma_without_inorder<T: Ord>(shape: Shape<T>, target: T)
    requires
        total_order::<T>(),
        shape.ordered(),
        shape.finds(target),
    ensures
        0 <= shape.rank(target) < shape.inorder().len(),
        alike(target, shape.inorder()[shape.rank(target)]),
        shape.without(target).inorder() == shape.inorder().remove(shape.rank(target)),
        shape.without(target).ordered(),
    decreases shape,
{
    let whole = shape.inorder();
    let k = rank(whole, target);
    let after = shape.without(target);
    lemma_rank_bounds(whole, target);
    lemma_finds_iff_holds(shape, target);
    lemma_rank_of_increasing(whole, target);
    lemma_inorder_of_node(shape);
    lemma_ordered_node(shape);
    lemma_rank_in_node(shape, target);
    if alike(target, shape->value) {
        if *shape->left is Node {
            lemma_rightmost_is_last(*shape->left);
            lemma_inorder_of_node(after);
        }
    } else if below(target, shape->value) {
        lemma_without_inorder(*shape->left, target);
        lemma_inorder_of_node(after);
    } else {
        lemma_without_inorder(*shape->right, target);
        lemma_inorder_of_node(after);
    }
    assert(after.inorder() =~= whole.remove(k));
    lemma_remove_increasing(whole, k);
}

} // verus!
