//! What holds of the operations taken together.

use crate::order::{
    above, alike, below, lemma_alike_reflexive, lemma_alike_symmetric, lemma_alike_then_below,
    lemma_below_then_alike, total_order,
};
use crate::shape::Shape;
use crate::sorted::{holds, lemma_rank_of_increasing, rank};
use crate::traversal::{
    lemma_finds_iff_holds, lemma_grafted_unchanged, lemma_with_inorder, lemma_without_inorder,
    lemma_without_unchanged,
};
use vstd::prelude::*;
use vstd::std_specs::cmp::PartialEqSpec;

verus! {

/// No two values of a well-ordered shape are alike.
pub proof fn lemma_ordered_distinct<T: Ord>(shape: Shape<T>)
    requires
        total_order::<T>(),
        shape.ordered(),
    ensures
        forall|i: int, j: int|
            0 <= i < shape.inorder().len() && 0 <= j < shape.inorder().len() && i != j ==> !alike(
                #[trigger] shape.inorder()[i],
                #[trigger] shape.inorder()[j],
            ),
{
    let s = shape.inorder();
    assert forall|i: int, j: int| 0 <= i < s.len() && 0 <= j < s.len() && i != j implies !alike(
        #[trigger] s[i],
        #[trigger] s[j],
    ) by {
        lemma_alike_symmetric(s[i], s[j]);
        if i < j {
            assert(below(s[i], s[j]));
        } else {
            assert(below(s[j], s[i]));
        }
    }
}

/// A well-ordered shape stays well ordered however many values are put in,
/// whether each of them is taken or refused. The empty shape is well ordered,
/// so this holds of every tree that was made by putting values in.
pub proof fn lemma_inserts_keep_order<T: Ord>(shape: Shape<T>, values: Seq<T>)
    requires
        total_order::<T>(),
        shape.ordered(),
    ensures
        shape.with_all(values).ordered(),
    decreases values.len(),
{
    if values.len() > 0 {
        let before = shape.with_all(values.drop_last());
        lemma_inserts_keep_order(shape, values.drop_last());
        if before.finds(values.last()) {
            lemma_grafted_unchanged(before, Shape::leaf(values.last()));
        } else {
            lemma_with_inorder(before, values.last());
        }
    }
}

/// After a value is put in, the descent finds the like of a target exactly
/// when it found it before or the target is alike the value. This holds of
/// every shape, well ordered or not.
pub proof fn lemma_with_finds<T: Ord>(shape: Shape<T>, value: T, target: T)
    requires
        total_order::<T>(),
    ensures
        shape.with(value).finds(target) <==> shape.finds(target) || alike(target, value),
    decreases shape,
{
    lemma_alike_symmetric(target, value);
    match shape {
        Shape::Empty => {
            assert(!Shape::<T>::Empty.finds(target));
        },
        Shape::Node { left, value: x, right } => {
            lemma_alike_symmetric(value, x);
            lemma_alike_symmetric(target, x);
            assert(below(x, value) <==> above(value, x));
            assert(below(x, target) <==> above(target, x));
            if alike(value, x) {
                if alike(target, value) {
                    assert(alike(target, value) && alike(value, x));
                }
            } else if below(value, x) {
                assert(left.with(value) == left.grafted(Shape::leaf(value)));
                lemma_with_finds(*left, value, target);
                if alike(target, value) {
                    lemma_alike_then_below(target, value, x);
                }
            } else {
                assert(right.with(value) == right.grafted(Shape::leaf(value)));
                lemma_with_finds(*right, value, target);
                if alike(target, value) {
                    lemma_below_then_alike(x, value, target);
                }
            }
        },
    }
}

/// After the values of `values` are put into a shape, the descent finds
/// the like of a target exactly when it found it before or `values` holds
/// one. So a tree that was made by putting values into the empty tree
/// contains what was put in and nothing else.
pub proof fn lemma_with_all_finds<T: Ord>(shape: Shape<T>, values: Seq<T>, target: T)
    requires
        total_order::<T>(),
    ensures
        shape.with_all(values).finds(target) <==> shape.finds(target) || holds(values, target),
    decreases values.len(),
{
    if values.len() > 0 {
        let front = values.drop_last();
        lemma_with_all_finds(shape, front, target);
        lemma_with_finds(shape.with_all(front), values.last(), target);
        if holds(front, target) {
            let i = choose|i: int| 0 <= i < front.len() && alike(target, #[trigger] front[i]);
            assert(alike(target, values[i]));
        }
        if alike(target, values.last()) {
            assert(alike(target, values[values.len() - 1]));
        }
        if holds(values, target) {
            let i = choose|i: int| 0 <= i < values.len() && alike(target, #[trigger] values[i]);
            if i < front.len() {
                assert(alike(target, front[i]));
            }
        }
    }
}

/// A value that was put in is found, so putting it in once more is refused
/// and changes nothing.
pub proof fn lemma_with_twice<T: Ord>(shape: Shape<T>, value: T)
    requires
        total_order::<T>(),
    ensures
        shape.with(value).finds(value),
        shape.with(value).with(value) == shape.with(value),
{
    lemma_alike_reflexive(value);
    lemma_with_finds(shape, value, value);
    lemma_grafted_unchanged(shape.with(value), Shape::leaf(value));
}

/// After a value is taken out of a well-ordered shape, the descent finds
/// the like of a target exactly when it found it before and the target is not
/// alike the value.
pub proof fn lemma_without_finds<T: Ord>(shape: Shape<T>, value: T, target: T)
    requires
        total_order::<T>(),
        shape.ordered(),
    ensures
        shape.without(value).finds(target) <==> shape.finds(target) && !alike(target, value),
{
    let whole = shape.inorder();
    let k = rank(whole, value);
    lemma_alike_symmetric(target, value);
    lemma_finds_iff_holds(shape, target);
    lemma_finds_iff_holds(shape, value);
    lemma_rank_of_increasing(whole, value);
    if shape.finds(value) {
        lemma_without_inorder(shape, value);
        let rest = whole.remove(k);
        lemma_finds_iff_holds(shape.without(value), target);
        if holds(rest, target) {
            let i = choose|i: int| 0 <= i < rest.len() && alike(target, #[trigger] rest[i]);
            let j = if i < k { i } else { i + 1 };
            assert(alike(target, whole[j]));
            if alike(target, value) {
                assert(alike(value, target) && alike(target, whole[j]));
            }
        }
        if holds(whole, target) && !alike(target, value) {
            let j = choose|j: int| 0 <= j < whole.len() && alike(target, #[trigger] whole[j]);
            if j == k {
                lemma_alike_symmetric(value, whole[k]);
                assert(alike(target, whole[k]) && alike(whole[k], value));
            }
            let i = if j < k { j } else { j - 1 };
            assert(alike(target, rest[i]));
        }
    } else {
        lemma_without_unchanged(shape, value);
        if holds(whole, target) && alike(target, value) {
            let j = choose|j: int| 0 <= j < whole.len() && alike(target, #[trigger] whole[j]);
            assert(alike(value, target) && alike(target, whole[j]));
        }
    }
}

/// A value that was taken out of a well-ordered shape is no longer found, so
/// putting it in again is not refused.
pub proof fn lemma_without_then_absent<T: Ord>(shape: Shape<T>, value: T)
    requires
        total_order::<T>(),
        shape.ordered(),
    ensures
        !shape.without(value).finds(value),
{
    lemma_alike_reflexive(value);
    lemma_without_finds(shape, value, value);
}

/// Two empty shapes have the same root; two nodes have it exactly when `==`
/// holds of their root values, whatever their sub-trees are; and so a shape
/// has the same root as a leaf exactly when it is a node whose root value
/// `==` the leaf's.
pub proof fn lemma_same_root<T: PartialEq>(a: Shape<T>, b: Shape<T>, value: T)
    ensures
        Shape::<T>::Empty.same_root(Shape::Empty),
        a is Node && b is Node ==> (a.same_root(b) <==> a.root().eq_spec(&b.root())),
        a.same_root(Shape::leaf(value)) <==> a is Node && a.root().eq_spec(&value),
{
}

} // verus!
