//! Strictly increasing sequences: what a well-ordered tree yields when it is
//! read from left to right.

use crate::order::{
    above, alike, below, lemma_alike_symmetric, lemma_below_then_alike, total_order,
};
use vstd::prelude::*;

verus! {

/// Every value of `s` sorts strictly before each one that comes after it.
pub open spec fn increasing<T: Ord>(s: Seq<T>) -> bool {
    forall|i: int, j: int| 0 <= i < j < s.len() ==> below(#[trigger] s[i], #[trigger] s[j])
}

/// Some value of `s` is alike `v`.
pub open spec fn holds<T: Ord>(s: Seq<T>, v: T) -> bool {
    exists|i: int| 0 <= i < s.len() && alike(v, #[trigger] s[i])
}

/// How many values at the front of `s` sort before `v`, up to the first one
/// that does not. In an increasing sequence this is the number of all values
/// that sort before `v`, and so the index at which `v` belongs.
pub open spec fn rank<T: Ord>(s: Seq<T>, v: T) -> int
    decreases s.len(),
{
    if s.len() > 0 && below(s.first(), v) {
        1 + rank(s.drop_first(), v)
    } else {
        0
    }
}

/// The rank lies within the sequence or at its end, the values before it
/// sort before `v`, and the value at it does not.
pub proof fn lemma_rank_bounds<T: Ord>(s: Seq<T>, v: T)
    ensures
        0 <= rank(s, v) <= s.len(),
        forall|i: int| 0 <= i < rank(s, v) ==> below(#[trigger] s[i], v),
        rank(s, v) < s.len() ==> !below(s[rank(s, v)], v),
    decreases s.len(),
{
    if s.len() > 0 && below(s.first(), v) {
        let rest = s.drop_first();
        lemma_rank_bounds(rest, v);
        assert forall|i: int| 0 <= i < rank(s, v) implies below(#[trigger] s[i], v) by {
            if i > 0 {
                assert(s[i] == rest[i - 1]);
            }
        }
        if rank(s, v) < s.len() {
            assert(s[rank(s, v)] == rest[rank(rest, v)]);
        }
    }
}

/// An index is the rank if every value before it sorts before `v` and the
/// value at it does not.
pub proof fn lemma_rank_is<T: Ord>(s: Seq<T>, v: T, k: int)
    requires
        0 <= k <= s.len(),
        forall|i: int| 0 <= i < k ==> below(#[trigger] s[i], v),
        k < s.len() ==> !below(s[k], v),
    ensures
        rank(s, v) == k,
    decreases s.len(),
{
    if k > 0 {
        let rest = s.drop_first();
        assert(below(s[0], v));
        assert forall|i: int| 0 <= i < k - 1 implies below(#[trigger] rest[i], v) by {
            assert(rest[i] == s[i + 1]);
        }
        if k - 1 < rest.len() {
            assert(rest[k - 1] == s[k]);
        }
        lemma_rank_is(rest, v, k - 1);
    }
}

/// In an increasing sequence no value from the rank on sorts before `v`, and
/// only the value at the rank can be alike `v`.
pub proof fn lemma_rank_of_increasing<T: Ord>(s: Seq<T>, v: T)
    requires
        total_order::<T>(),
        increasing(s),
    ensures
        forall|i: int| rank(s, v) <= i < s.len() ==> !below(#[trigger] s[i], v),
        forall|i: int| 0 <= i < s.len() && alike(v, #[trigger] s[i]) ==> i == rank(s, v),
        holds(s, v) <==> rank(s, v) < s.len() && alike(v, s[rank(s, v)]),
{
    let r = rank(s, v);
    lemma_rank_bounds(s, v);
    assert forall|i: int| r <= i < s.len() implies !below(#[trigger] s[i], v) by {
        if i > r && below(s[i], v) {
            assert(below(s[r], s[i]) && below(s[i], v));
        }
    }
    assert forall|i: int| 0 <= i < s.len() && alike(v, #[trigger] s[i]) implies i == r by {
        lemma_alike_symmetric(v, s[i]);
        if i > r {
            assert(below(s[r], s[i]));
            lemma_below_then_alike(s[r], s[i], v);
        }
    }
}

/// The sequence `s` with the whole of `o` put in before index `k`.
pub open spec fn spliced<T>(s: Seq<T>, k: int, o: Seq<T>) -> Seq<T> {
    s.subrange(0, k) + o + s.subrange(k, s.len() as int)
}

/// Every value of `o` sorts after the value of `s` just before index `k`
/// and before the value of `s` at index `k`, as far as `s` has them.
pub open spec fn fits<T: Ord>(s: Seq<T>, k: int, o: Seq<T>) -> bool {
    forall|i: int|
        0 <= i < o.len() ==> {
            &&& k > 0 ==> below(s[k - 1], #[trigger] o[i])
            &&& k < s.len() ==> below(o[i], s[k])
        }
}

/// A sequence put into an increasing one at index `k` gives an increasing
/// sequence exactly when it is increasing itself and fits there.
pub proof fn lemma_splice_increasing<T: Ord>(s: Seq<T>, k: int, o: Seq<T>)
    requires
        total_order::<T>(),
        increasing(s),
        0 <= k <= s.len(),
    ensures
        increasing(spliced(s, k, o)) <==> increasing(o) && fits(s, k, o),
{
    let t = spliced(s, k, o);
    let n = o.len() as int;
    assert forall|i: int| 0 <= i < t.len() implies #[trigger] t[i] == (if i < k {
        s[i]
    } else if i < k + n {
        o[i - k]
    } else {
        s[i - n]
    }) by {}
    if increasing(o) && fits(s, k, o) {
        assert forall|i: int, j: int| 0 <= i < j < t.len() implies below(
            #[trigger] t[i],
            #[trigger] t[j],
        ) by {
            if i < k && k <= j < k + n {
                assert(below(s[k - 1], o[j - k]));
                if i < k - 1 {
                    assert(below(s[i], s[k - 1]) && below(s[k - 1], o[j - k]));
                }
            } else if k <= i < k + n && k + n <= j {
                assert(below(o[i - k], s[k]));
                if j > k + n {
                    assert(below(o[i - k], s[k]) && below(s[k], s[j - n]));
                }
            } else if k <= i && j < k + n {
                assert(below(o[i - k], o[j - k]));
            } else {
                let si = if i < k { i } else { i - n };
                let sj = if j < k { j } else { j - n };
                assert(below(s[si], s[sj]));
            }
        }
    }
    if increasing(t) {
        assert forall|i: int, j: int| 0 <= i < j < o.len() implies below(
            #[trigger] o[i],
            #[trigger] o[j],
        ) by {
            assert(below(t[k + i], t[k + j]));
        }
        assert forall|i: int| 0 <= i < o.len() implies {
            &&& k > 0 ==> below(s[k - 1], #[trigger] o[i])
            &&& k < s.len() ==> below(o[i], s[k])
        } by {
            if k > 0 {
                assert(below(t[k - 1], t[k + i]));
            }
            if k < s.len() {
                assert(below(t[k + i], t[k + n]));
            }
        }
    }
}

/// Putting a value that an increasing sequence does not hold in at its rank
/// leaves the sequence increasing.
pub proof fn lemma_insert_increasing<T: Ord>(s: Seq<T>, v: T)
    requires
        total_order::<T>(),
        increasing(s),
        !holds(s, v),
    ensures
        increasing(s.insert(rank(s, v), v)),
{
    let k = rank(s, v);
    lemma_rank_bounds(s, v);
    lemma_rank_of_increasing(s, v);
    if k < s.len() {
        lemma_alike_symmetric(v, s[k]);
        assert(below(v, s[k]) <==> above(s[k], v));
    }
    assert(fits(s, k, seq![v]));
    lemma_splice_increasing(s, k, seq![v]);
    assert(s.insert(k, v) =~= spliced(s, k, seq![v]));
}

/// Taking a value out of an increasing sequence leaves it increasing.
pub proof fn lemma_remove_increasing<T: Ord>(s: Seq<T>, k: int)
    requires
        increasing(s),
        0 <= k < s.len(),
    ensures
        increasing(s.remove(k)),
{
    let t = s.remove(k);
    assert forall|i: int, j: int| 0 <= i < j < t.len() implies below(
        #[trigger] t[i],
        #[trigger] t[j],
    ) by {
        let si = if i < k { i } else { i + 1 };
        let sj = if j < k { j } else { j + 1 };
        assert(t[i] == s[si] && t[j] == s[sj]);
    }
}

} // verus!
