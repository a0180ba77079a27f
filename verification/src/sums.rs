//! Weighted sums over sequences.
//!
//! The tracker's bookkeeping invariants all say that some running total
//! equals a sum over a sequence (of usage slots, of table entries, of
//! stored intervals). This module defines that sum once, generically over
//! a weight function, with the lemmas the bookkeeping proofs need.

use vstd::prelude::*;

verus! {

/// The sum of `f` over all elements of `s`.
pub open spec fn sum_by<T>(s: Seq<T>, f: spec_fn(T) -> int) -> int
    decreases s.len(),
{
    if s.len() == 0 {
        0
    } else {
        sum_by(s.drop_last(), f) + f(s.last())
    }
}

pub proof fn lemma_sum_by_push<T>(s: Seq<T>, f: spec_fn(T) -> int, x: T)
    ensures
        sum_by(s.push(x), f) == sum_by(s, f) + f(x),
{
    assert(s.push(x).drop_last() =~= s);
    assert(s.push(x).last() == x);
}

pub proof fn lemma_sum_by_remove<T>(s: Seq<T>, f: spec_fn(T) -> int, i: int)
    requires
        0 <= i < s.len(),
    ensures
        sum_by(s.remove(i), f) == sum_by(s, f) - f(s[i]),
    decreases s.len(),
{
    if i == s.len() - 1 {
        assert(s.remove(i) =~= s.drop_last());
    } else {
        assert(s.remove(i).drop_last() =~= s.drop_last().remove(i));
        assert(s.remove(i).last() == s.last());
        lemma_sum_by_remove(s.drop_last(), f, i);
    }
}

pub proof fn lemma_sum_by_update<T>(s: Seq<T>, f: spec_fn(T) -> int, i: int, x: T)
    requires
        0 <= i < s.len(),
    ensures
        sum_by(s.update(i, x), f) == sum_by(s, f) - f(s[i]) + f(x),
    decreases s.len(),
{
    if i == s.len() - 1 {
        assert(s.update(i, x).drop_last() =~= s.drop_last());
        assert(s.update(i, x).last() == x);
    } else {
        assert(s.update(i, x).drop_last() =~= s.drop_last().update(i, x));
        assert(s.update(i, x).last() == s.last());
        lemma_sum_by_update(s.drop_last(), f, i, x);
    }
}

pub proof fn lemma_sum_by_nonneg<T>(s: Seq<T>, f: spec_fn(T) -> int)
    requires
        forall|j: int| 0 <= j < s.len() ==> 0 <= #[trigger] f(s[j]),
    ensures
        0 <= sum_by(s, f),
    decreases s.len(),
{
    if s.len() > 0 {
        assert(forall|j: int|
            0 <= j < s.drop_last().len() ==> 0 <= #[trigger] f(s.drop_last()[j]));
        lemma_sum_by_nonneg(s.drop_last(), f);
    }
}

/// With nonnegative weights, one element's weight is at most the whole sum.
pub proof fn lemma_sum_by_elem_le<T>(s: Seq<T>, f: spec_fn(T) -> int, i: int)
    requires
        0 <= i < s.len(),
        forall|j: int| 0 <= j < s.len() ==> 0 <= #[trigger] f(s[j]),
    ensures
        f(s[i]) <= sum_by(s, f),
{
    lemma_sum_by_remove(s, f, i);
    let t = s.remove(i);
    assert(forall|j: int| 0 <= j < t.len() ==> 0 <= #[trigger] f(t[j])) by {
        assert(forall|j: int| 0 <= j < t.len() ==> #[trigger] t[j] == if j < i { s[j] } else { s[j + 1] });
    }
    lemma_sum_by_nonneg(t, f);
}

/// A weight function that vanishes on every element of `s` sums to zero.
pub proof fn lemma_sum_by_zero<T>(s: Seq<T>, f: spec_fn(T) -> int)
    requires
        forall|j: int| 0 <= j < s.len() ==> #[trigger] f(s[j]) == 0,
    ensures
        sum_by(s, f) == 0,
    decreases s.len(),
{
    if s.len() > 0 {
        assert(forall|j: int|
            0 <= j < s.drop_last().len() ==> #[trigger] f(s.drop_last()[j]) == 0);
        lemma_sum_by_zero(s.drop_last(), f);
    }
}

/// With nonnegative weights, the sum over a prefix is at most the whole sum.
pub proof fn lemma_sum_by_take_le<T>(s: Seq<T>, f: spec_fn(T) -> int, i: int)
    requires
        0 <= i <= s.len(),
        forall|j: int| 0 <= j < s.len() ==> 0 <= #[trigger] f(s[j]),
    ensures
        sum_by(s.take(i), f) <= sum_by(s, f),
    decreases s.len(),
{
    if i == s.len() {
        assert(s.take(i) =~= s);
    } else {
        let d = s.drop_last();
        assert(forall|j: int| 0 <= j < d.len() ==> 0 <= #[trigger] f(d[j]));
        assert(s.take(i) =~= d.take(i));
        lemma_sum_by_take_le(d, f, i);
        assert(0 <= f(s.last()));
    }
}

/// A weight function bounded by another gives a bounded sum.
pub proof fn lemma_sum_by_le_pointwise<T>(s: Seq<T>, f: spec_fn(T) -> int, g: spec_fn(T) -> int)
    requires
        forall|j: int| 0 <= j < s.len() ==> #[trigger] f(s[j]) <= g(s[j]),
    ensures
        sum_by(s, f) <= sum_by(s, g),
    decreases s.len(),
{
    if s.len() > 0 {
        let d = s.drop_last();
        assert(forall|j: int| 0 <= j < d.len() ==> #[trigger] f(d[j]) <= g(d[j]));
        lemma_sum_by_le_pointwise(d, f, g);
    }
}

} // verus!
