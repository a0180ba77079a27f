//! The per-callstack usage vectors.
//!
//! Current and peak usage are dense vectors indexed by call stack identity.
//! Peak detection snapshots the whole current vector on the hot path, so
//! the vectors are held in `im::Vector`, a structurally shared (persistent)
//! sequence whose clone is O(1); this module declares that outside type and
//! wraps the few operations the tracker needs.

use vstd::prelude::*;

verus! {

#[verifier::external_type_specification]
#[verifier::external_body]
#[verifier::reject_recursive_types(A)]
pub struct ExImVector<A>(im::Vector<A>);

/// The elements held by a usage vector, in index order.
pub uninterp spec fn elems(v: im::Vector<usize>) -> Seq<usize>;

pub open spec fn slot_weight() -> spec_fn(usize) -> int {
    |x: usize| x as int
}

/// Sum of all slots of a usage vector.
pub open spec fn elems_total(s: Seq<usize>) -> int {
    crate::sums::sum_by(s, slot_weight())
}

/// Relies on im::Vector::new: the fresh vector is empty.
#[verifier::external_body]
pub(crate) fn iv_new() -> (r: im::Vector<usize>)
    ensures
        elems(r) == Seq::<usize>::empty(),
{
    im::Vector::new()
}

/// Relies on im::Vector::len: the number of elements.
#[verifier::external_body]
pub(crate) fn iv_len(v: &im::Vector<usize>) -> (r: usize)
    ensures
        r == elems(*v).len(),
{
    v.len()
}

/// Relies on im::Vector::get: `Some` of the element at an in-bounds index.
#[verifier::external_body]
pub(crate) fn iv_get(v: &im::Vector<usize>, i: usize) -> (r: usize)
    requires
        i < elems(*v).len(),
    ensures
        r == elems(*v)[i as int],
{
    *v.get(i).unwrap()
}

/// Relies on im::Vector::set: replaces the element at an in-bounds index.
#[verifier::external_body]
pub(crate) fn iv_set(v: &mut im::Vector<usize>, i: usize, x: usize)
    requires
        i < elems(*old(v)).len(),
    ensures
        elems(*final(v)) == elems(*old(v)).update(i as int, x),
{
    v.set(i, x);
}

/// Relies on im::Vector::push_back: appends one element at the back.
#[verifier::external_body]
pub(crate) fn iv_push_back(v: &mut im::Vector<usize>, x: usize)
    requires
        elems(*old(v)).len() < usize::MAX,
    ensures
        elems(*final(v)) == elems(*old(v)).push(x),
{
    v.push_back(x);
}

/// Relies on im::Vector::clone: an O(1), structurally shared copy with the
/// same elements (the reason this container is used at all).
#[verifier::external_body]
pub(crate) fn iv_clone(v: &im::Vector<usize>) -> (r: im::Vector<usize>)
    ensures
        elems(r) == elems(*v),
{
    v.clone()
}

/// Sum of all slots, computed for the consistency check.
pub(crate) fn iv_sum(v: &im::Vector<usize>) -> (r: usize)
    requires
        0 <= elems_total(elems(*v)) <= usize::MAX,
    ensures
        r == elems_total(elems(*v)),
{
    let s = Ghost(elems(*v));
    let n = iv_len(v);
    let mut acc: usize = 0;
    proof {
        assert(forall|j: int| 0 <= j < s@.len() ==> 0 <= #[trigger] slot_weight()(s@[j]));
    }
    for i in 0..n
        invariant
            s@ == elems(*v),
            n == s@.len(),
            acc == elems_total(s@.take(i as int)),
            elems_total(s@) <= usize::MAX,
            forall|j: int| 0 <= j < s@.len() ==> 0 <= #[trigger] slot_weight()(s@[j]),
    {
        proof {
            assert(s@.take(i + 1).drop_last() =~= s@.take(i as int));
            assert(s@.take(i + 1).last() == s@[i as int]);
            crate::sums::lemma_sum_by_take_le(s@, slot_weight(), i + 1);
        }
        let x = iv_get(v, i);
        acc = acc + x;
    }
    proof {
        assert(s@.take(n as int) =~= s@);
    }
    acc
}

} // verus!
