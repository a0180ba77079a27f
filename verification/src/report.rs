//! The statistical report filter.
//!
//! A profile can hold tens of thousands of distinct call stacks, most with
//! negligible live bytes. The filter keeps, from the dense usage vector,
//! the largest entries in descending order until 99% of the total mass is
//! covered (but always at least 100 entries for context), capped at 10,000
//! entries to bound rendering cost.

use vstd::prelude::*;
use crate::rangemap::{pair_weight, removed_total};
use crate::usage::{elems, elems_total, iv_get, iv_len};

verus! {

/// Sum of the byte counts of the first `j` selected entries.
pub open spec fn prefix_bytes(r: Seq<(u32, usize)>, j: int) -> int {
    removed_total(r.take(j))
}

/// The stop rule: after `j` entries whose bytes sum past 99% of `total`,
/// and with at least 100 entries taken, selection stops.
pub open spec fn stop_after(r: Seq<(u32, usize)>, j: int, total: int) -> bool {
    prefix_bytes(r, j) > total * 99 / 100 && j > 99
}

/// Whether `id` appears among the selected entries.
pub open spec fn selected(r: Seq<(u32, usize)>, id: int) -> bool {
    exists|k: int| 0 <= k < r.len() && (#[trigger] r[k]).0 == id
}

/// What a correct report selection from the byte vector `s` looks like:
/// genuine, distinct, nonzero entries in descending byte order; nothing
/// omitted except entries no larger than the smallest kept one; selection
/// runs until it covers everything, hits the 10,000-entry cap, or passes
/// 99% of the total mass with at least 100 entries taken — and stops at
/// the first opportunity.
pub open spec fn filter_ok(s: Seq<usize>, r: Seq<(u32, usize)>) -> bool {
    let total = elems_total(s);
    &&& forall|k: int|
        0 <= k < r.len() ==> (#[trigger] r[k]).0 < s.len() && s[r[k].0 as int] == r[k].1
            && r[k].1 > 0
    &&& forall|k1: int, k2: int|
        0 <= k1 < k2 < r.len() ==> (#[trigger] r[k1]).0 != (#[trigger] r[k2]).0
    &&& forall|k1: int, k2: int|
        0 <= k1 < k2 < r.len() ==> (#[trigger] r[k1]).1 >= (#[trigger] r[k2]).1
    &&& r.len() <= 10000
    &&& forall|j: int| 0 <= j < r.len() ==> !stop_after(r, j, total)
    &&& {
        ||| (forall|i: int| 0 <= i < s.len() && s[i] > 0 ==> selected(r, i))
        ||| r.len() == 10000
        ||| stop_after(r, r.len() as int, total)
    }
    &&& (forall|i: int|
        0 <= i < s.len() && s[i] > 0 && !selected(r, i) ==> r.len() > 0 && s[i] <= r[r.len()
            - 1].1)
}

/// Filter a dense per-callstack byte vector down to the entries worth
/// reporting: the nonzero entries, largest first, cut off by the 99%/100
/// rule or the 10,000-entry cap, whichever binds first.
pub fn filter_to_useful_callstacks(allocations: &im::Vector<usize>) -> (r: Vec<(u32, usize)>)
    requires
        elems(*allocations).len() <= u32::MAX,
        elems_total(elems(*allocations)) <= usize::MAX,
    ensures
        filter_ok(elems(*allocations), r@),
{
    let ghost s = elems(*allocations);
    let ghost total = elems_total(s);

    // Gather the nonzero entries, in identity order.
    let n = iv_len(allocations);
    let mut entries: Vec<(u32, usize)> = Vec::new();
    for i in 0..n
        invariant
            s == elems(*allocations),
            n == s.len(),
            n <= u32::MAX,
            forall|k: int|
                0 <= k < entries@.len() ==> (#[trigger] entries@[k]).0 < i
                    && s[entries@[k].0 as int] == entries@[k].1 && entries@[k].1 > 0,
            forall|k1: int, k2: int|
                0 <= k1 < k2 < entries@.len() ==> (#[trigger] entries@[k1]).0
                    < (#[trigger] entries@[k2]).0,
            forall|j: int| 0 <= j < i && s[j] > 0 ==> selected(entries@, j),
    {
        let size = iv_get(allocations, i);
        if size > 0 {
            let ghost e0 = entries@;
            entries.push((i as u32, size));
            proof {
                assert(entries@[e0.len() as int] == (i as u32, size));
                assert forall|j: int| 0 <= j < i + 1 && s[j] > 0 implies selected(entries@, j) by {
                    if j < i {
                        assert(selected(e0, j));
                        let k = choose|k: int| 0 <= k < e0.len() && (#[trigger] e0[k]).0 == j;
                        assert(entries@[k].0 == j);
                    } else {
                        assert(entries@[e0.len() as int].0 == j);
                    }
                }
            }
        } else {
            proof {
                assert forall|j: int| 0 <= j < i + 1 && s[j] > 0 implies selected(entries@, j) by {
                    if j < i {
                        assert(selected(entries@, j));
                    }
                }
            }
        }
    }

    // Sort by byte count, descending (selection sort; ties fall as they may).
    let len = entries.len();
    for i in 0..len
        invariant
            len == entries@.len(),
            forall|k: int|
                0 <= k < entries@.len() ==> (#[trigger] entries@[k]).0 < s.len()
                    && s[entries@[k].0 as int] == entries@[k].1 && entries@[k].1 > 0,
            forall|k1: int, k2: int|
                0 <= k1 < k2 < entries@.len() ==> (#[trigger] entries@[k1]).0
                    != (#[trigger] entries@[k2]).0,
            forall|j: int| 0 <= j < s.len() && s[j] > 0 ==> selected(entries@, j),
            forall|k1: int, k2: int|
                0 <= k1 < k2 < i ==> (#[trigger] entries@[k1]).1 >= (#[trigger] entries@[k2]).1,
            forall|k1: int, k2: int|
                0 <= k1 < i <= k2 < entries@.len() ==> (#[trigger] entries@[k1]).1
                    >= (#[trigger] entries@[k2]).1,
    {
        let mut best: usize = i;
        for j in (i + 1)..len
            invariant
                len == entries@.len(),
                i <= best < len,
                i < len,
                forall|k: int| i <= k < j ==> (#[trigger] entries@[k]).1 <= entries@[best as int].1,
                entries@[best as int].1 >= entries@[i as int].1,
        {
            if entries[j].1 > entries[best].1 {
                best = j;
            }
        }
        let ghost before = entries@;
        let a = entries[i];
        let b = entries[best];
        entries[i] = b;
        entries[best] = a;
        proof {
            let after = entries@;
            assert(after =~= before.update(i as int, b).update(best as int, a));
            assert forall|j: int| 0 <= j < s.len() && s[j] > 0 implies selected(after, j) by {
                assert(selected(before, j));
                let k = choose|k: int| 0 <= k < before.len() && (#[trigger] before[k]).0 == j;
                if k == i {
                    assert(after[best as int].0 == j);
                } else if k == best {
                    assert(after[i as int].0 == j);
                } else {
                    assert(after[k].0 == j);
                }
            }
        }
    }

    // Keep the largest entries until the stop rule or the cap binds.
    let mut out: Vec<(u32, usize)> = Vec::new();
    let mut acc: u128 = 0;
    let mut k: usize = 0;
    let total_allocated: u128 = {
        let mut t: u128 = 0;
        let nn = iv_len(allocations);
        proof {
            assert(forall|j: int|
                0 <= j < s.len() ==> 0 <= #[trigger] crate::usage::slot_weight()(s[j]));
        }
        for i in 0..nn
            invariant
                s == elems(*allocations),
                nn == s.len(),
                t == elems_total(s.take(i as int)),
                elems_total(s) <= usize::MAX,
                forall|j: int|
                    0 <= j < s.len() ==> 0 <= #[trigger] crate::usage::slot_weight()(s[j]),
        {
            proof {
                assert(s.take(i + 1).drop_last() =~= s.take(i as int));
                assert(s.take(i + 1).last() == s[i as int]);
                crate::sums::lemma_sum_by_take_le(s, crate::usage::slot_weight(), i + 1);
            }
            t = t + iv_get(allocations, i) as u128;
        }
        proof {
            assert(s.take(nn as int) =~= s);
        }
        t
    };
    let threshold: u128 = total_allocated * 99 / 100;
    proof {
        assert(threshold == total * 99 / 100);
    }
    while k < entries.len() && k < 10000 && !(acc > threshold && k > 99)
        invariant
            k <= entries@.len(),
            k <= 10000,
            out@ == entries@.take(k as int),
            acc == prefix_bytes(entries@, k as int),
            acc <= (k as int) * 0x10000000000000000,
            threshold == total * 99 / 100,
            forall|j: int| 0 <= j < k ==> !stop_after(entries@, j, total),
            forall|ka: int|
                0 <= ka < entries@.len() ==> (#[trigger] entries@[ka]).0 < s.len()
                    && s[entries@[ka].0 as int] == entries@[ka].1 && entries@[ka].1 > 0,
            forall|k1: int, k2: int|
                0 <= k1 < k2 < entries@.len() ==> (#[trigger] entries@[k1]).0
                    != (#[trigger] entries@[k2]).0,
            forall|j: int| 0 <= j < s.len() && s[j] > 0 ==> selected(entries@, j),
            forall|k1: int, k2: int|
                0 <= k1 < k2 < entries@.len() ==> (#[trigger] entries@[k1]).1
                    >= (#[trigger] entries@[k2]).1,
        decreases entries@.len() - k,
    {
        let e = entries[k];
        proof {
            assert(entries@.take(k + 1).drop_last() =~= entries@.take(k as int));
            assert(entries@.take(k + 1).last() == entries@[k as int]);
            lemma_prefix_cap_step(entries@, k as int);
        }
        out.push(e);
        acc = acc + e.1 as u128;
        k = k + 1;
        proof {
            assert(out@ =~= entries@.take(k as int));
        }
    }
    proof {
        let rr = out@;
        let m = rr.len() as int;
        assert(rr == entries@.take(m));
        assert forall|k1: int, k2: int| 0 <= k1 < k2 < m implies (#[trigger] rr[k1]).1
            >= (#[trigger] rr[k2]).1 by {
            assert(rr[k1] == entries@[k1] && rr[k2] == entries@[k2]);
        }
        assert forall|j: int| 0 <= j < m implies !stop_after(rr, j, total) by {
            assert(!stop_after(entries@, j, total));
            assert(rr.take(j) =~= entries@.take(j));
        }
        if k == entries@.len() {
            assert forall|i: int| 0 <= i < s.len() && s[i] > 0 implies selected(rr, i) by {
                assert(selected(entries@, i));
                let w = choose|w: int| 0 <= w < entries@.len() && (#[trigger] entries@[w]).0 == i;
                assert(rr[w] == entries@[w]);
            }
        } else if k < 10000 {
            assert(acc > threshold && k > 99);
            assert(rr.take(m) =~= entries@.take(m));
            assert(stop_after(rr, m, total));
        }
        assert forall|i: int| 0 <= i < s.len() && s[i] > 0 && !selected(rr, i) implies m > 0 && s[i]
            <= rr[m - 1].1 by {
            assert(selected(entries@, i));
            let w = choose|w: int| 0 <= w < entries@.len() && (#[trigger] entries@[w]).0 == i;
            if w < m {
                assert(rr[w] == entries@[w]);
                assert((rr[w]).0 == i);
                assert(selected(rr, i));
            }
            assert(w >= m);
            assert(m > 0) by {
                if m == 0 {
                    assert(k == 0);
                    assert(k < entries@.len() && k < 10000 && !(acc > threshold && k > 99));
                    assert(false);
                }
            }
            assert(entries@[m - 1].1 >= entries@[w].1);
            assert(rr[m - 1] == entries@[m - 1]);
        }
    }
    out
}

/// Once more than 100 entries are retained, the selection is minimal:
/// dropping any single retained entry takes the kept mass to or below
/// 99% of the total.
pub proof fn lemma_filter_is_minimal(s: Seq<usize>, r: Seq<(u32, usize)>, k: int)
    requires
        filter_ok(s, r),
        r.len() > 100,
        0 <= k < r.len(),
    ensures
        prefix_bytes(r, r.len() as int) - r[k].1 <= elems_total(s) * 99 / 100,
{
    let m = r.len() as int;
    let total = elems_total(s);
    assert(!stop_after(r, m - 1, total));
    assert(prefix_bytes(r, m - 1) <= total * 99 / 100);
    lemma_prefix_cap_step(r, m - 1);
    if k < m - 1 {
        assert(r[k].1 >= r[m - 1].1);
    }
}

proof fn lemma_prefix_cap_step(r: Seq<(u32, usize)>, k: int)
    requires
        0 <= k < r.len(),
    ensures
        prefix_bytes(r, k) + r[k].1 == prefix_bytes(r, k + 1),
        prefix_bytes(r, k) >= 0,
{
    assert(r.take(k + 1).drop_last() =~= r.take(k));
    assert(r.take(k + 1).last() == r[k]);
    assert(forall|j: int| 0 <= j < r.take(k).len() ==> 0 <= #[trigger] pair_weight()(r.take(k)[j]));
    crate::sums::lemma_sum_by_nonneg(r.take(k), pair_weight());
}

} // verus!
