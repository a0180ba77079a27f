//! Tracking of disjoint address ranges, each tagged with a call stack
//! identity.
//!
//! Anonymous memory mappings are requested and released by address range,
//! and a release frequently frees only part of an earlier mapping, so the
//! structure reasons in ranges: removal may drop a stored interval, shrink
//! it, or split it in two, with both remainders keeping the original tag.

use vstd::prelude::*;
use crate::sums::{
    lemma_sum_by_elem_le, lemma_sum_by_le_pointwise, lemma_sum_by_nonneg, lemma_sum_by_push,
    lemma_sum_by_take_le, lemma_sum_by_update, sum_by,
};

verus! {

/// One stored interval: the half-open address range
/// `[start, start + size)` and the identity of the call stack that mapped it.
#[derive(Clone, Copy, Debug, PartialEq, Eq, Structural)]
pub struct RangeEntry {
    pub start: usize,
    pub size: usize,
    pub id: u32,
}

/// Whether address `a` lies inside the entry's range.
pub open spec fn covers(e: RangeEntry, a: int) -> bool {
    e.start <= a < e.start + e.size
}

/// Whether some entry of `s` covers `a`.
pub open spec fn covered_in(s: Seq<RangeEntry>, a: int) -> bool {
    exists|i: int| 0 <= i < s.len() && covers(s[i], a)
}

/// Whether some entry of `s` covers `a` under tag `t`.
pub open spec fn point_tagged(s: Seq<RangeEntry>, a: int, t: u32) -> bool {
    exists|i: int| 0 <= i < s.len() && covers(s[i], a) && s[i].id == t
}

pub open spec fn entry_size_weight() -> spec_fn(RangeEntry) -> int {
    |e: RangeEntry| e.size as int
}

pub open spec fn entry_tag_weight(t: u32) -> spec_fn(RangeEntry) -> int {
    |e: RangeEntry| if e.id == t { e.size as int } else { 0 }
}

pub open spec fn pair_weight() -> spec_fn((u32, usize)) -> int {
    |p: (u32, usize)| p.1 as int
}

pub open spec fn pair_tag_weight(t: u32) -> spec_fn((u32, usize)) -> int {
    |p: (u32, usize)| if p.0 == t { p.1 as int } else { 0 }
}

/// Sum of all interval sizes.
pub open spec fn total_bytes_of(s: Seq<RangeEntry>) -> int {
    sum_by(s, entry_size_weight())
}

/// Sum of the interval sizes tagged `t`.
pub open spec fn tag_bytes_of(s: Seq<RangeEntry>, t: u32) -> int {
    sum_by(s, entry_tag_weight(t))
}

/// Sum of the byte counts in a removal result.
pub open spec fn removed_total(r: Seq<(u32, usize)>) -> int {
    sum_by(r, pair_weight())
}

/// The byte count a removal result reports for tag `t`.
pub open spec fn removed_for(r: Seq<(u32, usize)>, t: u32) -> int {
    sum_by(r, pair_tag_weight(t))
}

pub open spec fn entry_ok(e: RangeEntry) -> bool {
    &&& 0 < e.size
    &&& e.start + e.size <= usize::MAX
}

pub open spec fn entries_disjoint(e1: RangeEntry, e2: RangeEntry) -> bool {
    e1.start + e1.size <= e2.start || e2.start + e2.size <= e1.start
}

/// Non-empty, in-bounds, pairwise disjoint intervals.
pub open spec fn entries_ok(s: Seq<RangeEntry>) -> bool {
    &&& forall|i: int| 0 <= i < s.len() ==> entry_ok(#[trigger] s[i])
    &&& forall|i: int, j: int|
        0 <= i < j < s.len() ==> entries_disjoint(#[trigger] s[i], #[trigger] s[j])
}

/// Whether `e` lies entirely inside `o`.
pub open spec fn contained_in(e: RangeEntry, o: RangeEntry) -> bool {
    o.start <= e.start && e.start + e.size <= o.start + o.size
}

/// Pushing an entry adds exactly its points under its tag.
proof fn lemma_point_tagged_push(s: Seq<RangeEntry>, e: RangeEntry)
    ensures
        forall|a: int, t: u32|
            #[trigger] point_tagged(s.push(e), a, t) <==> point_tagged(s, a, t) || (covers(e, a)
                && e.id == t),
{
    assert forall|a: int, t: u32|
        #[trigger] point_tagged(s.push(e), a, t) <==> point_tagged(s, a, t) || (covers(e, a)
            && e.id == t) by {
        let s2 = s.push(e);
        if point_tagged(s2, a, t) {
            let i = choose|i: int| 0 <= i < s2.len() && covers(s2[i], a) && s2[i].id == t;
            if i < s.len() {
                assert(s[i] == s2[i]);
                assert(point_tagged(s, a, t));
            } else {
                assert(s2[i] == e);
            }
        }
        if point_tagged(s, a, t) {
            let i = choose|i: int| 0 <= i < s.len() && covers(s[i], a) && s[i].id == t;
            assert(s2[i] == s[i]);
            assert(point_tagged(s2, a, t));
        }
        if covers(e, a) && e.id == t {
            assert(s2[s.len() as int] == e);
            assert(point_tagged(s2, a, t));
        }
    }
}

/// The interval map: a collection of disjoint tagged address ranges.
pub struct RangeMap {
    entries: Vec<RangeEntry>,
}

impl RangeMap {
    /// The stored intervals.
    pub closed spec fn view(&self) -> Seq<RangeEntry> {
        self.entries@
    }

    pub open spec fn wf(&self) -> bool {
        &&& entries_ok(self@)
        &&& total_bytes_of(self@) <= usize::MAX
    }

    /// An empty map.
    pub fn new() -> (r: RangeMap)
        ensures
            r@.len() == 0,
            r.wf(),
    {
        RangeMap { entries: Vec::new() }
    }

    /// Sum of all stored interval sizes.
    pub fn size(&self) -> (r: usize)
        requires
            self.wf(),
        ensures
            r == total_bytes_of(self@),
    {
        let mut acc: usize = 0;
        let n = self.entries.len();
        proof {
            assert(forall|j: int|
                0 <= j < self@.len() ==> 0 <= #[trigger] entry_size_weight()(self@[j]));
        }
        for i in 0..n
            invariant
                n == self@.len(),
                acc == total_bytes_of(self@.take(i as int)),
                total_bytes_of(self@) <= usize::MAX,
                forall|j: int|
                    0 <= j < self@.len() ==> 0 <= #[trigger] entry_size_weight()(self@[j]),
        {
            proof {
                assert(self@.take(i + 1).drop_last() =~= self@.take(i as int));
                assert(self@.take(i + 1).last() == self@[i as int]);
                lemma_sum_by_take_le(self@, entry_size_weight(), i + 1);
            }
            acc = acc + self.entries[i].size;
        }
        proof {
            assert(self@.take(n as int) =~= self@);
        }
        acc
    }

    /// Insert a new interval; the caller guarantees it is disjoint from
    /// everything stored.
    pub fn add(&mut self, address: usize, size: usize, id: u32)
        requires
            old(self).wf(),
            address + size <= usize::MAX,
            total_bytes_of(old(self)@) + size <= usize::MAX,
            forall|a: int| address <= a < address + size ==> !covered_in(old(self)@, a),
        ensures
            final(self).wf(),
            final(self)@ == if size == 0 {
                old(self)@
            } else {
                old(self)@.push(RangeEntry { start: address, size, id })
            },
            forall|a: int, t: u32|
                #[trigger] point_tagged(final(self)@, a, t) <==> point_tagged(old(self)@, a, t) || (
                address <= a < address + size && t == id),
            forall|t: u32|
                #[trigger] tag_bytes_of(final(self)@, t) == tag_bytes_of(old(self)@, t) + if t == id {
                    size as int
                } else {
                    0
                },
            total_bytes_of(final(self)@) == total_bytes_of(old(self)@) + size,
    {
        if size == 0 {
            return;
        }
        let e = RangeEntry { start: address, size, id };
        proof {
            assert forall|j: int| 0 <= j < self@.len() implies entries_disjoint(
                #[trigger] self@[j],
                e,
            ) by {
                if !entries_disjoint(self@[j], e) {
                    let a: int = if self@[j].start >= e.start {
                        self@[j].start as int
                    } else {
                        e.start as int
                    };
                    assert(covers(self@[j], a));
                    assert(covered_in(self@, a));
                }
            }
            lemma_point_tagged_push(self@, e);
            lemma_sum_by_push(self@, entry_size_weight(), e);
        }
        let ghost prev = self@;
        self.entries.push(e);
        proof {
            assert forall|t: u32|
                #[trigger] tag_bytes_of(self@, t) == tag_bytes_of(prev, t) + if t == id {
                    size as int
                } else {
                    0
                } by {
                lemma_sum_by_push(prev, entry_tag_weight(t), e);
            }
            assert forall|i: int, j: int| 0 <= i < j < self@.len() implies entries_disjoint(
                #[trigger] self@[i],
                #[trigger] self@[j],
            ) by {
                if j < self@.len() - 1 {
                    assert(entries_disjoint(prev[i], prev[j]));
                } else {
                    assert(self@[j] == e);
                    assert(entries_disjoint(prev[i], e));
                }
            }
        }
    }

    /// Remove the sub-range `[address, address + size)`. Every stored
    /// interval overlapping it is dropped, shrunk, or split, keeping its
    /// tag; the result reports, once per distinct tag, how many bytes that
    /// tag lost.
    pub fn remove(&mut self, address: usize, size: usize) -> (removed: Vec<(u32, usize)>)
        requires
            old(self).wf(),
            address + size <= usize::MAX,
        ensures
            final(self).wf(),
            forall|a: int, t: u32|
                #[trigger] point_tagged(final(self)@, a, t) <==> point_tagged(old(self)@, a, t)
                    && !(address <= a < address + size),
            forall|i: int, j: int|
                0 <= i < j < removed@.len() ==> removed@[i].0 != removed@[j].0,
            forall|i: int| 0 <= i < removed@.len() ==> removed@[i].1 > 0,
            forall|t: u32|
                #[trigger] removed_for(removed@, t) == tag_bytes_of(old(self)@, t) - tag_bytes_of(
                    final(self)@,
                    t,
                ),
            forall|t: u32|
                #[trigger] tag_bytes_of(final(self)@, t) <= tag_bytes_of(old(self)@, t),
            total_bytes_of(final(self)@) == total_bytes_of(old(self)@) - removed_total(removed@),
            0 <= removed_total(removed@) <= usize::MAX,
            forall|k: int|
                0 <= k < final(self)@.len() ==> exists|j: int|
                    0 <= j < old(self)@.len() && (#[trigger] final(self)@[k]).id == old(self)@[j].id,
    {
        let ghost s = old(self)@;
        let mut kept: Vec<RangeEntry> = Vec::new();
        let mut removed: Vec<(u32, usize)> = Vec::new();
        let r_end = address + size;
        let n = self.entries.len();
        proof {
            assert(forall|j: int| 0 <= j < s.len() ==> 0 <= #[trigger] entry_size_weight()(s[j]));
        }
        for i in 0..n
            invariant
                self@ == s,
                n == s.len(),
                entries_ok(s),
                total_bytes_of(s) <= usize::MAX,
                r_end == address + size,
                forall|j: int| 0 <= j < s.len() ==> 0 <= #[trigger] entry_size_weight()(s[j]),
                forall|a: int, t: u32|
                    #[trigger] point_tagged(kept@, a, t) <==> point_tagged(s.take(i as int), a, t)
                        && !(address <= a < r_end),
                forall|t: u32|
                    #[trigger] removed_for(removed@, t) == tag_bytes_of(s.take(i as int), t)
                        - tag_bytes_of(kept@, t),
                forall|t: u32|
                    #[trigger] tag_bytes_of(kept@, t) <= tag_bytes_of(s.take(i as int), t),
                total_bytes_of(kept@) + removed_total(removed@) == total_bytes_of(
                    s.take(i as int),
                ),
                forall|k: int|
                    0 <= k < kept@.len() ==> exists|j: int|
                        0 <= j < i && contained_in(#[trigger] kept@[k], s[j]) && kept@[k].id
                            == s[j].id,
                entries_ok(kept@),
                forall|i2: int, j2: int|
                    0 <= i2 < j2 < removed@.len() ==> removed@[i2].0 != removed@[j2].0,
                forall|i2: int| 0 <= i2 < removed@.len() ==> removed@[i2].1 > 0,
        {
            let e = self.entries[i];
            let ghost p = s.take(i as int);
            let ghost kept0 = kept@;
            let ghost removed0 = removed@;
            proof {
                assert(s.take(i + 1).drop_last() =~= p);
                assert(s.take(i + 1).last() == s[i as int]);
                lemma_sum_by_take_le(s, entry_size_weight(), i + 1);
                assert forall|t: u32|
                    #[trigger] tag_bytes_of(s.take(i + 1), t) == tag_bytes_of(p, t) + entry_tag_weight(
                        t,
                    )(e) by {
                    assert(sum_by(s.take(i + 1), entry_tag_weight(t)) == sum_by(
                        p,
                        entry_tag_weight(t),
                    ) + entry_tag_weight(t)(s.take(i + 1).last()));
                }
            }
            let e_end = e.start + e.size;
            let ov_s = if e.start > address {
                e.start
            } else {
                address
            };
            let ov_e = if e_end < r_end {
                e_end
            } else {
                r_end
            };
            if ov_s >= ov_e {
                // no overlap: keep the interval unchanged
                proof {
                    lemma_point_tagged_push(kept0, e);
                    lemma_sum_by_push(kept0, entry_size_weight(), e);
                    assert forall|t: u32|
                        #[trigger] tag_bytes_of(kept0.push(e), t) == tag_bytes_of(kept0, t)
                            + entry_tag_weight(t)(e) by {
                        lemma_sum_by_push(kept0, entry_tag_weight(t), e);
                    }
                    assert forall|k: int| 0 <= k < kept0.len() implies entries_disjoint(
                        #[trigger] kept0[k],
                        e,
                    ) by {
                        let j = choose|j: int|
                            0 <= j < i && contained_in(kept0[k], s[j]) && kept0[k].id == s[j].id;
                        assert(entries_disjoint(s[j], s[i as int]));
                    }
                }
                kept.push(e);
                proof {
                    assert forall|i2: int, j2: int|
                        0 <= i2 < j2 < kept@.len() implies entries_disjoint(
                        #[trigger] kept@[i2],
                        #[trigger] kept@[j2],
                    ) by {
                        if j2 < kept@.len() - 1 {
                            assert(entries_disjoint(kept0[i2], kept0[j2]));
                        } else {
                            assert(kept@[j2] == e);
                        }
                    }
                    assert forall|k: int|
                        0 <= k < kept@.len() implies exists|j: int|
                        0 <= j < i + 1 && contained_in(#[trigger] kept@[k], s[j]) && kept@[k].id
                            == s[j].id by {
                        if k < kept0.len() {
                            let j = choose|j: int|
                                0 <= j < i && contained_in(kept0[k], s[j]) && kept0[k].id
                                    == s[j].id;
                            assert(contained_in(kept@[k], s[j]) && kept@[k].id == s[j].id);
                        } else {
                            assert(kept@[k] == e);
                            assert(contained_in(e, s[i as int]));
                        }
                    }
                }
            } else {
                // the interval overlaps the removed range
                let cut = ov_e - ov_s;
                proof {
                    // the per-tag bytes already recorded for e.id stay below the
                    // running total, so the accumulation cannot overflow
                    assert(forall|j: int|
                        0 <= j < removed0.len() ==> 0 <= #[trigger] pair_weight()(removed0[j]));
                    assert(forall|j: int|
                        0 <= j < removed0.len() ==> #[trigger] pair_tag_weight(e.id)(removed0[j])
                            <= pair_weight()(removed0[j]));
                    lemma_sum_by_le_pointwise(removed0, pair_tag_weight(e.id), pair_weight());
                    assert(forall|j: int|
                        0 <= j < kept0.len() ==> 0 <= #[trigger] entry_tag_weight(e.id)(kept0[j]));
                    lemma_sum_by_nonneg(kept0, entry_tag_weight(e.id));
                    assert(forall|j: int|
                        0 <= j < kept0.len() ==> 0 <= #[trigger] entry_size_weight()(kept0[j]));
                    lemma_sum_by_nonneg(kept0, entry_size_weight());
                    assert(removed_for(removed0, e.id) + cut <= usize::MAX);
                }
                let mut pushed_any: bool = false;
                if e.start < ov_s {
                    let left = RangeEntry { start: e.start, size: ov_s - e.start, id: e.id };
                    proof {
                        lemma_point_tagged_push(kept0, left);
                        lemma_sum_by_push(kept0, entry_size_weight(), left);
                        assert forall|t: u32|
                            #[trigger] tag_bytes_of(kept0.push(left), t) == tag_bytes_of(kept0, t)
                                + entry_tag_weight(t)(left) by {
                            lemma_sum_by_push(kept0, entry_tag_weight(t), left);
                        }
                        assert forall|k: int| 0 <= k < kept0.len() implies entries_disjoint(
                            #[trigger] kept0[k],
                            left,
                        ) by {
                            let j = choose|j: int|
                                0 <= j < i && contained_in(kept0[k], s[j]) && kept0[k].id
                                    == s[j].id;
                            assert(entries_disjoint(s[j], s[i as int]));
                        }
                    }
                    kept.push(left);
                    pushed_any = true;
                    proof {
                        assert forall|i2: int, j2: int|
                            0 <= i2 < j2 < kept@.len() implies entries_disjoint(
                            #[trigger] kept@[i2],
                            #[trigger] kept@[j2],
                        ) by {
                            if j2 < kept@.len() - 1 {
                                assert(entries_disjoint(kept0[i2], kept0[j2]));
                            } else {
                                assert(kept@[j2] == left);
                            }
                        }
                    }
                }
                let ghost kept1 = kept@;
                if ov_e < e_end {
                    let right = RangeEntry { start: ov_e, size: e_end - ov_e, id: e.id };
                    proof {
                        lemma_point_tagged_push(kept1, right);
                        lemma_sum_by_push(kept1, entry_size_weight(), right);
                        assert forall|t: u32|
                            #[trigger] tag_bytes_of(kept1.push(right), t) == tag_bytes_of(kept1, t)
                                + entry_tag_weight(t)(right) by {
                            lemma_sum_by_push(kept1, entry_tag_weight(t), right);
                        }
                        assert forall|k: int| 0 <= k < kept1.len() implies entries_disjoint(
                            #[trigger] kept1[k],
                            right,
                        ) by {
                            if k < kept0.len() {
                                let j = choose|j: int|
                                    0 <= j < i && contained_in(kept0[k], s[j]) && kept0[k].id
                                        == s[j].id;
                                assert(kept1[k] == kept0[k]);
                                assert(entries_disjoint(s[j], s[i as int]));
                            }
                        }
                    }
                    kept.push(right);
                    proof {
                        assert forall|i2: int, j2: int|
                            0 <= i2 < j2 < kept@.len() implies entries_disjoint(
                            #[trigger] kept@[i2],
                            #[trigger] kept@[j2],
                        ) by {
                            if j2 < kept@.len() - 1 {
                                assert(entries_disjoint(kept1[i2], kept1[j2]));
                            } else {
                                assert(kept@[j2] == right);
                            }
                        }
                    }
                }
                add_removed(&mut removed, e.id, cut);
                proof {
                    assert forall|k: int|
                        0 <= k < kept@.len() implies exists|j: int|
                        0 <= j < i + 1 && contained_in(#[trigger] kept@[k], s[j]) && kept@[k].id
                            == s[j].id by {
                        if k < kept0.len() {
                            let j = choose|j: int|
                                0 <= j < i && contained_in(kept0[k], s[j]) && kept0[k].id
                                    == s[j].id;
                            assert(contained_in(kept@[k], s[j]) && kept@[k].id == s[j].id);
                        } else {
                            assert(contained_in(kept@[k], s[i as int]) && kept@[k].id
                                == s[i as int].id);
                        }
                    }
                }
            }
            proof {
                assert(forall|a: int, t: u32|
                    #[trigger] point_tagged(kept@, a, t) <==> point_tagged(s.take(i + 1), a, t)
                        && !(address <= a < r_end)) by {
                    lemma_point_tagged_push(p, s[i as int]);
                    assert(s.take(i + 1) =~= p.push(s[i as int]));
                }
            }
        }
        proof {
            assert(s.take(n as int) =~= s);
            assert(forall|j: int| 0 <= j < removed@.len() ==> 0 <= #[trigger] pair_weight()(removed@[j]));
            lemma_sum_by_nonneg(removed@, pair_weight());
            assert(forall|j: int| 0 <= j < kept@.len() ==> 0 <= #[trigger] entry_size_weight()(kept@[j]));
            lemma_sum_by_nonneg(kept@, entry_size_weight());
            assert forall|k: int| 0 <= k < kept@.len() implies exists|j: int|
                0 <= j < s.len() && (#[trigger] kept@[k]).id == s[j].id by {
                let j = choose|j: int|
                    0 <= j < n && contained_in(kept@[k], s[j]) && kept@[k].id == s[j].id;
                assert(0 <= j < s.len() && kept@[k].id == s[j].id);
            }
        }
        self.entries = kept;
        removed
    }

    /// The stored interval covering `address`, if any (diagnostic lookup).
    pub fn entry_containing(&self, address: usize) -> (r: Option<RangeEntry>)
        ensures
            match r {
                Some(e) => exists|i: int|
                    0 <= i < self@.len() && self@[i] == e && covers(e, address as int),
                None => !covered_in(self@, address as int),
            },
    {
        let n = self.entries.len();
        for i in 0..n
            invariant
                n == self@.len(),
                forall|j: int| 0 <= j < i ==> !covers(#[trigger] self@[j], address as int),
        {
            let e = self.entries[i];
            if e.start <= address && address - e.start < e.size {
                proof {
                    assert(covers(self@[i as int], address as int));
                }
                return Some(e);
            }
            proof {
                assert(!covers(self@[i as int], address as int));
            }
        }
        proof {
            if covered_in(self@, address as int) {
                let i = choose|i: int| 0 <= i < self@.len() && covers(self@[i], address as int);
                assert(false);
            }
        }
        None
    }
}

/// Fold `cut` bytes for tag `id` into the removal result, keeping one entry
/// per distinct tag.
fn add_removed(removed: &mut Vec<(u32, usize)>, id: u32, cut: usize)
    requires
        cut > 0,
        forall|i: int, j: int|
            0 <= i < j < old(removed)@.len() ==> old(removed)@[i].0 != old(removed)@[j].0,
        forall|i: int| 0 <= i < old(removed)@.len() ==> old(removed)@[i].1 > 0,
        removed_for(old(removed)@, id) + cut <= usize::MAX,
    ensures
        forall|i: int, j: int|
            0 <= i < j < final(removed)@.len() ==> final(removed)@[i].0 != final(removed)@[j].0,
        forall|i: int| 0 <= i < final(removed)@.len() ==> final(removed)@[i].1 > 0,
        forall|t: u32|
            #[trigger] removed_for(final(removed)@, t) == removed_for(old(removed)@, t) + if t
                == id {
                cut as int
            } else {
                0
            },
        removed_total(final(removed)@) == removed_total(old(removed)@) + cut,
{
    let ghost r0 = removed@;
    let n = removed.len();
    let mut found: bool = false;
    let mut idx: usize = 0;
    for k in 0..n
        invariant
            removed@ == r0,
            n == r0.len(),
            !found ==> forall|j: int| 0 <= j < k ==> r0[j].0 != id,
            found ==> idx < n && r0[idx as int].0 == id,
    {
        if !found && removed[k].0 == id {
            found = true;
            idx = k;
        }
    }
    if found {
        let v = removed[idx].1;
        proof {
            assert(forall|j: int|
                0 <= j < r0.len() ==> 0 <= #[trigger] pair_tag_weight(id)(r0[j]));
            lemma_sum_by_elem_le(r0, pair_tag_weight(id), idx as int);
            assert(pair_tag_weight(id)(r0[idx as int]) == v as int);
        }
        removed[idx] = (id, v + cut);
        proof {
            assert forall|t: u32|
                #[trigger] removed_for(removed@, t) == removed_for(r0, t) + if t == id {
                    cut as int
                } else {
                    0
                } by {
                lemma_sum_by_update(r0, pair_tag_weight(t), idx as int, (id, (v + cut) as usize));
            }
            lemma_sum_by_update(r0, pair_weight(), idx as int, (id, (v + cut) as usize));
        }
    } else {
        proof {
            lemma_sum_by_push(r0, pair_weight(), (id, cut));
        }
        removed.push((id, cut));
        proof {
            assert forall|t: u32|
                #[trigger] removed_for(removed@, t) == removed_for(r0, t) + if t == id {
                    cut as int
                } else {
                    0
                } by {
                lemma_sum_by_push(r0, pair_tag_weight(t), (id, cut));
            }
            assert forall|i: int, j: int|
                0 <= i < j < removed@.len() implies removed@[i].0 != removed@[j].0 by {
                if j < removed@.len() - 1 {
                    assert(r0[i].0 != r0[j].0);
                } else {
                    assert(removed@[j].0 == id);
                    assert(removed@[i] == r0[i]);
                }
            }
        }
    }
}

} // verus!
