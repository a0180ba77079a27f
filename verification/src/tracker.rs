//! The allocation tracker: the aggregate bookkeeping structure.
//!
//! It owns the function registry, the call stack interner, a table of
//! outstanding heap allocations keyed by address, the interval map of
//! anonymous mappings, and the two dense per-callstack usage vectors
//! (current and peak). The central invariant, kept by every operation:
//! the running byte total equals both the sum of the usage vector and the
//! sum of everything in the allocation table and interval map, and each
//! usage slot holds exactly the bytes attributed to its call stack.

use vstd::prelude::*;
use crate::callsite::FunctionLocations;
use crate::callstack::{with_line, Callstack};
use crate::interner::{spec_intern, spec_intern_id, CallstackInterner};
use crate::rangemap::{
    covered_in, entry_size_weight, entry_tag_weight, pair_tag_weight, pair_weight, point_tagged,
    removed_for, removed_total, tag_bytes_of, total_bytes_of, RangeEntry, RangeMap,
};
use crate::sizes::{compressed_of, max_tracked_size, stored_size_of, Allocation};
use crate::sums::{
    lemma_sum_by_elem_le, lemma_sum_by_nonneg, lemma_sum_by_push, lemma_sum_by_remove,
    lemma_sum_by_update, lemma_sum_by_zero, sum_by,
};
use crate::usage::{
    elems, elems_total, iv_clone, iv_get, iv_len, iv_new, iv_push_back, iv_set, iv_sum,
    slot_weight,
};

verus! {

pub open spec fn alloc_size_weight() -> spec_fn((usize, Allocation)) -> int {
    |p: (usize, Allocation)| p.1.spec_size()
}

pub open spec fn alloc_tag_weight(t: u32) -> spec_fn((usize, Allocation)) -> int {
    |p: (usize, Allocation)| if p.1.callstack_id == t {
        p.1.spec_size()
    } else {
        0
    }
}

/// Bytes of all outstanding heap allocations in the table.
pub open spec fn table_total(t: Seq<(usize, Allocation)>) -> int {
    sum_by(t, alloc_size_weight())
}

/// Bytes of the table's allocations attributed to call stack `id`.
pub open spec fn table_tag_bytes(t: Seq<(usize, Allocation)>, id: u32) -> int {
    sum_by(t, alloc_tag_weight(id))
}

pub open spec fn table_keys_unique(t: Seq<(usize, Allocation)>) -> bool {
    forall|i: int, j: int| 0 <= i < j < t.len() ==> (#[trigger] t[i]).0 != (#[trigger] t[j]).0
}

pub open spec fn table_has_addr(t: Seq<(usize, Allocation)>, address: usize) -> bool {
    exists|i: int| 0 <= i < t.len() && (#[trigger] t[i]).0 == address
}

/// The record stored at `address` (meaningful only when present and keys
/// are unique).
pub open spec fn table_alloc_at(t: Seq<(usize, Allocation)>, address: usize) -> Allocation {
    t[choose|i: int| 0 <= i < t.len() && (#[trigger] t[i]).0 == address].1
}

/// The record at `address` as an option, the table's point-wise view.
pub open spec fn table_point(t: Seq<(usize, Allocation)>, address: usize) -> Option<Allocation> {
    if table_has_addr(t, address) {
        Some(table_alloc_at(t, address))
    } else {
        None
    }
}

/// Addition that sticks at the counter's ceiling, for diagnostic counters.
pub open spec fn sat_add(a: usize, b: int) -> usize {
    if a + b <= usize::MAX {
        (a + b) as usize
    } else {
        usize::MAX
    }
}

/// The main data structure tracking everything.
pub struct AllocationTracker {
    // malloc()/calloc(), keyed by address:
    current_allocations: Vec<(usize, Allocation)>,
    // anonymous mmap(), i.e. not file backed:
    current_anon_mmaps: RangeMap,
    // Maps FunctionIds to function + filename strings:
    pub functions: FunctionLocations,
    // Maps Callstacks to dense CallstackIds:
    interner: CallstackInterner,
    // Both malloc() and mmap(), indexed by CallstackId:
    current_memory_usage: im::Vector<usize>,
    peak_memory_usage: im::Vector<usize>,
    current_allocated_bytes: usize,
    peak_allocated_bytes: usize,
    // Default directory for reports lacking other destination:
    default_path: String,
    // Allocations that disappeared without an observed free:
    missing_allocated_bytes: usize,
    // free() of an unknown address:
    failed_deallocations: usize,
}

impl AllocationTracker {
    pub closed spec fn table(&self) -> Seq<(usize, Allocation)> {
        self.current_allocations@
    }

    pub closed spec fn mmaps(&self) -> Seq<RangeEntry> {
        self.current_anon_mmaps@
    }

    pub closed spec fn usage(&self) -> Seq<usize> {
        elems(self.current_memory_usage)
    }

    pub closed spec fn peak_usage(&self) -> Seq<usize> {
        elems(self.peak_memory_usage)
    }

    pub closed spec fn stacks(&self) -> Seq<Seq<crate::callsite::CallSiteId>> {
        self.interner@
    }

    pub closed spec fn spec_current_bytes(&self) -> usize {
        self.current_allocated_bytes
    }

    pub closed spec fn spec_peak_bytes(&self) -> usize {
        self.peak_allocated_bytes
    }

    pub closed spec fn spec_missing_bytes(&self) -> usize {
        self.missing_allocated_bytes
    }

    pub closed spec fn spec_failed_deallocations(&self) -> usize {
        self.failed_deallocations
    }

    pub closed spec fn spec_default_path(&self) -> Seq<char> {
        self.default_path@
    }

    pub closed spec fn spec_functions(&self) -> FunctionLocations {
        self.functions
    }

    /// What report generation needs even after the out-of-memory teardown:
    /// identities stay linked to the interner and index the usage vectors.
    pub closed spec fn report_ready(&self) -> bool {
        &&& self.interner.wf()
        &&& self.stacks().len() == self.usage().len()
        &&& self.usage().len() <= u32::MAX
        &&& self.peak_usage().len() <= self.usage().len()
        &&& elems_total(self.usage()) <= usize::MAX
        &&& elems_total(self.peak_usage()) <= usize::MAX
    }

    /// What the report path needs: a reportable tracker whose running
    /// total still matches its usage vector (true under the full invariant,
    /// and still true after the out-of-memory teardown).
    pub closed spec fn report_consistent(&self) -> bool {
        &&& self.report_ready()
        &&& self.spec_current_bytes() == elems_total(self.usage())
    }

    /// The full bookkeeping invariant.
    pub closed spec fn wf(&self) -> bool {
        &&& self.report_ready()
        &&& table_keys_unique(self.table())
        &&& forall|i: int|
            0 <= i < self.table().len() ==> (#[trigger] self.table()[i]).1.callstack_id
                < self.usage().len()
        &&& self.current_anon_mmaps.wf()
        &&& forall|i: int|
            0 <= i < self.mmaps().len() ==> (#[trigger] self.mmaps()[i]).id < self.usage().len()
        &&& self.spec_current_bytes() == table_total(self.table()) + total_bytes_of(self.mmaps())
        &&& self.spec_current_bytes() == elems_total(self.usage())
        &&& self.spec_peak_bytes() == elems_total(self.peak_usage())
        &&& forall|id: int|
            0 <= id < self.usage().len() ==> #[trigger] self.usage()[id] == table_tag_bytes(
                self.table(),
                id as u32,
            ) + tag_bytes_of(self.mmaps(), id as u32)
    }

    /// For any sequence of operations, the running total equals the sum of
    /// the outstanding allocation and mapping bytes, the usage vector sums
    /// to that same total, and each slot holds exactly the bytes attributed
    /// to its call stack.
    pub proof fn lemma_accounting(&self)
        requires
            self.wf(),
        ensures
            self.spec_current_bytes() == table_total(self.table()) + total_bytes_of(self.mmaps()),
            self.spec_current_bytes() == elems_total(self.usage()),
            self.spec_peak_bytes() == elems_total(self.peak_usage()),
            forall|id: int|
                0 <= id < self.usage().len() ==> #[trigger] self.usage()[id] == table_tag_bytes(
                    self.table(),
                    id as u32,
                ) + tag_bytes_of(self.mmaps(), id as u32),
    {
    }

    /// After freeing every outstanding allocation and mapping, the current
    /// total is exactly zero and every usage slot is zero: no drift.
    pub proof fn lemma_empty_means_zero(&self)
        requires
            self.wf(),
            self.table().len() == 0,
            self.mmaps().len() == 0,
        ensures
            self.spec_current_bytes() == 0,
            forall|id: int| 0 <= id < self.usage().len() ==> #[trigger] self.usage()[id] == 0,
    {
    }

    pub fn new(default_path: String) -> (r: AllocationTracker)
        ensures
            r.wf(),
            r.table().len() == 0,
            r.mmaps().len() == 0,
            r.usage().len() == 0,
            r.peak_usage().len() == 0,
            r.stacks().len() == 0,
            r.spec_functions().functions@.len() == 0,
            r.spec_current_bytes() == 0,
            r.spec_peak_bytes() == 0,
            r.spec_missing_bytes() == 0,
            r.spec_failed_deallocations() == 0,
            r.spec_default_path() == default_path@,
    {
        AllocationTracker {
            current_allocations: Vec::new(),
            current_anon_mmaps: RangeMap::new(),
            interner: CallstackInterner::new(),
            functions: FunctionLocations::new(),
            current_memory_usage: iv_new(),
            peak_memory_usage: iv_new(),
            current_allocated_bytes: 0,
            peak_allocated_bytes: 0,
            missing_allocated_bytes: 0,
            failed_deallocations: 0,
            default_path,
        }
    }

    pub fn get_current_allocated_bytes(&self) -> (r: usize)
        ensures
            r == self.spec_current_bytes(),
    {
        self.current_allocated_bytes
    }

    pub fn get_peak_allocated_bytes(&self) -> (r: usize)
        ensures
            r == self.spec_peak_bytes(),
    {
        self.peak_allocated_bytes
    }

    pub fn get_missing_allocated_bytes(&self) -> (r: usize)
        ensures
            r == self.spec_missing_bytes(),
    {
        self.missing_allocated_bytes
    }

    pub fn get_failed_deallocations(&self) -> (r: usize)
        ensures
            r == self.spec_failed_deallocations(),
    {
        self.failed_deallocations
    }

    /// How many distinct call stacks have been interned.
    pub fn num_callstacks(&self) -> (r: usize)
        requires
            self.wf() || self.report_ready(),
        ensures
            r == self.usage().len(),
    {
        iv_len(&self.current_memory_usage)
    }

    /// The current usage slot of one call stack identity.
    pub fn usage_of(&self, callstack_id: u32) -> (r: usize)
        requires
            callstack_id < self.usage().len(),
        ensures
            r == self.usage()[callstack_id as int],
    {
        iv_get(&self.current_memory_usage, callstack_id as usize)
    }

    /// The peak usage slot of one call stack identity.
    pub fn peak_usage_of(&self, callstack_id: u32) -> (r: usize)
        requires
            callstack_id < self.peak_usage().len(),
        ensures
            r == self.peak_usage()[callstack_id as int],
    {
        iv_get(&self.peak_memory_usage, callstack_id as usize)
    }

    /// How many heap allocations are outstanding.
    pub fn num_allocations(&self) -> (r: usize)
        ensures
            r == self.table().len(),
    {
        self.current_allocations.len()
    }

    /// Whether the table holds a live allocation at `address`.
    pub fn has_allocation(&self, address: usize) -> (r: bool)
        requires
            self.wf(),
        ensures
            r == table_has_addr(self.table(), address),
    {
        find_addr(&self.current_allocations, address).is_some()
    }

    /// The stored mapping interval covering `address`, if any.
    pub fn mmap_interval_containing(&self, address: usize) -> (r: Option<RangeEntry>)
        requires
            self.wf(),
        ensures
            match r {
                Some(e) => exists|i: int|
                    0 <= i < self.mmaps().len() && self.mmaps()[i] == e && crate::rangemap::covers(
                        e,
                        address as int,
                    ),
                None => !covered_in(self.mmaps(), address as int),
            },
    {
        self.current_anon_mmaps.entry_containing(address)
    }

    /// The (reconstructed) size of the allocation at `address`, or zero.
    pub fn get_allocation_size(&self, address: usize) -> (r: usize)
        requires
            self.wf(),
        ensures
            r == if table_has_addr(self.table(), address) {
                table_alloc_at(self.table(), address).spec_size()
            } else {
                0
            },
    {
        match find_addr(&self.current_allocations, address) {
            Some(i) => {
                let alloc = self.current_allocations[i].1;
                proof {
                    self.lemma_entry_size_bounded(i as int);
                    let w = choose|j: int|
                        0 <= j < self.table().len() && (#[trigger] self.table()[j]).0 == address;
                    assert(w == i as int);
                }
                alloc.size()
            },
            None => 0,
        }
    }

    /// An entry's bytes are bounded by the running total.
    proof fn lemma_entry_size_bounded(&self, i: int)
        requires
            self.wf(),
            0 <= i < self.table().len(),
        ensures
            0 <= self.table()[i].1.spec_size() <= self.spec_current_bytes(),
    {
        assert(forall|j: int|
            0 <= j < self.table().len() ==> 0 <= #[trigger] alloc_size_weight()(self.table()[j]));
        lemma_sum_by_elem_le(self.table(), alloc_size_weight(), i);
        assert(forall|j: int|
            0 <= j < self.mmaps().len() ==> 0 <= #[trigger] crate::rangemap::entry_size_weight()(
                self.mmaps()[j],
            ));
        lemma_sum_by_nonneg(self.mmaps(), crate::rangemap::entry_size_weight());
    }

    /// Check if a new peak has been reached; on the hot path this relies
    /// on the usage vector's O(1) structural-sharing clone. Peak totals
    /// never decrease, and they change exactly when the current total
    /// strictly exceeds the recorded peak at the moment of the check.
    pub fn check_if_new_peak(&mut self)
        requires
            old(self).wf() || old(self).report_consistent(),
        ensures
            old(self).wf() ==> final(self).wf(),
            final(self).report_consistent(),
            old(self).spec_current_bytes() > old(self).spec_peak_bytes() ==> {
                &&& final(self).spec_peak_bytes() == old(self).spec_current_bytes()
                &&& final(self).peak_usage() == old(self).usage()
            },
            old(self).spec_current_bytes() <= old(self).spec_peak_bytes() ==> {
                &&& final(self).spec_peak_bytes() == old(self).spec_peak_bytes()
                &&& final(self).peak_usage() == old(self).peak_usage()
            },
            final(self).spec_peak_bytes() >= old(self).spec_peak_bytes(),
            final(self).spec_peak_bytes() >= final(self).spec_current_bytes(),
            final(self).table() == old(self).table(),
            final(self).mmaps() == old(self).mmaps(),
            final(self).usage() == old(self).usage(),
            final(self).stacks() == old(self).stacks(),
            final(self).spec_functions() == old(self).spec_functions(),
            final(self).spec_current_bytes() == old(self).spec_current_bytes(),
            final(self).spec_missing_bytes() == old(self).spec_missing_bytes(),
            final(self).spec_failed_deallocations() == old(self).spec_failed_deallocations(),
            final(self).spec_default_path() == old(self).spec_default_path(),
    {
        if self.current_allocated_bytes > self.peak_allocated_bytes {
            self.peak_allocated_bytes = self.current_allocated_bytes;
            self.peak_memory_usage = iv_clone(&self.current_memory_usage);
        }
    }

    /// Add bytes to one usage slot and the running total.
    fn add_memory_usage(&mut self, callstack_id: u32, bytes: usize)
        requires
            callstack_id < old(self).usage().len(),
            old(self).spec_current_bytes() + bytes <= usize::MAX,
            old(self).spec_current_bytes() == elems_total(old(self).usage()),
        ensures
            final(self).usage() == old(self).usage().update(
                callstack_id as int,
                (old(self).usage()[callstack_id as int] + bytes) as usize,
            ),
            final(self).spec_current_bytes() == old(self).spec_current_bytes() + bytes,
            final(self).spec_current_bytes() == elems_total(final(self).usage()),
            final(self).table() == old(self).table(),
            final(self).mmaps() == old(self).mmaps(),
            final(self).stacks() == old(self).stacks(),
            final(self).spec_functions() == old(self).spec_functions(),
            final(self).peak_usage() == old(self).peak_usage(),
            final(self).spec_peak_bytes() == old(self).spec_peak_bytes(),
            final(self).spec_missing_bytes() == old(self).spec_missing_bytes(),
            final(self).spec_failed_deallocations() == old(self).spec_failed_deallocations(),
            final(self).spec_default_path() == old(self).spec_default_path(),
    {
        proof {
            assert(forall|j: int|
                0 <= j < old(self).usage().len() ==> 0 <= #[trigger] slot_weight()(
                    old(self).usage()[j],
                ));
            lemma_sum_by_elem_le(old(self).usage(), slot_weight(), callstack_id as int);
        }
        let index = callstack_id as usize;
        let cur = iv_get(&self.current_memory_usage, index);
        iv_set(&mut self.current_memory_usage, index, cur + bytes);
        self.current_allocated_bytes = self.current_allocated_bytes + bytes;
        proof {
            lemma_sum_by_update(
                old(self).usage(),
                slot_weight(),
                callstack_id as int,
                (old(self).usage()[callstack_id as int] + bytes) as usize,
            );
        }
    }

    /// Subtract bytes from one usage slot and the running total.
    fn remove_memory_usage(&mut self, callstack_id: u32, bytes: usize)
        requires
            callstack_id < old(self).usage().len(),
            bytes <= old(self).usage()[callstack_id as int],
            bytes <= old(self).spec_current_bytes(),
            old(self).spec_current_bytes() == elems_total(old(self).usage()),
        ensures
            final(self).usage() == old(self).usage().update(
                callstack_id as int,
                (old(self).usage()[callstack_id as int] - bytes) as usize,
            ),
            final(self).spec_current_bytes() == old(self).spec_current_bytes() - bytes,
            final(self).spec_current_bytes() == elems_total(final(self).usage()),
            final(self).table() == old(self).table(),
            final(self).mmaps() == old(self).mmaps(),
            final(self).stacks() == old(self).stacks(),
            final(self).spec_functions() == old(self).spec_functions(),
            final(self).peak_usage() == old(self).peak_usage(),
            final(self).spec_peak_bytes() == old(self).spec_peak_bytes(),
            final(self).spec_missing_bytes() == old(self).spec_missing_bytes(),
            final(self).spec_failed_deallocations() == old(self).spec_failed_deallocations(),
            final(self).spec_default_path() == old(self).spec_default_path(),
    {
        let index = callstack_id as usize;
        let cur = iv_get(&self.current_memory_usage, index);
        iv_set(&mut self.current_memory_usage, index, cur - bytes);
        self.current_allocated_bytes = self.current_allocated_bytes - bytes;
        proof {
            lemma_sum_by_update(
                old(self).usage(),
                slot_weight(),
                callstack_id as int,
                (old(self).usage()[callstack_id as int] - bytes) as usize,
            );
        }
    }

    /// Intern a call stack, growing the usage vector in lockstep when the
    /// stack is new, and return its dense identity.
    pub fn get_callstack_id(&mut self, callstack: &Callstack) -> (r: u32)
        requires
            old(self).wf(),
            old(self).usage().len() < u32::MAX,
        ensures
            final(self).wf(),
            r == spec_intern_id(old(self).stacks(), callstack.calls@),
            final(self).stacks() == spec_intern(old(self).stacks(), callstack.calls@),
            r < final(self).usage().len(),
            final(self).stacks()[r as int] == callstack.calls@,
            crate::interner::has_stack(old(self).stacks(), callstack.calls@) ==> final(self).usage()
                == old(self).usage(),
            !crate::interner::has_stack(old(self).stacks(), callstack.calls@)
                ==> final(self).usage() == old(self).usage().push(0),
            final(self).table() == old(self).table(),
            final(self).mmaps() == old(self).mmaps(),
            final(self).peak_usage() == old(self).peak_usage(),
            final(self).spec_functions() == old(self).spec_functions(),
            final(self).spec_current_bytes() == old(self).spec_current_bytes(),
            final(self).spec_peak_bytes() == old(self).spec_peak_bytes(),
            final(self).spec_missing_bytes() == old(self).spec_missing_bytes(),
            final(self).spec_failed_deallocations() == old(self).spec_failed_deallocations(),
            final(self).spec_default_path() == old(self).spec_default_path(),
    {
        let (id, is_new) = self.interner.get_or_insert_id(callstack);
        if is_new {
            iv_push_back(&mut self.current_memory_usage, 0);
            proof {
                let u2 = old(self).usage().push(0);
                lemma_sum_by_push(old(self).usage(), slot_weight(), 0);
                let fresh = old(self).usage().len() as u32;
                assert forall|t: int| 0 <= t < u2.len() implies #[trigger] u2[t] == table_tag_bytes(
                    self.table(),
                    t as u32,
                ) + tag_bytes_of(self.mmaps(), t as u32) by {
                    if t < old(self).usage().len() {
                        assert(u2[t] == old(self).usage()[t]);
                    } else {
                        assert(u2[t] == 0);
                        assert(forall|j: int|
                            0 <= j < self.table().len() ==> #[trigger] alloc_tag_weight(t as u32)(
                                self.table()[j],
                            ) == 0);
                        lemma_sum_by_zero(self.table(), alloc_tag_weight(t as u32));
                        assert(forall|j: int|
                            0 <= j < self.mmaps().len()
                                ==> #[trigger] crate::rangemap::entry_tag_weight(t as u32)(
                                self.mmaps()[j],
                            ) == 0);
                        lemma_sum_by_zero(
                            self.mmaps(),
                            crate::rangemap::entry_tag_weight(t as u32),
                        );
                    }
                }
            }
        }
        id
    }

    /// Record a new heap allocation at `address`. If the address already
    /// holds a live record, the prior occupant is treated as implicitly
    /// freed: its bytes leave the usage accounting and are remembered in
    /// the "missing" diagnostic counter.
    pub fn add_allocation(&mut self, address: usize, size: usize, callstack_id: u32)
        requires
            old(self).wf(),
            callstack_id < old(self).usage().len(),
            size <= max_tracked_size(),
            size + 524288 <= usize::MAX,
            old(self).spec_current_bytes() + stored_size_of(size as int) <= usize::MAX,
        ensures
            final(self).wf(),
            table_point(final(self).table(), address) == Some(
                Allocation { callstack_id, compressed_size: compressed_of(size as int) as u32 },
            ),
            forall|a: usize|
                a != address ==> #[trigger] table_point(final(self).table(), a) == table_point(
                    old(self).table(),
                    a,
                ),
            final(self).usage().len() == old(self).usage().len(),
            final(self).mmaps() == old(self).mmaps(),
            final(self).stacks() == old(self).stacks(),
            final(self).spec_functions() == old(self).spec_functions(),
            final(self).peak_usage() == old(self).peak_usage(),
            final(self).spec_peak_bytes() == old(self).spec_peak_bytes(),
            final(self).spec_failed_deallocations() == old(self).spec_failed_deallocations(),
            final(self).spec_default_path() == old(self).spec_default_path(),
            !table_has_addr(old(self).table(), address) ==> {
                &&& final(self).spec_current_bytes() == old(self).spec_current_bytes()
                    + stored_size_of(size as int)
                &&& final(self).spec_missing_bytes() == old(self).spec_missing_bytes()
                &&& final(self).table().len() == old(self).table().len() + 1
            },
            table_has_addr(old(self).table(), address) ==> {
                &&& final(self).spec_current_bytes() == old(self).spec_current_bytes()
                    + stored_size_of(size as int) - table_alloc_at(
                    old(self).table(),
                    address,
                ).spec_size()
                &&& final(self).spec_missing_bytes() == sat_add(
                    old(self).spec_missing_bytes(),
                    table_alloc_at(old(self).table(), address).spec_size(),
                )
                &&& final(self).table().len() == old(self).table().len()
            },
    {
        let alloc = Allocation::new(callstack_id, size);
        let compressed_size = alloc.size();
        let ghost t0 = self.table();
        match find_addr(&self.current_allocations, address) {
            Some(i) => {
                let previous = self.current_allocations[i];
                proof {
                    self.lemma_entry_size_bounded(i as int);
                    let w = choose|j: int|
                        0 <= j < t0.len() && (#[trigger] t0[j]).0 == address;
                    assert(w == i as int);
                    assert(table_alloc_at(t0, address) == previous.1);
                }
                let previous_size = previous.1.size();
                self.current_allocations.remove(i);
                // the prior record was never freed: its bytes are lost to
                // the attribution and surface only in diagnostics
                self.missing_allocated_bytes = if self.missing_allocated_bytes <= usize::MAX
                    - previous_size {
                    self.missing_allocated_bytes + previous_size
                } else {
                    usize::MAX
                };
                proof {
                    assert(forall|j: int|
                        0 <= j < t0.len() ==> 0 <= #[trigger] alloc_tag_weight(
                            previous.1.callstack_id,
                        )(t0[j]));
                    lemma_sum_by_elem_le(t0, alloc_tag_weight(previous.1.callstack_id), i as int);
                    assert(forall|j: int|
                        0 <= j < old(self).mmaps().len() ==> 0
                            <= #[trigger] crate::rangemap::entry_tag_weight(
                            previous.1.callstack_id,
                        )(old(self).mmaps()[j]));
                    lemma_sum_by_nonneg(
                        old(self).mmaps(),
                        crate::rangemap::entry_tag_weight(previous.1.callstack_id),
                    );
                }
                self.remove_memory_usage(previous.1.callstack_id, previous_size);
                let ghost t1 = self.table();
                let ghost u1 = self.usage();
                proof {
                    assert(forall|j: int| 0 <= j < u1.len() ==> 0 <= #[trigger] slot_weight()(u1[j]));
                    lemma_sum_by_elem_le(u1, slot_weight(), callstack_id as int);
                }
                self.current_allocations.push((address, alloc));
                self.add_memory_usage(callstack_id, compressed_size);
                proof {
                    assert(t1 == t0.remove(i as int));
                    self.finish_add_allocation_proof(
                        t0,
                        Some(i as int),
                        previous.1,
                        address,
                        alloc,
                        old(self).usage(),
                    );
                }
            },
            None => {
                let ghost t1 = self.table();
                let ghost u0 = self.usage();
                proof {
                    assert(forall|j: int| 0 <= j < u0.len() ==> 0 <= #[trigger] slot_weight()(u0[j]));
                    lemma_sum_by_elem_le(u0, slot_weight(), callstack_id as int);
                }
                self.current_allocations.push((address, alloc));
                self.add_memory_usage(callstack_id, compressed_size);
                proof {
                    self.finish_add_allocation_proof(
                        t0,
                        None,
                        alloc,
                        address,
                        alloc,
                        old(self).usage(),
                    );
                }
            },
        }
    }

    /// Re-establishes the per-identity attribution invariant after the
    /// table and usage updates of `add_allocation`.
    proof fn finish_add_allocation_proof(
        &self,
        t0: Seq<(usize, Allocation)>,
        removed_at: Option<int>,
        previous: Allocation,
        address: usize,
        alloc: Allocation,
        u0: Seq<usize>,
    )
        requires
            table_keys_unique(t0),
            forall|id: int|
                0 <= id < u0.len() ==> #[trigger] u0[id] == table_tag_bytes(t0, id as u32)
                    + tag_bytes_of(self.mmaps(), id as u32),
            match removed_at {
                Some(i) => {
                    &&& 0 <= i < t0.len()
                    &&& t0[i] == (address, previous)
                    &&& self.table() == t0.remove(i).push((address, alloc))
                    &&& self.usage() == u0.update(
                        previous.callstack_id as int,
                        (u0[previous.callstack_id as int] - previous.spec_size()) as usize,
                    ).update(
                        alloc.callstack_id as int,
                        (u0.update(
                            previous.callstack_id as int,
                            (u0[previous.callstack_id as int] - previous.spec_size()) as usize,
                        )[alloc.callstack_id as int] + alloc.spec_size()) as usize,
                    )
                    &&& previous.callstack_id < u0.len()
                    &&& previous.spec_size() <= u0[previous.callstack_id as int]
                },
                None => {
                    &&& !table_has_addr(t0, address)
                    &&& self.table() == t0.push((address, alloc))
                    &&& self.usage() == u0.update(
                        alloc.callstack_id as int,
                        (u0[alloc.callstack_id as int] + alloc.spec_size()) as usize,
                    )
                },
            },
            alloc.callstack_id < u0.len(),
            u0.len() <= u32::MAX,
            0 <= alloc.spec_size(),
            0 <= previous.spec_size(),
            match removed_at {
                Some(_) => u0.update(
                    previous.callstack_id as int,
                    (u0[previous.callstack_id as int] - previous.spec_size()) as usize,
                )[alloc.callstack_id as int] + alloc.spec_size() <= usize::MAX,
                None => u0[alloc.callstack_id as int] + alloc.spec_size() <= usize::MAX,
            },
            forall|j: int| 0 <= j < t0.len() ==> (#[trigger] t0[j]).1.callstack_id < u0.len(),
        ensures
            forall|j: int|
                0 <= j < self.table().len() ==> (#[trigger] self.table()[j]).1.callstack_id
                    < u0.len(),
            table_keys_unique(self.table()),
            forall|id: int|
                0 <= id < self.usage().len() ==> #[trigger] self.usage()[id] == table_tag_bytes(
                    self.table(),
                    id as u32,
                ) + tag_bytes_of(self.mmaps(), id as u32),
            table_total(self.table()) == table_total(t0) + alloc.spec_size() - match removed_at {
                Some(_) => previous.spec_size(),
                None => 0,
            },
            table_point(self.table(), address) == Some(alloc),
            forall|a: usize|
                a != address ==> #[trigger] table_point(self.table(), a) == table_point(t0, a),
            self.usage().len() == u0.len(),
    {
        let t2 = self.table();
        match removed_at {
            Some(i) => {
                let t1 = t0.remove(i);
                assert forall|i2: int, j2: int|
                    0 <= i2 < j2 < t1.len() implies (#[trigger] t1[i2]).0 != (#[trigger] t1[j2]).0
                    by {
                    assert(t1[i2] == if i2 < i { t0[i2] } else { t0[i2 + 1] });
                    assert(t1[j2] == if j2 < i { t0[j2] } else { t0[j2 + 1] });
                }
                assert forall|j: int| 0 <= j < t1.len() implies (#[trigger] t1[j]).0 != address by {
                    assert(t1[j] == if j < i { t0[j] } else { t0[j + 1] });
                }
                assert forall|i2: int, j2: int|
                    0 <= i2 < j2 < t2.len() implies (#[trigger] t2[i2]).0 != (#[trigger] t2[j2]).0
                    by {
                    if j2 < t2.len() - 1 {
                        assert(t2[i2] == t1[i2] && t2[j2] == t1[j2]);
                    } else {
                        assert(t2[i2] == t1[i2] && t2[j2] == (address, alloc));
                    }
                }
                assert forall|id: int| 0 <= id < self.usage().len() implies #[trigger] self.usage()[id]
                    == table_tag_bytes(t2, id as u32) + tag_bytes_of(self.mmaps(), id as u32) by {
                    assert(u0[id] == table_tag_bytes(t0, id as u32) + tag_bytes_of(
                        self.mmaps(),
                        id as u32,
                    ));
                    lemma_sum_by_remove(t0, alloc_tag_weight(id as u32), i);
                    lemma_sum_by_push(t1, alloc_tag_weight(id as u32), (address, alloc));
                    assert(alloc_tag_weight(id as u32)(t0[i]) == if previous.callstack_id == id
                        as u32 {
                        previous.spec_size()
                    } else {
                        0
                    });
                    assert(alloc_tag_weight(id as u32)((address, alloc)) == if alloc.callstack_id
                        == id as u32 {
                        alloc.spec_size()
                    } else {
                        0
                    });
                    assert(table_tag_bytes(t2, id as u32) == table_tag_bytes(t0, id as u32)
                        - alloc_tag_weight(id as u32)(t0[i]) + alloc_tag_weight(id as u32)(
                        (address, alloc),
                    ));
                }
                lemma_sum_by_remove(t0, alloc_size_weight(), i);
                lemma_sum_by_push(t1, alloc_size_weight(), (address, alloc));
                assert(t2[t2.len() - 1] == (address, alloc));
                assert(table_has_addr(t2, address));
                let w = choose|j: int| 0 <= j < t2.len() && (#[trigger] t2[j]).0 == address;
                assert(t2[w].1 == alloc);
                assert forall|a: usize|
                    a != address implies #[trigger] table_point(t2, a) == table_point(t0, a) by {
                    self.point_preserved_after_remove_push(t0, i, address, alloc, a);
                }
            },
            None => {
                assert forall|i2: int, j2: int|
                    0 <= i2 < j2 < t2.len() implies (#[trigger] t2[i2]).0 != (#[trigger] t2[j2]).0
                    by {
                    if j2 < t2.len() - 1 {
                        assert(t2[i2] == t0[i2] && t2[j2] == t0[j2]);
                    } else {
                        assert(t2[j2] == (address, alloc));
                        assert(t2[i2] == t0[i2]);
                    }
                }
                assert forall|id: int| 0 <= id < self.usage().len() implies #[trigger] self.usage()[id]
                    == table_tag_bytes(t2, id as u32) + tag_bytes_of(self.mmaps(), id as u32) by {
                    assert(u0[id] == table_tag_bytes(t0, id as u32) + tag_bytes_of(
                        self.mmaps(),
                        id as u32,
                    ));
                    lemma_sum_by_push(t0, alloc_tag_weight(id as u32), (address, alloc));
                    assert(alloc_tag_weight(id as u32)((address, alloc)) == if alloc.callstack_id
                        == id as u32 {
                        alloc.spec_size()
                    } else {
                        0
                    });
                }
                lemma_sum_by_push(t0, alloc_size_weight(), (address, alloc));
                assert(t2[t2.len() - 1] == (address, alloc));
                assert(table_has_addr(t2, address));
                let w = choose|j: int| 0 <= j < t2.len() && (#[trigger] t2[j]).0 == address;
                assert(t2[w].1 == alloc);
                assert forall|a: usize|
                    a != address implies #[trigger] table_point(t2, a) == table_point(t0, a) by {
                    assert forall|j: int| 0 <= j < t2.len() && (#[trigger] t2[j]).0 == a implies
                        exists|k: int| 0 <= k < t0.len() && (#[trigger] t0[k]).0 == a by {
                        assert(t2[j] == t0[j]);
                    }
                    assert forall|k: int| 0 <= k < t0.len() && (#[trigger] t0[k]).0 == a implies
                        exists|j: int| 0 <= j < t2.len() && (#[trigger] t2[j]).0 == a by {
                        assert(t2[k] == t0[k]);
                    }
                    if table_has_addr(t2, a) {
                        let j2 = choose|j: int| 0 <= j < t2.len() && (#[trigger] t2[j]).0 == a;
                        let k0 = choose|k: int| 0 <= k < t0.len() && (#[trigger] t0[k]).0 == a;
                        assert(t2[k0] == t0[k0]);
                        assert(j2 == k0);
                    }
                }
            },
        }
    }

    /// Point lookups away from the touched address are unchanged by the
    /// remove-then-push of an overwrite.
    proof fn point_preserved_after_remove_push(
        &self,
        t0: Seq<(usize, Allocation)>,
        i: int,
        address: usize,
        alloc: Allocation,
        a: usize,
    )
        requires
            table_keys_unique(t0),
            0 <= i < t0.len(),
            t0[i].0 == address,
            a != address,
        ensures
            table_point(t0.remove(i).push((address, alloc)), a) == table_point(t0, a),
    {
        let t1 = t0.remove(i);
        let t2 = t1.push((address, alloc));
        assert forall|j: int| 0 <= j < t1.len() implies #[trigger] t1[j] == if j < i {
            t0[j]
        } else {
            t0[j + 1]
        } by {}
        if table_has_addr(t0, a) {
            let k = choose|k: int| 0 <= k < t0.len() && (#[trigger] t0[k]).0 == a;
            assert(k != i);
            let k1 = if k < i { k } else { k - 1 };
            assert(t1[k1] == t0[k]);
            assert(t2[k1] == t0[k]);
            assert(table_has_addr(t2, a));
            let w = choose|j: int| 0 <= j < t2.len() && (#[trigger] t2[j]).0 == a;
            assert(w < t2.len() - 1);
            assert(t2[w] == t1[w]);
            let w0 = if w < i { w } else { w + 1 };
            assert(t1[w] == t0[w0]);
            assert(w0 == k);
            assert(table_alloc_at(t2, a) == table_alloc_at(t0, a));
        } else {
            if table_has_addr(t2, a) {
                let j = choose|j: int| 0 <= j < t2.len() && (#[trigger] t2[j]).0 == a;
                assert(j < t2.len() - 1);
                let j0 = if j < i { j } else { j + 1 };
                assert(t0[j0].0 == a);
                assert(false);
            }
        }
    }
}

impl AllocationTracker {
    /// Free an existing allocation and return how many bytes it held, if it
    /// was tracked. Freeing an unknown address returns nothing, counts one
    /// failed deallocation, and changes no byte totals. The peak check runs
    /// before anything is subtracted.
    pub fn free_allocation(&mut self, address: usize) -> (r: Option<usize>)
        requires
            old(self).wf(),
        ensures
            final(self).wf(),
            final(self).spec_peak_bytes() == if old(self).spec_current_bytes() > old(
                self,
            ).spec_peak_bytes() {
                old(self).spec_current_bytes()
            } else {
                old(self).spec_peak_bytes()
            },
            final(self).peak_usage() == if old(self).spec_current_bytes() > old(
                self,
            ).spec_peak_bytes() {
                old(self).usage()
            } else {
                old(self).peak_usage()
            },
            r is Some <==> table_has_addr(old(self).table(), address),
            table_has_addr(old(self).table(), address) ==> {
                &&& r == Some(table_alloc_at(old(self).table(), address).spec_size() as usize)
                &&& table_point(final(self).table(), address) is None
                &&& forall|a: usize|
                    a != address ==> #[trigger] table_point(final(self).table(), a) == table_point(
                        old(self).table(),
                        a,
                    )
                &&& final(self).spec_current_bytes() == old(self).spec_current_bytes()
                    - table_alloc_at(old(self).table(), address).spec_size()
                &&& final(self).spec_failed_deallocations() == old(
                    self,
                ).spec_failed_deallocations()
                &&& final(self).table().len() == old(self).table().len() - 1
            },
            !table_has_addr(old(self).table(), address) ==> {
                &&& r is None
                &&& final(self).table() == old(self).table()
                &&& final(self).usage() == old(self).usage()
                &&& final(self).spec_current_bytes() == old(self).spec_current_bytes()
                &&& final(self).spec_failed_deallocations() == sat_add(
                    old(self).spec_failed_deallocations(),
                    1,
                )
            },
            final(self).mmaps() == old(self).mmaps(),
            final(self).stacks() == old(self).stacks(),
            final(self).spec_functions() == old(self).spec_functions(),
            final(self).spec_missing_bytes() == old(self).spec_missing_bytes(),
            final(self).spec_default_path() == old(self).spec_default_path(),
            final(self).usage().len() == old(self).usage().len(),
    {
        // Before any subtraction, settle whether the totals were at a peak:
        self.check_if_new_peak();

        let ghost t0 = self.table();
        let ghost u0 = self.usage();
        match find_addr(&self.current_allocations, address) {
            Some(i) => {
                let removed = self.current_allocations[i];
                proof {
                    self.lemma_entry_size_bounded(i as int);
                    let w = choose|j: int| 0 <= j < t0.len() && (#[trigger] t0[j]).0 == address;
                    assert(w == i as int);
                    assert(table_alloc_at(t0, address) == removed.1);
                }
                let removed_size = removed.1.size();
                self.current_allocations.remove(i);
                proof {
                    assert(forall|j: int|
                        0 <= j < t0.len() ==> 0 <= #[trigger] alloc_tag_weight(
                            removed.1.callstack_id,
                        )(t0[j]));
                    lemma_sum_by_elem_le(t0, alloc_tag_weight(removed.1.callstack_id), i as int);
                    assert(forall|j: int|
                        0 <= j < self.mmaps().len() ==> 0
                            <= #[trigger] crate::rangemap::entry_tag_weight(
                            removed.1.callstack_id,
                        )(self.mmaps()[j]));
                    lemma_sum_by_nonneg(
                        self.mmaps(),
                        crate::rangemap::entry_tag_weight(removed.1.callstack_id),
                    );
                }
                self.remove_memory_usage(removed.1.callstack_id, removed_size);
                proof {
                    let t1 = self.table();
                    assert(t1 == t0.remove(i as int));
                    assert forall|i2: int, j2: int|
                        0 <= i2 < j2 < t1.len() implies (#[trigger] t1[i2]).0 != (
                    #[trigger] t1[j2]).0 by {
                        assert(t1[i2] == if i2 < i { t0[i2] } else { t0[i2 + 1] });
                        assert(t1[j2] == if j2 < i { t0[j2] } else { t0[j2 + 1] });
                    }
                    assert forall|j: int| 0 <= j < t1.len() implies (#[trigger] t1[j]).1.callstack_id
                        < u0.len() && (#[trigger] t1[j]).0 != address by {
                        assert(t1[j] == if j < i { t0[j] } else { t0[j + 1] });
                    }
                    assert(!table_has_addr(t1, address));
                    assert forall|id: int| 0 <= id < self.usage().len() implies
                        #[trigger] self.usage()[id] == table_tag_bytes(t1, id as u32)
                            + tag_bytes_of(self.mmaps(), id as u32) by {
                        assert(u0[id] == table_tag_bytes(t0, id as u32) + tag_bytes_of(
                            self.mmaps(),
                            id as u32,
                        ));
                        lemma_sum_by_remove(t0, alloc_tag_weight(id as u32), i as int);
                        assert(alloc_tag_weight(id as u32)(t0[i as int]) == if removed.1.callstack_id
                            == id as u32 {
                            removed.1.spec_size()
                        } else {
                            0
                        });
                    }
                    lemma_sum_by_remove(t0, alloc_size_weight(), i as int);
                    assert forall|a: usize|
                        a != address implies #[trigger] table_point(t1, a) == table_point(t0, a) by {
                        lemma_table_point_after_remove(t0, i as int, address, a);
                    }
                }
                Some(removed_size)
            },
            None => {
                // Often an allocation made before tracking started; expected.
                self.failed_deallocations = if self.failed_deallocations < usize::MAX {
                    self.failed_deallocations + 1
                } else {
                    usize::MAX
                };
                None
            },
        }
    }

    /// Record a new anonymous mapping; mapped bytes share the same usage
    /// accounting as heap allocations. The caller guarantees the range is
    /// disjoint from every tracked mapping.
    pub fn add_anon_mmap(&mut self, address: usize, size: usize, callstack_id: u32)
        requires
            old(self).wf(),
            callstack_id < old(self).usage().len(),
            address + size <= usize::MAX,
            old(self).spec_current_bytes() + size <= usize::MAX,
            forall|a: int| address <= a < address + size ==> !covered_in(old(self).mmaps(), a),
        ensures
            final(self).wf(),
            forall|a: int, t: u32|
                #[trigger] point_tagged(final(self).mmaps(), a, t) <==> point_tagged(
                    old(self).mmaps(),
                    a,
                    t,
                ) || (address <= a < address + size && t == callstack_id),
            total_bytes_of(final(self).mmaps()) == total_bytes_of(old(self).mmaps()) + size,
            final(self).spec_current_bytes() == old(self).spec_current_bytes() + size,
            final(self).usage() == old(self).usage().update(
                callstack_id as int,
                (old(self).usage()[callstack_id as int] + size) as usize,
            ),
            final(self).table() == old(self).table(),
            final(self).stacks() == old(self).stacks(),
            final(self).spec_functions() == old(self).spec_functions(),
            final(self).peak_usage() == old(self).peak_usage(),
            final(self).spec_peak_bytes() == old(self).spec_peak_bytes(),
            final(self).spec_missing_bytes() == old(self).spec_missing_bytes(),
            final(self).spec_failed_deallocations() == old(self).spec_failed_deallocations(),
            final(self).spec_default_path() == old(self).spec_default_path(),
    {
        proof {
            assert(forall|j: int|
                0 <= j < self.table().len() ==> 0 <= #[trigger] alloc_size_weight()(
                    self.table()[j],
                ));
            lemma_sum_by_nonneg(self.table(), alloc_size_weight());
        }
        self.current_anon_mmaps.add(address, size, callstack_id);
        let ghost m0 = old(self).mmaps();
        let ghost u0 = old(self).usage();
        self.add_memory_usage(callstack_id, size);
        proof {
            let m1 = self.mmaps();
            assert(forall|j: int| 0 <= j < u0.len() ==> 0 <= #[trigger] slot_weight()(u0[j]));
            lemma_sum_by_elem_le(u0, slot_weight(), callstack_id as int);
            assert forall|j: int| 0 <= j < m1.len() implies (#[trigger] m1[j]).id < u0.len() by {
                if size == 0 || j < m1.len() - 1 {
                    assert(m1[j] == m0[j]);
                }
            }
            assert forall|id: int| 0 <= id < self.usage().len() implies #[trigger] self.usage()[id]
                == table_tag_bytes(self.table(), id as u32) + tag_bytes_of(m1, id as u32) by {
                assert(u0[id] == table_tag_bytes(self.table(), id as u32) + tag_bytes_of(
                    m0,
                    id as u32,
                ));
                assert(tag_bytes_of(m1, id as u32) == tag_bytes_of(m0, id as u32) + if id as u32
                    == callstack_id {
                    size as int
                } else {
                    0
                });
            }
        }
    }

    /// Release (part of) an anonymous mapping; every tag that lost bytes in
    /// the released range is debited in the usage accounting. The peak
    /// check runs before anything is subtracted.
    pub fn free_anon_mmap(&mut self, address: usize, size: usize)
        requires
            old(self).wf(),
            address + size <= usize::MAX,
        ensures
            final(self).wf(),
            final(self).spec_peak_bytes() == if old(self).spec_current_bytes() > old(
                self,
            ).spec_peak_bytes() {
                old(self).spec_current_bytes()
            } else {
                old(self).spec_peak_bytes()
            },
            final(self).peak_usage() == if old(self).spec_current_bytes() > old(
                self,
            ).spec_peak_bytes() {
                old(self).usage()
            } else {
                old(self).peak_usage()
            },
            forall|a: int, t: u32|
                #[trigger] point_tagged(final(self).mmaps(), a, t) <==> point_tagged(
                    old(self).mmaps(),
                    a,
                    t,
                ) && !(address <= a < address + size),
            final(self).spec_current_bytes() == old(self).spec_current_bytes() - (total_bytes_of(
                old(self).mmaps(),
            ) - total_bytes_of(final(self).mmaps())),
            total_bytes_of(final(self).mmaps()) <= total_bytes_of(old(self).mmaps()),
            final(self).table() == old(self).table(),
            final(self).stacks() == old(self).stacks(),
            final(self).spec_functions() == old(self).spec_functions(),
            final(self).spec_missing_bytes() == old(self).spec_missing_bytes(),
            final(self).spec_failed_deallocations() == old(self).spec_failed_deallocations(),
            final(self).spec_default_path() == old(self).spec_default_path(),
            final(self).usage().len() == old(self).usage().len(),
    {
        // Before any subtraction, settle whether the totals were at a peak:
        self.check_if_new_peak();

        let ghost m0 = self.mmaps();
        let ghost cur0 = self.spec_current_bytes();
        proof {
            assert(forall|j: int|
                0 <= j < self.table().len() ==> 0 <= #[trigger] alloc_size_weight()(
                    self.table()[j],
                ));
            lemma_sum_by_nonneg(self.table(), alloc_size_weight());
        }
        let removed = self.current_anon_mmaps.remove(address, size);
        let ghost m1 = self.mmaps();
        let ghost rseq = removed@;
        let n = removed.len();
        proof {
            assert(forall|j: int|
                0 <= j < m1.len() ==> 0 <= #[trigger] entry_size_weight()(m1[j]));
            lemma_sum_by_nonneg(m1, entry_size_weight());
            assert(forall|j: int| 0 <= j < rseq.len() ==> 0 <= #[trigger] pair_weight()(rseq[j]));
            assert forall|id: int| 0 <= id < self.usage().len() implies #[trigger] self.usage()[id]
                == table_tag_bytes(self.table(), id as u32) + tag_bytes_of(m1, id as u32) + (
            removed_for(rseq, id as u32) - removed_for(rseq.take(0), id as u32)) by {
                assert(rseq.take(0) =~= Seq::<(u32, usize)>::empty());
                assert(removed_for(rseq.take(0), id as u32) == 0);
            }
        }
        for k in 0..n
            invariant
                n == rseq.len(),
                removed@ == rseq,
                self.table() == old(self).table(),
                self.mmaps() == m1,
                self.stacks() == old(self).stacks(),
                self.spec_functions() == old(self).spec_functions(),
                self.peak_usage() == old(self).peak_usage() || self.peak_usage() == old(
                    self,
                ).usage(),
                self.spec_missing_bytes() == old(self).spec_missing_bytes(),
                self.spec_failed_deallocations() == old(self).spec_failed_deallocations(),
                self.spec_default_path() == old(self).spec_default_path(),
                self.spec_peak_bytes() == if cur0 > old(self).spec_peak_bytes() {
                    cur0
                } else {
                    old(self).spec_peak_bytes()
                },
                self.peak_usage() == if cur0 > old(self).spec_peak_bytes() {
                    old(self).usage()
                } else {
                    old(self).peak_usage()
                },
                self.spec_peak_bytes() == elems_total(self.peak_usage()),
                self.usage().len() == old(self).usage().len(),
                self.interner.wf(),
                self.usage().len() <= u32::MAX,
                self.stacks().len() == self.usage().len(),
                self.peak_usage().len() <= self.usage().len(),
                table_keys_unique(self.table()),
                forall|i: int|
                    0 <= i < self.table().len() ==> (#[trigger] self.table()[i]).1.callstack_id
                        < self.usage().len(),
                self.current_anon_mmaps.wf(),
                forall|i: int|
                    0 <= i < m0.len() ==> (#[trigger] m0[i]).id < self.usage().len(),
                forall|k2: int|
                    0 <= k2 < m1.len() ==> exists|j: int|
                        0 <= j < m0.len() && (#[trigger] m1[k2]).id == m0[j].id,
                forall|i2: int, j2: int| 0 <= i2 < j2 < rseq.len() ==> rseq[i2].0 != rseq[j2].0,
                forall|i2: int| 0 <= i2 < rseq.len() ==> rseq[i2].1 > 0,
                forall|t: u32|
                    #[trigger] removed_for(rseq, t) == tag_bytes_of(m0, t) - tag_bytes_of(m1, t),
                forall|t: u32| #[trigger] tag_bytes_of(m1, t) <= tag_bytes_of(m0, t),
                total_bytes_of(m1) == total_bytes_of(m0) - removed_total(rseq),
                total_bytes_of(m1) >= 0,
                0 <= removed_total(rseq) <= usize::MAX,
                table_total(self.table()) >= 0,
                cur0 == table_total(self.table()) + total_bytes_of(m0),
                self.spec_current_bytes() == cur0 - removed_total(rseq.take(k as int)),
                self.spec_current_bytes() == elems_total(self.usage()),
                forall|j: int| 0 <= j < rseq.len() ==> 0 <= #[trigger] pair_weight()(rseq[j]),
                forall|id: int|
                    0 <= id < self.usage().len() ==> #[trigger] self.usage()[id] == table_tag_bytes(
                        self.table(),
                        id as u32,
                    ) + tag_bytes_of(m1, id as u32) + (removed_for(rseq, id as u32) - removed_for(
                        rseq.take(k as int),
                        id as u32,
                    )),
        {
            let (tag, bytes) = removed[k];
            proof {
                assert(rseq[k as int] == (tag, bytes));
                // the tag lost bytes, so some stored interval carried it:
                // its identity is in range of the usage vector
                assert(forall|j: int|
                    0 <= j < rseq.len() ==> 0 <= #[trigger] pair_tag_weight(tag)(rseq[j]));
                lemma_sum_by_elem_le(rseq, pair_tag_weight(tag), k as int);
                assert(removed_for(rseq, tag) >= bytes > 0);
                if tag as int >= self.usage().len() {
                    assert forall|j: int| 0 <= j < m0.len() implies #[trigger] entry_tag_weight(
                        tag,
                    )(m0[j]) == 0 by {
                        assert(m0[j].id < self.usage().len());
                    }
                    lemma_sum_by_zero(m0, crate::rangemap::entry_tag_weight(tag));
                    assert(forall|j: int|
                        0 <= j < m1.len() ==> 0 <= #[trigger] entry_tag_weight(tag)(m1[j]));
                    lemma_sum_by_nonneg(m1, crate::rangemap::entry_tag_weight(tag));
                    assert(removed_for(rseq, tag) <= 0);
                    assert(false);
                }
                // the pending bytes for this tag cover this entry:
                assert(rseq.take(k + 1).drop_last() =~= rseq.take(k as int));
                assert(rseq.take(k + 1).last() == rseq[k as int]);
                lemma_sum_by_take_le_pairs(rseq, tag, k + 1);
                assert(removed_for(rseq.take(k + 1), tag) == removed_for(rseq.take(k as int), tag)
                    + bytes);
                assert(forall|j: int|
                    0 <= j < self.table().len() ==> 0 <= #[trigger] alloc_tag_weight(tag)(
                        self.table()[j],
                    ));
                lemma_sum_by_nonneg(self.table(), alloc_tag_weight(tag));
                assert(forall|j: int|
                    0 <= j < m1.len() ==> 0 <= #[trigger] entry_tag_weight(tag)(m1[j]));
                lemma_sum_by_nonneg(m1, crate::rangemap::entry_tag_weight(tag));
                assert(bytes <= self.usage()[tag as int]);
                // and the running total covers the pending bytes:
                crate::sums::lemma_sum_by_take_le(rseq, pair_weight(), k + 1);
                assert(removed_total(rseq.take(k + 1)) == removed_total(rseq.take(k as int))
                    + bytes);
                assert(bytes <= self.spec_current_bytes());
            }
            self.remove_memory_usage(tag, bytes);
            proof {
                assert forall|id: int| 0 <= id < self.usage().len() implies
                    #[trigger] self.usage()[id] == table_tag_bytes(self.table(), id as u32)
                        + tag_bytes_of(m1, id as u32) + (removed_for(rseq, id as u32)
                        - removed_for(rseq.take(k + 1), id as u32)) by {
                    assert(rseq.take(k + 1).drop_last() =~= rseq.take(k as int));
                    assert(rseq.take(k + 1).last() == rseq[k as int]);
                    assert(removed_for(rseq.take(k + 1), id as u32) == removed_for(
                        rseq.take(k as int),
                        id as u32,
                    ) + pair_tag_weight(id as u32)(rseq[k as int]));
                }
                assert(rseq.take(k + 1).drop_last() =~= rseq.take(k as int));
                assert(rseq.take(k + 1).last() == rseq[k as int]);
            }
        }
        proof {
            assert(rseq.take(n as int) =~= rseq);
            assert forall|id: int| 0 <= id < self.usage().len() implies #[trigger] self.usage()[id]
                == table_tag_bytes(self.table(), id as u32) + tag_bytes_of(m1, id as u32) by {
                assert(self.usage()[id] == table_tag_bytes(self.table(), id as u32)
                    + tag_bytes_of(m1, id as u32) + (removed_for(rseq, id as u32) - removed_for(
                    rseq.take(n as int),
                    id as u32,
                )));
            }
            assert forall|j: int| 0 <= j < m1.len() implies (#[trigger] m1[j]).id
                < self.usage().len() by {
                let w = choose|w: int| 0 <= w < m0.len() && m1[j].id == m0[w].id;
                assert(m0[w].id < self.usage().len());
            }
        }
    }

    /// Recompute every total from scratch and report whether the state is
    /// internally consistent; under the tracker's invariant this reduces to
    /// whether the peak total has caught up with the current total (true
    /// right after a peak check).
    pub fn validate(&self) -> (r: bool)
        requires
            self.wf(),
        ensures
            r == (self.spec_peak_bytes() >= self.spec_current_bytes()),
    {
        let peak_ok = self.peak_allocated_bytes >= self.current_allocated_bytes;
        let ghost t = self.table();
        proof {
            assert(forall|j: int|
                0 <= j < t.len() ==> 0 <= #[trigger] alloc_size_weight()(t[j]));
            assert(forall|j: int|
                0 <= j < self.mmaps().len() ==> 0 <= #[trigger] crate::rangemap::entry_size_weight()(
                    self.mmaps()[j],
                ));
            lemma_sum_by_nonneg(self.mmaps(), crate::rangemap::entry_size_weight());
        }
        let mut table_sum: usize = 0;
        let n = self.current_allocations.len();
        for i in 0..n
            invariant
                self.wf(),
                t == self.table(),
                n == t.len(),
                table_sum == sum_by(t.take(i as int), alloc_size_weight()),
                forall|j: int| 0 <= j < t.len() ==> 0 <= #[trigger] alloc_size_weight()(t[j]),
                total_bytes_of(self.mmaps()) >= 0,
        {
            proof {
                assert(t.take(i + 1).drop_last() =~= t.take(i as int));
                assert(t.take(i + 1).last() == t[i as int]);
                crate::sums::lemma_sum_by_take_le(t, alloc_size_weight(), i + 1);
                self.lemma_entry_size_bounded(i as int);
            }
            let entry = self.current_allocations[i];
            table_sum = table_sum + entry.1.size();
        }
        proof {
            assert(t.take(n as int) =~= t);
        }
        let map_sum = self.current_anon_mmaps.size();
        let total_ok = table_sum + map_sum == self.current_allocated_bytes;
        let usage_ok = iv_sum(&self.current_memory_usage) == self.current_allocated_bytes;
        let peak_sum_ok = iv_sum(&self.peak_memory_usage) == self.peak_allocated_bytes;
        peak_ok && total_ok && usage_ok && peak_sum_ok
    }

    /// Reset live allocation state while keeping the interner's identities
    /// valid: the current usage vector keeps its length (zeroed in place),
    /// the peak vector is emptied, and both totals drop to zero. The
    /// function registry, the interner, and the diagnostic counters stay.
    pub fn reset(&mut self, default_path: String)
        requires
            old(self).wf(),
        ensures
            final(self).wf(),
            final(self).table().len() == 0,
            final(self).mmaps().len() == 0,
            final(self).usage().len() == old(self).usage().len(),
            forall|id: int| 0 <= id < final(self).usage().len() ==> final(self).usage()[id] == 0,
            final(self).peak_usage().len() == 0,
            final(self).spec_current_bytes() == 0,
            final(self).spec_peak_bytes() == 0,
            final(self).stacks() == old(self).stacks(),
            final(self).spec_functions() == old(self).spec_functions(),
            final(self).spec_missing_bytes() == old(self).spec_missing_bytes(),
            final(self).spec_failed_deallocations() == old(self).spec_failed_deallocations(),
            final(self).spec_default_path() == default_path@,
    {
        self.current_allocations.clear();
        self.current_anon_mmaps = RangeMap::new();
        let n = iv_len(&self.current_memory_usage);
        for i in 0..n
            invariant
                n == self.usage().len(),
                self.usage().len() == old(self).usage().len(),
                forall|j: int| 0 <= j < i ==> #[trigger] self.usage()[j] == 0,
                self.table().len() == 0,
                self.mmaps().len() == 0,
                self.current_anon_mmaps.wf(),
                self.stacks() == old(self).stacks(),
                self.interner.wf(),
                self.stacks().len() == self.usage().len(),
                self.usage().len() <= u32::MAX,
                self.spec_functions() == old(self).spec_functions(),
                self.spec_missing_bytes() == old(self).spec_missing_bytes(),
                self.spec_failed_deallocations() == old(self).spec_failed_deallocations(),
                self.peak_usage() == old(self).peak_usage(),
        {
            iv_set(&mut self.current_memory_usage, i, 0);
        }
        self.peak_memory_usage = iv_new();
        self.current_allocated_bytes = 0;
        self.peak_allocated_bytes = 0;
        self.default_path = default_path;
        proof {
            assert(forall|j: int|
                0 <= j < self.usage().len() ==> #[trigger] slot_weight()(self.usage()[j]) == 0);
            lemma_sum_by_zero(self.usage(), slot_weight());
            assert forall|id: int| 0 <= id < self.usage().len() implies #[trigger] self.usage()[id]
                == table_tag_bytes(self.table(), id as u32) + tag_bytes_of(
                self.mmaps(),
                id as u32,
            ) by {
                assert(self.table().len() == 0);
                assert(self.mmaps().len() == 0);
            }
        }
    }

    /// On an externally signalled low-memory condition, drop the live
    /// allocation table and the peak vector to shed the tracker's own
    /// overhead; a best-effort report from current state (and process exit)
    /// is expected to follow. The peak report is knowingly sacrificed: only
    /// report generation is meaningful on the tracker afterwards.
    pub fn oom_break_glass(&mut self)
        requires
            old(self).wf(),
        ensures
            final(self).report_ready(),
            final(self).report_consistent(),
            final(self).table().len() == 0,
            final(self).peak_usage().len() == 0,
            final(self).usage() == old(self).usage(),
            final(self).mmaps() == old(self).mmaps(),
            final(self).stacks() == old(self).stacks(),
            final(self).spec_functions() == old(self).spec_functions(),
            final(self).spec_current_bytes() == old(self).spec_current_bytes(),
            final(self).spec_default_path() == old(self).spec_default_path(),
    {
        self.current_allocations.clear();
        self.peak_memory_usage = iv_new();
    }
}

/// The usage vector a report draws from: peak or current.
pub open spec fn report_input(t: AllocationTracker, peak: bool) -> Seq<usize> {
    if peak {
        t.peak_usage()
    } else {
        t.usage()
    }
}

impl AllocationTracker {
    /// Sum of all stored mapping interval sizes.
    pub fn mmap_total(&self) -> (r: usize)
        requires
            self.wf(),
        ensures
            r == total_bytes_of(self.mmaps()),
    {
        self.current_anon_mmaps.size()
    }

    /// The frames interned under a call stack identity.
    pub fn callstack_frames(&self, callstack_id: u32) -> (r: &Vec<crate::callsite::CallSiteId>)
        requires
            callstack_id < self.stacks().len(),
        ensures
            r@ == self.stacks()[callstack_id as int],
    {
        self.interner.get_callstack(callstack_id)
    }

    /// The current usage vector as a plain vector (diagnostics/tests).
    pub fn usage_vec(&self) -> (r: Vec<usize>)
        ensures
            r@ == self.usage(),
    {
        snapshot_vec(&self.current_memory_usage)
    }

    /// The peak usage vector as a plain vector (diagnostics/tests).
    pub fn peak_usage_vec(&self) -> (r: Vec<usize>)
        ensures
            r@ == self.peak_usage(),
    {
        snapshot_vec(&self.peak_memory_usage)
    }

    /// Combine call stacks: make sure the peak is up to date, then filter
    /// the chosen usage vector (peak or current) down to the entries worth
    /// reporting.
    pub fn combine_callstacks(&mut self, peak: bool) -> (r: Vec<(u32, usize)>)
        requires
            old(self).wf() || old(self).report_consistent(),
        ensures
            old(self).wf() ==> final(self).wf(),
            final(self).report_consistent(),
            crate::report::filter_ok(
                if peak {
                    final(self).peak_usage()
                } else {
                    final(self).usage()
                },
                r@,
            ),
            final(self).spec_peak_bytes() == if old(self).spec_current_bytes() > old(
                self,
            ).spec_peak_bytes() {
                old(self).spec_current_bytes()
            } else {
                old(self).spec_peak_bytes()
            },
            final(self).peak_usage() == if old(self).spec_current_bytes() > old(
                self,
            ).spec_peak_bytes() {
                old(self).usage()
            } else {
                old(self).peak_usage()
            },
            final(self).table() == old(self).table(),
            final(self).mmaps() == old(self).mmaps(),
            final(self).usage() == old(self).usage(),
            final(self).stacks() == old(self).stacks(),
            final(self).spec_functions() == old(self).spec_functions(),
            final(self).spec_current_bytes() == old(self).spec_current_bytes(),
            final(self).spec_missing_bytes() == old(self).spec_missing_bytes(),
            final(self).spec_failed_deallocations() == old(self).spec_failed_deallocations(),
            final(self).spec_default_path() == old(self).spec_default_path(),
    {
        // First, make sure peaks are correct:
        self.check_if_new_peak();
        if peak {
            crate::report::filter_to_useful_callstacks(&self.peak_memory_usage)
        } else {
            crate::report::filter_to_useful_callstacks(&self.current_memory_usage)
        }
    }

    /// The folded-stack report lines for the chosen usage vector: one line
    /// per retained call stack, `frames separated-by-; bytes`.
    pub fn to_lines(&mut self, peak: bool, runpy_path: &str) -> (r: Vec<String>)
        requires
            old(self).wf() || old(self).report_consistent(),
            forall|i: int|
                0 <= i < old(self).stacks().len() ==> crate::fmt::frames_ok(
                    old(self).spec_functions(),
                    #[trigger] old(self).stacks()[i],
                ),
        ensures
            old(self).wf() ==> final(self).wf(),
            final(self).report_consistent(),
            final(self).stacks() == old(self).stacks(),
            final(self).spec_functions() == old(self).spec_functions(),
            final(self).usage() == old(self).usage(),
            exists|sel: Seq<(u32, usize)>|
                {
                    &&& #[trigger] crate::report::filter_ok(report_input(*final(self), peak), sel)
                    &&& r@.len() == sel.len()
                    &&& forall|k: int|
                        0 <= k < r@.len() ==> (#[trigger] r@[k])@ == crate::fmt::spec_line(
                            final(self).spec_functions(),
                            final(self).stacks()[sel[k].0 as int],
                            sel[k].1 as int,
                            runpy_path@,
                        )
                },
    {
        let by_call = self.combine_callstacks(peak);
        let ghost sel = by_call@;
        let ghost chosen = if peak {
            self.peak_usage()
        } else {
            self.usage()
        };
        let mut lines: Vec<String> = Vec::new();
        let n = by_call.len();
        for k in 0..n
            invariant
                n == sel.len(),
                by_call@ == sel,
                old(self).wf() ==> self.wf(),
                self.report_consistent(),
                crate::report::filter_ok(chosen, sel),
                chosen == if peak {
                    self.peak_usage()
                } else {
                    self.usage()
                },
                self.stacks() == old(self).stacks(),
                self.spec_functions() == old(self).spec_functions(),
                self.usage() == old(self).usage(),
                self.peak_usage().len() <= self.usage().len(),
                self.usage().len() == self.stacks().len(),
                forall|i: int|
                    0 <= i < self.stacks().len() ==> crate::fmt::frames_ok(
                        self.spec_functions(),
                        #[trigger] self.stacks()[i],
                    ),
                lines@.len() == k,
                forall|j: int|
                    0 <= j < k ==> (#[trigger] lines@[j])@ == crate::fmt::spec_line(
                        self.spec_functions(),
                        self.stacks()[sel[j].0 as int],
                        sel[j].1 as int,
                        runpy_path@,
                    ),
        {
            let (callstack_id, size) = by_call[k];
            proof {
                assert(sel[k as int].0 < chosen.len());
            }
            let frames = self.interner.get_callstack(callstack_id);
            let mut line = crate::fmt::stack_string(frames, &self.functions, ";", runpy_path);
            line.append(" ");
            let count = crate::fmt::usize_to_string(size);
            line.append(count.as_str());
            proof {
                assert(line@ =~= crate::fmt::spec_line(
                    self.spec_functions(),
                    self.stacks()[sel[k as int].0 as int],
                    sel[k as int].1 as int,
                    runpy_path@,
                ));
            }
            lines.push(line);
        }
        proof {
            assert(crate::report::filter_ok(report_input(*self, peak), sel));
            assert(exists|s2: Seq<(u32, usize)>|
                {
                    &&& #[trigger] crate::report::filter_ok(report_input(*self, peak), s2)
                    &&& lines@.len() == s2.len()
                    &&& forall|k: int|
                        0 <= k < lines@.len() ==> (#[trigger] lines@[k])@ == crate::fmt::spec_line(
                            self.spec_functions(),
                            self.stacks()[s2[k].0 as int],
                            s2[k].1 as int,
                            runpy_path@,
                        )
                }) by {
                assert(crate::report::filter_ok(report_input(*self, peak), sel) && lines@.len()
                    == sel.len() && forall|k: int|
                    0 <= k < lines@.len() ==> (#[trigger] lines@[k])@ == crate::fmt::spec_line(
                        self.spec_functions(),
                        self.stacks()[sel[k].0 as int],
                        sel[k].1 as int,
                        runpy_path@,
                    ));
            }
        }
        lines
    }
}

/// Read a usage vector out into a plain vector.
fn snapshot_vec(v: &im::Vector<usize>) -> (r: Vec<usize>)
    ensures
        r@ == elems(*v),
{
    let n = iv_len(v);
    let mut r: Vec<usize> = Vec::new();
    for i in 0..n
        invariant
            n == elems(*v).len(),
            r@ == elems(*v).take(i as int),
    {
        let x = iv_get(v, i);
        r.push(x);
        proof {
            assert(r@ =~= elems(*v).take(i + 1));
        }
    }
    proof {
        assert(elems(*v).take(n as int) =~= elems(*v));
    }
    r
}

impl Callstack {
    /// Whether the single-slot cache answers for this line number.
    pub open spec fn cache_hit(self, line_number: u16) -> bool {
        match self.cached_callstack_id {
            Some((cached_line, _)) => cached_line == line_number,
            None => false,
        }
    }

    /// The identity of this stack, as of an allocation at `line_number`:
    /// the line is written into the top frame and the stack is interned.
    /// Repeated calls with the same line number answer from the cache,
    /// touching neither the frames nor the tracker; `start_call` and
    /// `finish_call` invalidate the cache.
    pub fn id_for_new_allocation(&mut self, line_number: u16, tracker: &mut AllocationTracker) -> (r:
        u32)
        requires
            old(tracker).wf(),
            old(tracker).usage().len() < u32::MAX,
            old(self).cache_ok(old(tracker).stacks()),
        ensures
            final(tracker).wf(),
            final(self).cache_ok(final(tracker).stacks()),
            r == spec_intern_id(
                old(tracker).stacks(),
                with_line(old(self).calls@, line_number),
            ),
            r < final(tracker).usage().len(),
            final(tracker).stacks() == spec_intern(
                old(tracker).stacks(),
                with_line(old(self).calls@, line_number),
            ),
            final(self).cached_callstack_id == Some((line_number, r)),
            old(self).cache_hit(line_number) ==> *final(tracker) == *old(tracker) && *final(self)
                == *old(self),
            final(self).calls@ == if old(self).cache_hit(line_number) {
                old(self).calls@
            } else {
                with_line(old(self).calls@, line_number)
            },
            final(tracker).table() == old(tracker).table(),
            final(tracker).mmaps() == old(tracker).mmaps(),
            final(tracker).peak_usage() == old(tracker).peak_usage(),
            final(tracker).spec_functions() == old(tracker).spec_functions(),
            final(tracker).spec_current_bytes() == old(tracker).spec_current_bytes(),
            final(tracker).spec_peak_bytes() == old(tracker).spec_peak_bytes(),
            final(tracker).spec_missing_bytes() == old(tracker).spec_missing_bytes(),
            final(tracker).spec_failed_deallocations() == old(
                tracker,
            ).spec_failed_deallocations(),
            final(tracker).spec_default_path() == old(tracker).spec_default_path(),
            final(tracker).usage() == old(tracker).usage() || final(tracker).usage() == old(
                tracker,
            ).usage().push(0),
    {
        // If the cache answers for this line number, reuse the identity:
        if let Some((previous_line_number, callstack_id)) = self.cached_callstack_id {
            if line_number == previous_line_number {
                proof {
                    let s = with_line(self.calls@, line_number);
                    assert(tracker.stacks()[callstack_id as int] == s);
                    assert(crate::interner::has_stack(tracker.stacks(), s));
                    let w = spec_intern_id(tracker.stacks(), s);
                    assert(0 <= w < tracker.stacks().len() && tracker.stacks()[w] == s);
                    if w != callstack_id as int {
                        assert(tracker.stacks()[w] == tracker.stacks()[callstack_id as int]);
                        assert(false);
                    }
                }
                return callstack_id;
            }
        }

        // Write the allocation line into the top frame:
        if line_number != 0 && self.calls.len() > 0 {
            let top = self.calls.len() - 1;
            let function = self.calls[top].function;
            self.calls[top] = crate::callsite::CallSiteId { function, line_number };
        }
        proof {
            assert(self.calls@ =~= with_line(old(self).calls@, line_number));
        }

        // Derive the identity, cache it, and return it:
        let callstack_id = tracker.get_callstack_id(self);
        self.cached_callstack_id = Some((line_number, callstack_id));
        proof {
            let s = with_line(old(self).calls@, line_number);
            assert(with_line(self.calls@, line_number) =~= s);
        }
        callstack_id
    }
}

/// Step identity for per-tag sums over removal results.
proof fn lemma_sum_by_take_le_pairs(rseq: Seq<(u32, usize)>, tag: u32, i: int)
    requires
        0 <= i <= rseq.len(),
    ensures
        removed_for(rseq.take(i), tag) <= removed_for(rseq, tag),
{
    assert(forall|j: int|
        0 <= j < rseq.len() ==> 0 <= #[trigger] pair_tag_weight(tag)(rseq[j]));
    crate::sums::lemma_sum_by_take_le(rseq, pair_tag_weight(tag), i);
}

/// Point lookups away from the removed address are unchanged by a removal.
proof fn lemma_table_point_after_remove(
    t0: Seq<(usize, Allocation)>,
    i: int,
    address: usize,
    a: usize,
)
    requires
        table_keys_unique(t0),
        0 <= i < t0.len(),
        t0[i].0 == address,
        a != address,
    ensures
        table_point(t0.remove(i), a) == table_point(t0, a),
{
    let t1 = t0.remove(i);
    assert(forall|j: int|
        0 <= j < t1.len() ==> #[trigger] t1[j] == if j < i {
            t0[j]
        } else {
            t0[j + 1]
        });
    if table_has_addr(t0, a) {
        let k = choose|k: int| 0 <= k < t0.len() && (#[trigger] t0[k]).0 == a;
        assert(k != i);
        let k1 = if k < i { k } else { k - 1 };
        assert(t1[k1] == t0[k]);
        assert(table_has_addr(t1, a));
        let w = choose|j: int| 0 <= j < t1.len() && (#[trigger] t1[j]).0 == a;
        let w0 = if w < i { w } else { w + 1 };
        assert(t0[w0].0 == a);
        assert(w0 == k);
        assert(table_alloc_at(t1, a) == table_alloc_at(t0, a));
    } else {
        if table_has_addr(t1, a) {
            let j = choose|j: int| 0 <= j < t1.len() && (#[trigger] t1[j]).0 == a;
            let j0 = if j < i { j } else { j + 1 };
            assert(t0[j0].0 == a);
            assert(false);
        }
    }
}

/// Find the index of the table entry at `address`, if any.
fn find_addr(t: &Vec<(usize, Allocation)>, address: usize) -> (r: Option<usize>)
    ensures
        match r {
            Some(i) => i < t@.len() && t@[i as int].0 == address,
            None => !table_has_addr(t@, address),
        },
{
    let n = t.len();
    let mut found: bool = false;
    let mut idx: usize = 0;
    for k in 0..n
        invariant
            n == t@.len(),
            !found ==> forall|j: int| 0 <= j < k ==> (#[trigger] t@[j]).0 != address,
            found ==> idx < n && t@[idx as int].0 == address,
    {
        if !found && t[k].0 == address {
            found = true;
            idx = k;
        }
    }
    if found {
        Some(idx)
    } else {
        proof {
            if table_has_addr(t@, address) {
                let i = choose|i: int| 0 <= i < t@.len() && (#[trigger] t@[i]).0 == address;
                assert(false);
            }
        }
        None
    }
}

} // verus!
