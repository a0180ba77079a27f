//! The tracking core of a memory profiler: attributes every live
//! allocation to the call stack that produced it.
//!
//! Call stacks are interned into dense identities; outstanding heap
//! allocations live in a compressed, address-keyed table; anonymous
//! mappings live in an interval map that supports partial release; two
//! structurally shared usage vectors track current and peak bytes per
//! call stack; and a statistical filter reduces the per-callstack totals
//! to a bounded report in folded-stack form.

use vstd::prelude::*;

pub mod callsite;
pub mod callstack;
pub mod fmt;
pub mod interner;
pub mod rangemap;
pub mod report;
pub mod sizes;
pub mod sums;
pub mod tracker;
pub mod usage;

verus! {

} // verus!
