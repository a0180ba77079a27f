//! The live logical call stack.
//!
//! A `Callstack` is the ordered sequence of call sites for the current
//! calling context, driven by explicit enter/leave events. A single-slot
//! cache remembers the identity last derived for a given allocation line,
//! so that back-to-back allocations at one source line skip the interner.
//! The cache is a derived optimization: it is no part of the stack's
//! identity, and every mutation of the frames invalidates it.

use vstd::prelude::*;
use crate::callsite::{CallSiteId, FunctionId};

verus! {

/// The frame sequence with the top frame's line number overwritten by
/// `line_number` (when `line_number` is nonzero and a top frame exists).
pub open spec fn with_line(s: Seq<CallSiteId>, line_number: u16) -> Seq<CallSiteId> {
    if line_number == 0 || s.len() == 0 {
        s
    } else {
        s.update(
            s.len() - 1,
            CallSiteId { function: s.last().function, line_number },
        )
    }
}

/// The current logical call stack, outermost frame first.
#[derive(Clone, Debug)]
pub struct Callstack {
    pub calls: Vec<CallSiteId>,
    /// Identity cache: the line number last asked about, and the identity
    /// the interner resolved for it.
    pub cached_callstack_id: Option<(u16, u32)>,
}

impl Callstack {
    /// The cache, when set, holds the identity this stack (with the cached
    /// line written into the top frame) has in the given interned sequence
    /// of stacks.
    pub open spec fn cache_ok(self, stacks: Seq<Seq<CallSiteId>>) -> bool {
        match self.cached_callstack_id {
            None => true,
            Some((line_number, id)) => {
                &&& id < stacks.len()
                &&& stacks[id as int] == with_line(self.calls@, line_number)
            },
        }
    }

    /// An empty stack with a cold cache.
    pub fn new() -> (r: Callstack)
        ensures
            r.calls@.len() == 0,
            r.cached_callstack_id is None,
    {
        Callstack { calls: Vec::new(), cached_callstack_id: None }
    }

    /// A stack made of the given frames, with a cold cache.
    pub fn from_vec(vec: Vec<CallSiteId>) -> (r: Callstack)
        ensures
            r.calls@ == vec@,
            r.cached_callstack_id is None,
    {
        Callstack { calls: vec, cached_callstack_id: None }
    }

    /// Enter a call: when `parent_line_number` is nonzero, the caller's
    /// frame is first re-attributed to the line holding the call
    /// expression; then the new frame is pushed. Invalidates the cache.
    pub fn start_call(&mut self, parent_line_number: u16, callsite_id: CallSiteId)
        ensures
            final(self).calls@ == with_line(old(self).calls@, parent_line_number).push(callsite_id),
            final(self).cached_callstack_id is None,
    {
        if parent_line_number != 0 && self.calls.len() > 0 {
            let top = self.calls.len() - 1;
            let function = self.calls[top].function;
            self.calls[top] = CallSiteId { function, line_number: parent_line_number };
        }
        self.calls.push(callsite_id);
        self.cached_callstack_id = None;
    }

    /// Return from a call: pop the top frame (no-op on an empty stack).
    /// Invalidates the cache.
    pub fn finish_call(&mut self)
        ensures
            old(self).calls@.len() > 0 ==> final(self).calls@ == old(self).calls@.drop_last(),
            old(self).calls@.len() == 0 ==> final(self).calls@ == old(self).calls@,
            final(self).cached_callstack_id is None,
    {
        self.calls.pop();
        self.cached_callstack_id = None;
    }
}

} // verus!
