//! Interning of call stacks into dense identities.
//!
//! The first time a distinct frame sequence is seen it is assigned the next
//! identity, counting densely from zero; identical sequences always resolve
//! to the same identity for the process lifetime. Identities are used
//! directly as indices into the per-callstack usage vectors, so the caller
//! must grow those vectors in lockstep with first insertions: the interner
//! reports whether a call inserted.

use vstd::prelude::*;
use crate::callsite::CallSiteId;
use crate::callstack::Callstack;

verus! {

/// Whether `s` is one of the interned sequences.
pub open spec fn has_stack(stacks: Seq<Seq<CallSiteId>>, s: Seq<CallSiteId>) -> bool {
    exists|i: int| 0 <= i < stacks.len() && stacks[i] == s
}

/// The identity `s` has, or would get, under the interned sequences: its
/// index when present, the next fresh index otherwise.
pub open spec fn spec_intern_id(stacks: Seq<Seq<CallSiteId>>, s: Seq<CallSiteId>) -> int {
    if has_stack(stacks, s) {
        choose|i: int| 0 <= i < stacks.len() && stacks[i] == s
    } else {
        stacks.len() as int
    }
}

/// The interned sequences after observing `s`.
pub open spec fn spec_intern(stacks: Seq<Seq<CallSiteId>>, s: Seq<CallSiteId>) -> Seq<
    Seq<CallSiteId>,
> {
    if has_stack(stacks, s) {
        stacks
    } else {
        stacks.push(s)
    }
}

/// Interning is identity-deterministic: observing `s1` and then `s2` gives
/// the same identity exactly when the frame sequences are equal — equal
/// stacks share one identity, and stacks differing anywhere (in any single
/// line number, say) get different identities.
pub proof fn lemma_interning_deterministic(
    stacks: Seq<Seq<CallSiteId>>,
    s1: Seq<CallSiteId>,
    s2: Seq<CallSiteId>,
)
    ensures
        ({
            let id1 = spec_intern_id(stacks, s1);
            let id2 = spec_intern_id(spec_intern(stacks, s1), s2);
            id1 == id2 <==> s1 == s2
        }),
{
    let m1 = spec_intern(stacks, s1);
    let id1 = spec_intern_id(stacks, s1);
    let id2 = spec_intern_id(m1, s2);
    if has_stack(stacks, s1) {
        assert(0 <= id1 < stacks.len() && stacks[id1] == s1);
    } else {
        assert(m1[id1] == s1);
    }
    assert(0 <= id1 < m1.len() && m1[id1] == s1);
    if s1 == s2 {
        assert(has_stack(m1, s2));
        assert(0 <= id2 < m1.len() && m1[id2] == s2);
        if has_stack(stacks, s1) {
            // both identities are indices of s1 in the unchanged sequence
            assert(id2 == spec_intern_id(stacks, s2));
        } else {
            // s1 was fresh: its only occurrence is the appended slot
            if id2 < stacks.len() {
                assert(stacks[id2] == m1[id2]);
                assert(has_stack(stacks, s1));
                assert(false);
            }
            assert(id2 == stacks.len());
        }
    } else {
        if has_stack(m1, s2) {
            assert(0 <= id2 < m1.len() && m1[id2] == s2);
            assert(m1[id1] == s1 && s1 != s2);
            assert(id1 != id2);
        } else {
            assert(id2 == m1.len());
            assert(id1 < m1.len());
        }
    }
}

/// Maps call stacks (by frame contents) to dense numeric identities.
pub struct CallstackInterner {
    stacks: Vec<Vec<CallSiteId>>,
}

impl CallstackInterner {
    /// The interned frame sequences, in identity order.
    pub closed spec fn view(&self) -> Seq<Seq<CallSiteId>> {
        self.stacks@.map_values(|v: Vec<CallSiteId>| v@)
    }

    /// No two interned sequences are equal: an identity is unambiguous.
    pub open spec fn wf(&self) -> bool {
        forall|i: int, j: int|
            0 <= i < j < self@.len() ==> self@[i] != self@[j]
    }

    /// An empty interner.
    pub fn new() -> (r: Self)
        ensures
            r@.len() == 0,
            r.wf(),
    {
        CallstackInterner { stacks: Vec::new() }
    }

    /// How many distinct stacks have been interned.
    pub fn len(&self) -> (r: usize)
        ensures
            r == self@.len(),
    {
        self.stacks.len()
    }

    /// Add a (possibly) new stack, returning its identity and whether this
    /// call was its first insertion. The caller must use the flag to grow
    /// anything indexed by identity, in lockstep.
    pub fn get_or_insert_id(&mut self, callstack: &Callstack) -> (r: (u32, bool))
        requires
            old(self).wf(),
            old(self)@.len() < u32::MAX,
        ensures
            final(self).wf(),
            final(self)@ == spec_intern(old(self)@, callstack.calls@),
            r.0 == spec_intern_id(old(self)@, callstack.calls@),
            r.1 == !has_stack(old(self)@, callstack.calls@),
            final(self)@.len() == old(self)@.len() + if r.1 { 1int } else { 0int },
            has_stack(final(self)@, callstack.calls@),
            r.0 < final(self)@.len(),
            final(self)@[r.0 as int] == callstack.calls@,
    {
        let n = self.stacks.len();
        for i in 0..n
            invariant
                n == self@.len(),
                forall|j: int| 0 <= j < i ==> self@[j] != callstack.calls@,
                self.wf(),
                self@.len() < u32::MAX,
        {
            if calls_equal(&self.stacks[i], &callstack.calls) {
                proof {
                    assert(self@[i as int] == callstack.calls@);
                    assert(has_stack(self@, callstack.calls@));
                    let w = spec_intern_id(self@, callstack.calls@);
                    assert(0 <= w < self@.len() && self@[w] == callstack.calls@);
                    assert(w == i as int);
                }
                return (i as u32, false);
            }
        }
        proof {
            assert(!has_stack(self@, callstack.calls@));
        }
        let copy = clone_calls(&callstack.calls);
        let id = self.stacks.len() as u32;
        self.stacks.push(copy);
        proof {
            assert(self@ =~= old(self)@.push(callstack.calls@));
            assert(self@[id as int] == callstack.calls@);
            assert forall|i: int, j: int| 0 <= i < j < self@.len() implies self@[i] != self@[j] by {
                if j < self@.len() - 1 {
                    assert(old(self).wf());
                } else {
                    assert(self@[j] == callstack.calls@);
                    assert(!has_stack(old(self)@, callstack.calls@));
                }
            }
        }
        (id, true)
    }

    /// The frames interned under `id`, for reporting and diagnostics.
    pub fn get_callstack(&self, id: u32) -> (r: &Vec<CallSiteId>)
        requires
            id < self@.len(),
        ensures
            r@ == self@[id as int],
    {
        &self.stacks[id as usize]
    }
}

/// Element-wise equality of two frame vectors.
fn calls_equal(a: &Vec<CallSiteId>, b: &Vec<CallSiteId>) -> (r: bool)
    ensures
        r == (a@ == b@),
{
    if a.len() != b.len() {
        proof {
            assert(a@ != b@);
        }
        return false;
    }
    let n = a.len();
    for i in 0..n
        invariant
            n == a@.len(),
            n == b@.len(),
            forall|j: int| 0 <= j < i ==> a@[j] == b@[j],
    {
        if a[i].function.0 != b[i].function.0 || a[i].line_number != b[i].line_number {
            proof {
                assert(a@[i as int] != b@[i as int]);
            }
            return false;
        }
    }
    proof {
        assert(a@ =~= b@);
    }
    true
}

/// A fresh vector holding the same frames.
fn clone_calls(v: &Vec<CallSiteId>) -> (r: Vec<CallSiteId>)
    ensures
        r@ == v@,
{
    let mut r: Vec<CallSiteId> = Vec::new();
    let n = v.len();
    for i in 0..n
        invariant
            n == v@.len(),
            r@ == v@.subrange(0, i as int),
    {
        r.push(v[i]);
        proof {
            assert(r@ =~= v@.subrange(0, i + 1));
        }
    }
    proof {
        assert(v@.subrange(0, n as int) =~= v@);
    }
    r
}

} // verus!
