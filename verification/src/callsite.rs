//! Function registry and call sites.
//!
//! Functions are interned into dense 32-bit identifiers; a call site pairs
//! a function identifier with a 1-indexed line number.

use vstd::prelude::*;

verus! {

/// Dense identifier of a registered (file, function) pair. The reserved
/// sentinel `UNKNOWN` stands for "no registered function" and is never
/// produced by registration itself.
#[derive(Clone, Copy, Debug, PartialEq, Eq, Hash, Structural)]
pub struct FunctionId(pub u32);

impl FunctionId {
    /// Whether this is the reserved sentinel.
    pub open spec fn is_unknown(self) -> bool {
        self.0 == u32::MAX
    }

    /// The reserved sentinel: resolving it yields fixed placeholder text.
    pub fn unknown() -> (r: FunctionId)
        ensures
            r.is_unknown(),
    {
        FunctionId(u32::MAX)
    }

    pub fn new(id: u32) -> (r: Self)
        ensures
            r.0 == id,
    {
        FunctionId(id)
    }

    pub fn as_u32(&self) -> (r: u32)
        ensures
            r == self.0,
    {
        self.0
    }
}

/// A function location in the profiled source: file plus function name.
#[derive(Clone, Debug)]
pub struct FunctionLocation {
    pub filename: String,
    pub function_name: String,
}

/// The function registry: appends (file, function) pairs and hands out
/// dense identifiers. Registration never deduplicates and never removes.
#[derive(Clone, Debug)]
pub struct FunctionLocations {
    pub functions: Vec<FunctionLocation>,
}

impl FunctionLocations {
    /// Create an empty registry.
    pub fn new() -> (r: Self)
        ensures
            r.functions@.len() == 0,
    {
        FunctionLocations { functions: Vec::new() }
    }

    /// Register a function; always appends and returns the fresh identifier.
    pub fn add_function(&mut self, filename: String, function_name: String) -> (r: FunctionId)
        requires
            old(self).functions@.len() < u32::MAX,
        ensures
            final(self).functions@.len() == old(self).functions@.len() + 1,
            final(self).functions@ == old(self).functions@.push(
                FunctionLocation { filename, function_name },
            ),
            r.0 == old(self).functions@.len(),
    {
        let id: u32 = self.functions.len() as u32;
        self.functions.push(FunctionLocation { filename, function_name });
        FunctionId(id)
    }

    /// Resolve an identifier to its (function name, filename) pair; the
    /// sentinel resolves to fixed placeholder strings instead of failing.
    pub fn get_function_and_filename(&self, id: FunctionId) -> (r: (&str, &str))
        requires
            id.is_unknown() || id.0 < self.functions@.len(),
        ensures
            id.is_unknown() ==> r.0@ == "UNKNOWN"@ && r.1@ == "UNKNOWN DUE TO BUG"@,
            !id.is_unknown() ==> {
                &&& r.0@ == self.functions@[id.0 as int].function_name@
                &&& r.1@ == self.functions@[id.0 as int].filename@
            },
    {
        if id.0 == u32::MAX {
            return ("UNKNOWN", "UNKNOWN DUE TO BUG");
        }
        let location = &self.functions[id.0 as usize];
        (location.function_name.as_str(), location.filename.as_str())
    }
}

/// A specific attribution point: a function plus a 1-indexed line number
/// within the function's file.
#[derive(Clone, Copy, Debug, PartialEq, Eq, Hash, Structural)]
pub struct CallSiteId {
    pub function: FunctionId,
    /// Line number within the file, 1-indexed; 0 means "not set".
    pub line_number: u16,
}

impl CallSiteId {
    pub fn new(function: FunctionId, line_number: u16) -> (r: CallSiteId)
        ensures
            r.function == function,
            r.line_number == line_number,
    {
        CallSiteId { function, line_number }
    }
}

} // verus!
