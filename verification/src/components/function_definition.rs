//! The inspection of function definitions.
use vstd::prelude::*;

verus! {

/// Inspects function definitions; it finds nothing to report yet.
pub struct FunctionDefinition {}

impl FunctionDefinition {
    pub fn new() -> FunctionDefinition {
        FunctionDefinition {}
    }

    /// What was found in `source`: nothing, as no rule is applied yet.
    pub fn report(&self, source: &str) -> (r: Vec<String>)
        ensures
            r@.len() == 0,
    {
        Vec::new()
    }
}

} // verus!
