//! The inspection of state variable declarations.
use vstd::prelude::*;

verus! {

/// Inspects state variable declarations, at the nesting level they stand on.
pub struct StateVariableDeclaration {
    pub level: u32,
}

impl StateVariableDeclaration {
    pub fn new() -> (r: StateVariableDeclaration)
        ensures
            r.level == 0,
    {
        StateVariableDeclaration { level: 0 }
    }
}

} // verus!
