//! The assignments and variables that a statement is read into.
use vstd::prelude::*;
use crate::shared::dfg::assignment::Assignment;
use crate::shared::dfg::variable::Variable;

verus! {

/// The callee expression of a function call, read into assignments and variables
///
/// No parser builds it here: its variables are read by flattening a variable
/// into the variables it is made of (`FlatVariable`), and that reading is not
/// part of this library.
pub struct FunctionAccess {
    pub assignments: Vec<Assignment>,
    pub variables: Vec<Variable>,
}

impl FunctionAccess {
    pub fn get_assignments(&self) -> (r: &Vec<Assignment>)
        ensures
            r@ == self.assignments@,
    {
        &self.assignments
    }

    pub fn get_variables(&self) -> (r: &Vec<Variable>)
        ensures
            r@ == self.variables@,
    {
        &self.variables
    }
}

} // verus!
