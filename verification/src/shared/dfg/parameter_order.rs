//! The variables of the arguments of a call, argument by argument.
use vstd::prelude::*;
use crate::shared::dfg::variable::Variable;

verus! {

/// The variables of each argument of a call, in argument order
///
/// No parser builds it here: its variables are read by flattening a variable
/// into the variables it is made of (`FlatVariable`), and that reading is not
/// part of this library.
pub struct ParameterOrder {
    pub variables: Vec<Vec<Variable>>,
}

impl ParameterOrder {
    pub fn get_variables(&self) -> (r: &Vec<Vec<Variable>>)
        ensures
            r@ == self.variables@,
    {
        &self.variables
    }
}

} // verus!
