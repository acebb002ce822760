//! A declaration of variables.
use vstd::prelude::*;
use crate::shared::dfg::assignment::Assignment;

verus! {

/// A declaration: the assignment it makes to the variables it declares
///
/// No parser builds it here: its variables are read by flattening a variable
/// into the variables it is made of (`FlatVariable`), and that reading is not
/// part of this library.
#[derive(Debug)]
pub struct Declaration {
    pub assignment: Assignment,
}

impl Declaration {
    pub fn get_assignment(&self) -> (r: &Assignment)
        ensures
            r == &self.assignment,
    {
        &self.assignment
    }
}

} // verus!
