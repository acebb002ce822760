//! An assignment between variables with a kind.
use vstd::prelude::*;
use crate::shared::dfg::variable::{Variable, DVarView, dvar_views};
use crate::shared::dfg::common::Operator;

verus! {

/// The statement edits the flow of data in a solidity program: the variables
/// of its left-hand side take data from those of its right-hand side.
#[derive(Debug)]
pub struct Assignment {
    /// a list of variables in LHS of a assignment
    pub lhs: Vec<Variable>,
    /// a list of variables in RHS of a assignment
    pub rhs: Vec<Variable>,
    /// the operator in a assignment
    pub op: Operator,
}

/// An assignment as plain values: its two sides and its operator.
pub type DAsgView = (Seq<DVarView>, Seq<DVarView>, Operator);

/// The view of an assignment.
pub open spec fn dasg_view(a: Assignment) -> DAsgView {
    (dvar_views(a.lhs@), dvar_views(a.rhs@), a.op)
}

/// The views of assignments.
pub open spec fn dasg_views(asgs: Seq<Assignment>) -> Seq<DAsgView> {
    asgs.map_values(|a: Assignment| dasg_view(a))
}

impl Assignment {
    pub fn new(lhs: Vec<Variable>, rhs: Vec<Variable>, op: Operator) -> (r: Self)
        ensures
            r.lhs@ == lhs@,
            r.rhs@ == rhs@,
            r.op == op,
    {
        Assignment { lhs, rhs, op }
    }

    pub fn get_lhs(&self) -> (r: &Vec<Variable>)
        ensures
            r@ == self.lhs@,
    {
        &self.lhs
    }

    pub fn get_rhs(&self) -> (r: &Vec<Variable>)
        ensures
            r@ == self.rhs@,
    {
        &self.rhs
    }

    pub fn get_op(&self) -> (r: &Operator)
        ensures
            *r == self.op,
    {
        &self.op
    }
}

} // verus!
