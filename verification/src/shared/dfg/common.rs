//! Members of a variable and the actions on a variable.
use vstd::prelude::*;
use crate::text::{str_eq, copy_string};
use crate::shared::dfg::variable::Variable;

pub use crate::shared::variable::VariableComparison;
pub use crate::shared::assignment::Operator;

verus! {

/// The behaviour of a variable
#[derive(Debug)]
pub enum Action {
    /// A variable is used somewhere
    Use(Variable, u32),
    /// A variable is completely cleared and store new data
    Kill(Variable, u32),
}

/// Variable access
#[derive(Debug)]
pub enum Member {
    /// Link to node that defines current variable
    Reference(u32),
    /// Contains name of a global variable or function
    Global(String),
    /// Accesses a member in an array
    IndexAccess,
    /// Shortcut to other variables
    Shortcut(u32),
}

/// A member as a plain value.
pub enum MemberView {
    Reference(u32),
    Global(Seq<char>),
    IndexAccess,
    Shortcut(u32),
}

impl View for Member {
    type V = MemberView;

    open spec fn view(&self) -> MemberView {
        match self {
            Member::Reference(id) => MemberView::Reference(*id),
            Member::Global(name) => MemberView::Global(name@),
            Member::IndexAccess => MemberView::IndexAccess,
            Member::Shortcut(id) => MemberView::Shortcut(*id),
        }
    }
}

/// The members as plain values.
pub open spec fn member_views(ms: Seq<Member>) -> Seq<MemberView> {
    ms.map_values(|m: Member| m@)
}

impl Member {
    /// The two members are the same.
    pub fn same(&self, other: &Member) -> (r: bool)
        ensures
            r == (self@ == other@),
    {
        match (self, other) {
            (Member::Reference(a), Member::Reference(b)) => *a == *b,
            (Member::Global(a), Member::Global(b)) => str_eq(a.as_str(), b.as_str()),
            (Member::IndexAccess, Member::IndexAccess) => true,
            (Member::Shortcut(a), Member::Shortcut(b)) => *a == *b,
            _ => false,
        }
    }

    /// A copy of the member.
    pub fn copy(&self) -> (r: Member)
        ensures
            r@ == self@,
    {
        match self {
            Member::Reference(id) => Member::Reference(*id),
            Member::Global(name) => Member::Global(copy_string(name)),
            Member::IndexAccess => Member::IndexAccess,
            Member::Shortcut(id) => Member::Shortcut(*id),
        }
    }
}

} // verus!
