//! Edge of the control flow graph.
use vstd::prelude::*;

verus! {

/// Edge of CFG
#[derive(Debug, Clone, Copy, PartialEq, Eq, Hash, Structural)]
pub struct Edge {
    pub from: u32,
    pub to: u32,
}

impl Edge {
    pub fn new(from: u32, to: u32) -> (r: Self)
        ensures
            r.from == from,
            r.to == to,
    {
        Edge { from, to }
    }

    pub fn get_from(&self) -> (r: u32)
        ensures
            r == self.from,
    {
        self.from
    }

    pub fn get_to(&self) -> (r: u32)
        ensures
            r == self.to,
    {
        self.to
    }
}

} // verus!
