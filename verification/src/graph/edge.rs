//! Edge of the graph.
use vstd::prelude::*;

verus! {

/// Edge of CFG
#[derive(Debug, PartialEq, Eq, Hash, Clone, Copy, Structural)]
pub struct Edge {
    pub from: u32,
    pub to: u32,
}

impl Edge {
    pub fn new(from: u32, to: u32) -> (r: Self)
        ensures
            r.from == from,
            r.to == to,
    {
        Edge { from, to }
    }

    pub fn to_tuple(&self) -> (r: (u32, u32))
        ensures
            r == (self.from, self.to),
    {
        (self.from, self.to)
    }
}

} // verus!
