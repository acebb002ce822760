//! What an analyzer works on.
use vstd::prelude::*;
use crate::graph::vertex::Vertex;
use crate::shared::dict::Dictionary;
use crate::dfg::link::DataLink;

verus! {

/// The graph of a function, the dictionary it was built from, and the data
/// links once they are found.
pub struct State<'a> {
    pub stop: u32,
    pub edges: &'a Vec<(u32, u32)>,
    pub vertices: &'a Vec<Vertex>,
    pub dict: &'a Dictionary<'a>,
    pub links: Option<Vec<DataLink>>,
}

/// An analysis of the graph of a function
pub trait Analyzer {
    fn analyze(&mut self, state: &mut State)
        requires
            old(state).dict.wf(),
    ;
}

} // verus!
