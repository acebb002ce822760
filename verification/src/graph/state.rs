//! What the control flow hands to the data flow.
use vstd::prelude::*;
use crate::graph::vertex::Vertex;
use crate::shared::dict::Dictionary;

verus! {

/// The graph of a function, with the dictionary it was built from
pub struct State<'a> {
    pub stop: u32,
    pub edges: &'a Vec<(u32, u32)>,
    pub vertices: &'a Vec<Vertex>,
    pub dict: &'a Dictionary<'a>,
}

impl<'a> State<'a> {
    pub fn new(stop: u32, edges: &'a Vec<(u32, u32)>, vertices: &'a Vec<Vertex>, dict: &'a Dictionary<'a>) -> (r: Self)
        ensures
            r.stop == stop,
            r.edges == edges,
            r.vertices == vertices,
            r.dict == dict,
    {
        State { stop, edges, vertices, dict }
    }
}

} // verus!
