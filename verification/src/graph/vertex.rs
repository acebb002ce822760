//! Vertex of the graph, with the shape it is drawn with.
use vstd::prelude::*;
use crate::text::owned;

verus! {

/// The shape a vertex is drawn with, which tells what the node does
#[derive(Debug, PartialEq, Eq, Hash, Clone, Copy, Structural)]
pub enum Shape {
    Point,
    Box,
    Diamond,
    DoubleCircle,
    Mdiamond,
}

#[derive(Debug)]
pub struct Vertex {
    pub id: u32,
    pub source: String,
    pub shape: Shape,
}

/// The name of a shape in the dot language.
pub open spec fn shape_name(shape: Shape) -> Seq<char> {
    match shape {
        Shape::Point => "point"@,
        Shape::Box => "box"@,
        Shape::Diamond => "diamond"@,
        Shape::DoubleCircle => "doublecircle"@,
        Shape::Mdiamond => "Mdiamond"@,
    }
}

impl Vertex {
    pub fn new(id: u32, source: &str, shape: Shape) -> (r: Self)
        ensures
            r.id == id,
            r.source@ == source@,
            r.shape == shape,
    {
        Vertex { id, shape, source: owned(source) }
    }

    /// The id, the source and the name of the shape.
    pub fn to_tuple(&self) -> (r: (u32, String, String))
        ensures
            r.0 == self.id,
            r.1@ == self.source@,
            r.2@ == shape_name(self.shape),
    {
        let shape = match self.shape {
            Shape::Point => "point",
            Shape::Box => "box",
            Shape::Diamond => "diamond",
            Shape::DoubleCircle => "doublecircle",
            Shape::Mdiamond => "Mdiamond",
        };
        (self.id, owned(self.source.as_str()), owned(shape))
    }
}

} // verus!
