//! Vertex of the control flow graph.
use vstd::prelude::*;

verus! {

/// Shape represents function of a node in CFG
#[derive(Debug, Clone, Copy, PartialEq, Eq, Hash, Structural)]
pub enum Shape {
    Entry,
    Statement,
    FunctionCall,
    IndexAccess,
    ConditionAndFunctionCall,
    ConditionAndIndexAccess,
    Require,
    Assert,
    Throw,
    Suicide,
    Selfdestruct,
    Transfer,
    Revert,
    RootCondition,
}

/// Vertex in CFG
#[derive(Debug)]
pub struct Vertex {
    pub id: u32,
    pub source: String,
    pub shape: Shape,
    pub level: u32,
}

/// A vertex as plain values: id, source, shape and level.
pub type VertexView = (u32, Seq<char>, Shape, u32);

impl View for Vertex {
    type V = VertexView;

    open spec fn view(&self) -> VertexView {
        (self.id, self.source@, self.shape, self.level)
    }
}

/// Shapes of the vertices that stand for a condition.
pub open spec fn spec_is_condition(s: Shape) -> bool {
    s == Shape::RootCondition || s == Shape::Require || s == Shape::Assert
}

/// Shapes of the vertices after which the execution may stop.
pub open spec fn spec_is_stop(s: Shape) -> bool {
    ||| s == Shape::Require
    ||| s == Shape::Assert
    ||| s == Shape::Revert
    ||| s == Shape::Suicide
    ||| s == Shape::Selfdestruct
    ||| s == Shape::Transfer
    ||| s == Shape::Throw
}

/// Shapes of the vertices that stand for a call.
pub open spec fn spec_is_function_call(s: Shape) -> bool {
    ||| s == Shape::FunctionCall
    ||| s == Shape::ConditionAndFunctionCall
    ||| s == Shape::Require
    ||| s == Shape::Assert
    ||| s == Shape::Revert
    ||| s == Shape::Suicide
    ||| s == Shape::Selfdestruct
    ||| s == Shape::Transfer
}

impl Vertex {
    pub fn new(id: u32, source: &str, shape: Shape, level: u32) -> (r: Self)
        ensures
            r@ == (id, source@, shape, level),
    {
        Vertex { id, shape, source: source.to_owned(), level }
    }

    pub fn get_id(&self) -> (r: u32)
        ensures
            r == self.id,
    {
        self.id
    }

    pub fn get_source(&self) -> (r: &str)
        ensures
            r@ == self.source@,
    {
        self.source.as_str()
    }

    pub fn get_shape(&self) -> (r: &Shape)
        ensures
            *r == self.shape,
    {
        &self.shape
    }

    pub fn get_level(&self) -> (r: u32)
        ensures
            r == self.level,
    {
        self.level
    }

    pub fn is_condition(&self) -> (r: bool)
        ensures
            r == spec_is_condition(self.shape),
    {
        match self.shape {
            Shape::RootCondition | Shape::Require | Shape::Assert => true,
            _ => false,
        }
    }

    pub fn is_stop(&self) -> (r: bool)
        ensures
            r == spec_is_stop(self.shape),
    {
        match self.shape {
            Shape::Require | Shape::Assert | Shape::Revert | Shape::Suicide | Shape::Selfdestruct
            | Shape::Transfer | Shape::Throw => true,
            _ => false,
        }
    }

    pub fn is_function_call(&self) -> (r: bool)
        ensures
            r == spec_is_function_call(self.shape),
    {
        match self.shape {
            Shape::FunctionCall | Shape::ConditionAndFunctionCall | Shape::Require | Shape::Assert
            | Shape::Revert | Shape::Suicide | Shape::Selfdestruct | Shape::Transfer => true,
            _ => false,
        }
    }

    /// A copy of the vertex.
    pub fn copy(&self) -> (r: Vertex)
        ensures
            r@ == self@,
    {
        Vertex { id: self.id, source: self.source.clone(), shape: self.shape, level: self.level }
    }

    /// The two vertices are equal in every field.
    pub fn same(&self, other: &Vertex) -> (r: bool)
        ensures
            r == (self@ == other@),
    {
        self.id == other.id && self.level == other.level && self.shape == other.shape && self.source == other.source
    }
}

} // verus!
