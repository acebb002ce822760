//! A vertex of a dot graph.
use vstd::prelude::*;
use crate::text::{decimal, decimal_of, debug_quoted, debug_str};

verus! {

/// A vertex: its id, its label and its shape
pub enum DotVertex {
    Basic((u32, String, String)),
}

/// The dot line of a vertex with id `id`, label `source` and shape `shape`.
pub open spec fn dot_line(id: u32, source: Seq<char>, shape: Seq<char>) -> Seq<char> {
    decimal_of(id as nat) + "[label="@ + debug_str(source) + ", shape=\""@ + shape + "\"];"@
}

impl DotVertex {
    pub fn from(item: (u32, String, String)) -> (r: DotVertex)
        ensures
            r matches DotVertex::Basic(t) && t.0 == item.0 && t.1@ == item.1@ && t.2@ == item.2@,
    {
        DotVertex::Basic(item)
    }

    /// The vertex in the dot language: `id[label="source", shape="shape"];`,
    /// the label quoted and escaped as `Debug` does.
    pub fn format(&self) -> (r: String)
        ensures
            match self {
                DotVertex::Basic((id, source, shape)) => r@ == dot_line(*id, source@, shape@),
            },
    {
        match self {
            DotVertex::Basic((id, source, shape)) => {
                let mut out = decimal(*id);
                out.append("[label=");
                let label = debug_quoted(source.as_str());
                out.append(label.as_str());
                out.append(", shape=\"");
                out.append(shape.as_str());
                out.append("\"];");
                out
            },
        }
    }
}

} // verus!
