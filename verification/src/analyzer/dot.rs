//! The dot analyzer: writes the graph of a function, with its data links, in
//! the dot language.
use std::path::PathBuf;
use vstd::prelude::*;
use crate::graph::vertex::{Vertex, shape_name};
use crate::dot::vertex::{DotVertex, dot_line};
use crate::dfg::link::DataLink;
use crate::text::{decimal, decimal_of};
use crate::analyzer::analyzer::{Analyzer, State};

verus! {

#[verifier::external_type_specification]
#[verifier::external_body]
pub struct ExPathBuf(PathBuf);

/// Dot writer: `data` is the text to be written to `file_path`
pub struct Dot {
    pub file_path: PathBuf,
    pub data: String,
}

/// The line of an edge.
pub open spec fn edge_line(e: (u32, u32)) -> Seq<char> {
    "  "@ + decimal_of(e.0 as nat) + " -> "@ + decimal_of(e.1 as nat) + ";\n"@
}

/// The line of a data link, labelled with the source of its variable.
pub open spec fn link_line(from: u32, to: u32, label: Seq<char>) -> Seq<char> {
    "  "@ + decimal_of(from as nat) + " -> "@ + decimal_of(to as nat) + "[label=\""@ + label + "\", style=dotted];\n"@
}

/// The lines of the first `k` vertices.
pub open spec fn vertex_lines(vs: Seq<Vertex>, k: int) -> Seq<char>
    decreases k,
{
    if k <= 0 || k > vs.len() {
        seq![]
    } else {
        vertex_lines(vs, k - 1) + dot_line(vs[k - 1].id, vs[k - 1].source@, shape_name(vs[k - 1].shape))
    }
}

/// The lines of the first `k` edges.
pub open spec fn edge_lines(es: Seq<(u32, u32)>, k: int) -> Seq<char>
    decreases k,
{
    if k <= 0 || k > es.len() {
        seq![]
    } else {
        edge_lines(es, k - 1) + edge_line(es[k - 1])
    }
}

/// The lines of the first `k` links.
pub open spec fn link_lines(ls: Seq<DataLink>, k: int) -> Seq<char>
    decreases k,
{
    if k <= 0 || k > ls.len() {
        seq![]
    } else {
        link_lines(ls, k - 1) + link_line(ls[k - 1].from, ls[k - 1].to, ls[k - 1].var.source@)
    }
}

/// The graph in the dot language.
pub open spec fn dot_text(vs: Seq<Vertex>, es: Seq<(u32, u32)>, ls: Option<Seq<DataLink>>) -> Seq<char> {
    let links = match ls {
        Some(l) => link_lines(l, l.len() as int),
        None => seq![],
    };
    "digraph {\n"@ + vertex_lines(vs, vs.len() as int) + edge_lines(es, es.len() as int) + links + "}"@
}

impl Dot {
    pub fn new(file_path: PathBuf) -> (r: Self)
        ensures
            r.file_path == file_path,
            r.data@ == Seq::<char>::empty(),
    {
        Dot { file_path, data: String::new() }
    }

    /// The graph of `state` in the dot language.
    pub fn render(state: &State) -> (r: String)
        ensures
            r@ == dot_text(state.vertices@, state.edges@, match &state.links {
                Some(l) => Some(l@),
                None => None,
            }),
    {
        let mut out = String::new();
        out.append("digraph {\n");
        let ghost head = out@;
        let mut i: usize = 0;
        while i < state.vertices.len()
            invariant
                i <= state.vertices@.len(),
                out@ == head + vertex_lines(state.vertices@, i as int),
            decreases state.vertices@.len() - i,
        {
            let v: &Vertex = &state.vertices[i];
            let line = DotVertex::from(v.to_tuple()).format();
            out.append(line.as_str());
            assert(out@ =~= head + vertex_lines(state.vertices@, i + 1));
            i = i + 1;
        }
        let ghost mid = out@;
        let mut j: usize = 0;
        while j < state.edges.len()
            invariant
                j <= state.edges@.len(),
                out@ == mid + edge_lines(state.edges@, j as int),
            decreases state.edges@.len() - j,
        {
            let e = state.edges[j];
            out.append("  ");
            out.append(decimal(e.0).as_str());
            out.append(" -> ");
            out.append(decimal(e.1).as_str());
            out.append(";\n");
            assert(out@ =~= mid + edge_lines(state.edges@, j + 1));
            j = j + 1;
        }
        let ghost tail = out@;
        match &state.links {
            Some(links) => {
                let mut k: usize = 0;
                while k < links.len()
                    invariant
                        k <= links@.len(),
                        out@ == tail + link_lines(links@, k as int),
                    decreases links@.len() - k,
                {
                    let l = &links[k];
                    out.append("  ");
                    out.append(decimal(l.from).as_str());
                    out.append(" -> ");
                    out.append(decimal(l.to).as_str());
                    out.append("[label=\"");
                    out.append(l.var.source.as_str());
                    out.append("\", style=dotted];\n");
                    assert(out@ =~= tail + link_lines(links@, k + 1));
                    k = k + 1;
                }
            },
            None => {
                assert(out@ =~= tail + Seq::<char>::empty());
            },
        }
        out.append("}");
        out
    }
}

impl Analyzer for Dot {
    /// Writes the graph of `state` in the dot language into `data`.
    fn analyze(&mut self, state: &mut State)
        ensures
            final(self).file_path == old(self).file_path,
            final(self).data@ == dot_text(old(state).vertices@, old(state).edges@, match &old(state).links {
                Some(l) => Some(l@),
                None => None,
            }),
            *final(state) == *old(state),
    {
        self.data = Dot::render(state);
    }
}

} // verus!
