//! Running the analyzers of a graph one after the other.
use vstd::prelude::*;
use crate::dfg::action::ActionView;
use crate::dfg::link::{DataLink, link_set, links_distinct};
use crate::dfg::flow::{KillMode, actions_fit, links_of, vertex_ids};
use crate::analyzer::analyzer::{Analyzer, State};
use crate::analyzer::flow::{DataFlowGraph, STOP};
use crate::analyzer::dot::{Dot, dot_text};

verus! {

/// An analyzer to run on a graph.
pub enum Handler {
    DataFlow(DataFlowGraph),
    Dot(Dot),
}

/// Links as plain values.
pub open spec fn links_view(l: Option<Vec<DataLink>>) -> Option<Seq<DataLink>> {
    match l {
        Some(v) => Some(v@),
        None => None,
    }
}

/// `links` are what the data flow analyzer finds in `state`: see
/// `DataFlowGraph::analyze`.
pub open spec fn flow_links(state: State, links: Option<Vec<DataLink>>) -> bool {
    exists|acts: Seq<Option<Seq<ActionView>>>| #![trigger links_of(STOP, vertex_ids(state.vertices@), acts, state.edges@, KillMode::NodeKills, u64::MAX as nat)] {
        &&& acts.len() == state.vertices@.len()
        &&& forall|i: int| 0 <= i < acts.len() ==> actions_fit(state.vertices@[i].shape, state.vertices@[i].id,
            state.dict.keys(), state.dict.entries@.len() as nat, KillMode::NodeKills, #[trigger] acts[i])
        &&& {
            let res = links_of(STOP, vertex_ids(state.vertices@), acts, state.edges@, KillMode::NodeKills,
                u64::MAX as nat);
            &&& links is Some == res is Some
            &&& links matches Some(ls) ==> links_distinct(ls@) && res == Some(link_set(ls@))
        }
    }
}

/// What running `h` did, where the links of the state went from `before` to
/// `after`: the data flow analyzer found `after`; the dot analyzer left the
/// links as they were and wrote the text of the graph with them.
pub open spec fn handler_ran(state: State, h: Handler, h2: Handler, before: Option<Vec<DataLink>>,
    after: Option<Vec<DataLink>>) -> bool
{
    match h {
        Handler::DataFlow(_) => h2 is DataFlow && flow_links(state, after),
        Handler::Dot(d) => match h2 {
            Handler::Dot(d2) => {
                &&& after == before
                &&& d2.file_path == d.file_path
                &&& d2.data@ == dot_text(state.vertices@, state.edges@, links_view(before))
            },
            _ => false,
        },
    }
}

/// Runs each of `handlers` on `state`, in order; only the links of the state
/// change, as each data flow analyzer finds them anew.
pub fn run_analyzers(state: &mut State, handlers: &mut Vec<Handler>)
    requires
        old(state).dict.wf(),
    ensures
        final(state).stop == old(state).stop,
        final(state).edges == old(state).edges,
        final(state).vertices == old(state).vertices,
        final(state).dict == old(state).dict,
        final(handlers)@.len() == old(handlers)@.len(),
        exists|ls: Seq<Option<Vec<DataLink>>>| {
            &&& ls.len() == old(handlers)@.len() + 1
            &&& ls[0] == old(state).links
            &&& ls.last() == final(state).links
            &&& forall|j: int| 0 <= j < old(handlers)@.len() ==> handler_ran(*old(state), #[trigger] old(handlers)@[j],
                final(handlers)@[j], ls[j], ls[j + 1])
        },
{
    let ghost s0 = *state;
    let ghost hs0 = handlers@;
    let ghost mut ls: Seq<Option<Vec<DataLink>>> = seq![s0.links];
    let mut i: usize = 0;
    while i < handlers.len()
        invariant
            s0.dict.wf(),
            state.stop == s0.stop,
            state.edges == s0.edges,
            state.vertices == s0.vertices,
            state.dict == s0.dict,
            handlers@.len() == hs0.len(),
            i <= hs0.len(),
            ls.len() == i + 1,
            ls[0] == s0.links,
            ls.last() == state.links,
            forall|j: int| 0 <= j < i ==> handler_ran(s0, #[trigger] hs0[j], handlers@[j], ls[j], ls[j + 1]),
            forall|j: int| i <= j < hs0.len() ==> handlers@[j] == hs0[j],
        decreases hs0.len() - i,
    {
        let h = handlers.remove(i);
        let ghost before = state.links;
        let h2 = match h {
            Handler::DataFlow(mut f) => {
                f.analyze(state);
                Handler::DataFlow(f)
            },
            Handler::Dot(mut d) => {
                d.analyze(state);
                Handler::Dot(d)
            },
        };
        proof {
            ls = ls.push(state.links);
            assert(handler_ran(s0, hs0[i as int], h2, ls[i as int], ls[i + 1]));
        }
        handlers.insert(i, h2);
        i = i + 1;
    }
}

} // verus!
