//! The data flow analyzer: finds the data links and stores them in the state.
use vstd::prelude::*;
use crate::shared::dict::Dictionary;
use crate::shared::variable::Variable;
use crate::shared::assignment::Assignment;
use crate::dfg::action::ActionView;
use crate::dfg::link::{link_set, links_distinct};
use crate::dfg::flow::{KillMode, actions_fit, links_of, vertex_ids, vertex_links, find_variables, find_parameters,
    find_assignments, variables_found, parameters_found, assignments_found};
use crate::analyzer::analyzer::{Analyzer, State};

pub use crate::dfg::action::Action;
pub use crate::dfg::link::DataLink;

verus! {

/// The exit vertex that the analyzer starts from.
pub const STOP: u32 = 1000000;

/// Data flow analyzer
pub struct DataFlowGraph {}

impl DataFlowGraph {
    pub fn new() -> (r: Self)
        ensures
            r == (DataFlowGraph {}),
    {
        DataFlowGraph {}
    }

    /// The assignments of node `id`: see `dfg::flow::find_assignments`.
    pub fn find_assignments(&self, id: u32, dict: &Dictionary) -> (r: Option<Vec<Assignment>>)
        requires
            dict.wf(),
        ensures
            assignments_found(dict.keys(), dict.entries@.len() as nat, id, r),
    {
        find_assignments(id, dict)
    }

    /// The variables of node `id`: see `dfg::flow::find_variables`.
    pub fn find_variables(&self, id: u32, dict: &Dictionary) -> (r: Option<Vec<Variable>>)
        requires
            dict.wf(),
        ensures
            variables_found(dict.keys(), dict.entries@.len() as nat, id, r),
    {
        find_variables(id, dict)
    }

    /// The variables of the arguments of the call `id`: see `dfg::flow::find_parameters`.
    pub fn find_parameters(&self, id: u32, dict: &Dictionary) -> (r: Option<Vec<Variable>>)
        requires
            dict.wf(),
        ensures
            parameters_found(dict.keys(), dict.entries@.len() as nat, id, r),
    {
        find_parameters(id, dict)
    }
}

impl Analyzer for DataFlowGraph {
    /// Finds the data links, the kills of each vertex applied at the positions
    /// they were added at, from the exit `STOP`; `None` where the propagation
    /// fails (see `dfg::flow::flow_step`) or takes more than `u64::MAX` steps.
    fn analyze(&mut self, state: &mut State)
        ensures
            final(state).stop == old(state).stop,
            final(state).edges == old(state).edges,
            final(state).vertices == old(state).vertices,
            final(state).dict == old(state).dict,
            exists|acts: Seq<Option<Seq<ActionView>>>| #![trigger links_of(STOP, vertex_ids(old(state).vertices@), acts, old(state).edges@, KillMode::NodeKills, u64::MAX as nat)] {
                &&& acts.len() == old(state).vertices@.len()
                &&& forall|i: int| 0 <= i < acts.len() ==> actions_fit(old(state).vertices@[i].shape,
                    old(state).vertices@[i].id, old(state).dict.keys(), old(state).dict.entries@.len() as nat,
                    KillMode::NodeKills, #[trigger] acts[i])
                &&& {
                    let res = links_of(STOP, vertex_ids(old(state).vertices@), acts, old(state).edges@,
                        KillMode::NodeKills, u64::MAX as nat);
                    &&& final(state).links is Some == res is Some
                    &&& final(state).links matches Some(ls) ==> links_distinct(ls@) && res == Some(link_set(ls@))
                }
            },
    {
        let links = vertex_links(state.vertices, state.edges, state.dict, STOP, KillMode::NodeKills);
        state.links = links;
    }
}

} // verus!
