//! The arguments of a function call, each with what it writes and reads.
use vstd::prelude::*;
use crate::ast::AstNode;
use crate::shared::walker::Walker;
use crate::shared::dict::Dictionary;
use crate::shared::assignment::{Assignment, AssignmentView};
use crate::shared::variable::{Variable, VarView, var_set, vars_distinct};
use crate::shared::access::{spec_access, spec_accesses, access_of, accesses_of, child_walkers, pair_view};
use crate::text::str_eq;

verus! {

/// The nodes whose accesses `Parameter::parse` reads: the children of a
/// function call (the callee first), none for any other node.
pub open spec fn parameter_nodes(n: AstNode) -> Seq<AstNode> {
    if n.name@ == "FunctionCall"@ {
        n.children@
    } else {
        seq![]
    }
}

/// A part of a function call: its assignments and its variables.
pub struct Parameter {
    pub assignments: Vec<Assignment>,
    pub variables: Vec<Variable>,
}

impl View for Parameter {
    type V = (Seq<AssignmentView>, Set<VarView>);

    open spec fn view(&self) -> (Seq<AssignmentView>, Set<VarView>) {
        (self.assignments@.map_values(|a: Assignment| a@), var_set(self.variables@))
    }
}

/// The views of `xs`.
pub open spec fn parameter_views(xs: Seq<Parameter>) -> Seq<(Seq<AssignmentView>, Set<VarView>)> {
    xs.map_values(|x: Parameter| x@)
}

impl Parameter {
    pub fn get_assignments(&self) -> (r: &Vec<Assignment>)
        ensures
            r == &self.assignments,
    {
        &self.assignments
    }

    pub fn get_variables(&self) -> (r: &Vec<Variable>)
        ensures
            r == &self.variables,
    {
        &self.variables
    }

    /// The accesses of each part of the function call of `walker`: see
    /// `parameter_nodes`; `None` where one cannot be parsed.
    pub fn parse(walker: &Walker, dict: &Dictionary) -> (r: Option<Vec<Parameter>>)
        requires
            walker.tree_wf(),
            dict.wf(),
        ensures
            match r {
                Some(v) => spec_accesses(parameter_nodes(walker.ast()), dict.keys(), walker.source@,
                    dict.entries@.len() as nat) == Some(parameter_views(v@)),
                None => spec_accesses(parameter_nodes(walker.ast()), dict.keys(), walker.source@,
                    dict.entries@.len() as nat) is None,
            },
    {
        proof {
            Walker::lemma_wf_fields(*walker);
            reveal_strlit("FunctionCall");
        }
        if !str_eq(walker.node.name, "FunctionCall") {
            let none: Vec<Parameter> = Vec::new();
            assert(parameter_views(none@) =~= seq![]);
            return Some(none);
        }
        let kids = child_walkers(walker);
        proof {
            assert(kids@.map_values(|w: Walker| w.ast()) =~= parameter_nodes(walker.ast()));
        }
        match accesses_of(&kids, dict, Ghost(walker.source@)) {
            Some(pairs) => Some(parameters_from(pairs)),
            None => None,
        }
    }

    /// What the node of `walker` writes and reads: see `spec_access`.
    pub fn parse_one(walker: &Walker, dict: &Dictionary) -> (r: Option<Parameter>)
        requires
            walker.tree_wf(),
            dict.wf(),
        ensures
            match r {
                Some(a) => vars_distinct(a.variables@) && spec_access(walker.ast(), dict.keys(), walker.source@,
                    dict.entries@.len() as nat) == Some(a@),
                None => spec_access(walker.ast(), dict.keys(), walker.source@, dict.entries@.len() as nat) is None,
            },
    {
        match access_of(walker, dict) {
            Some((assignments, variables)) => Some(Parameter { assignments, variables }),
            None => None,
        }
    }
}

/// The parameters holding the pairs of `pairs`, in order.
fn parameters_from(pairs: Vec<(Vec<Assignment>, Vec<Variable>)>) -> (r: Vec<Parameter>)
    ensures
        parameter_views(r@) == pairs@.map_values(|p: (Vec<Assignment>, Vec<Variable>)| pair_view(p)),
{
    let ghost all = pairs@.map_values(|p: (Vec<Assignment>, Vec<Variable>)| pair_view(p));
    let mut out: Vec<Parameter> = Vec::new();
    let mut rest = pairs;
    while rest.len() > 0
        invariant
            parameter_views(out@) + rest@.map_values(|p: (Vec<Assignment>, Vec<Variable>)| pair_view(p)) == all,
        decreases rest@.len(),
    {
        let ghost before = rest@;
        let (assignments, variables) = rest.remove(0);
        proof {
            assert(before =~= seq![before[0]] + rest@);
            assert(before.map_values(|p: (Vec<Assignment>, Vec<Variable>)| pair_view(p)) =~= seq![pair_view(before[0])]
                + rest@.map_values(|p: (Vec<Assignment>, Vec<Variable>)| pair_view(p)));
        }
        let ghost prev = out@;
        out.push(Parameter { assignments, variables });
        proof {
            assert(parameter_views(out@) =~= parameter_views(prev).push(pair_view(before[0])));
        }
    }
    proof {
        assert(parameter_views(out@) =~= all);
    }
    out
}

} // verus!
