//! The index accesses of a statement, each with what it writes and reads.
use std::collections::HashSet;
use vstd::prelude::*;
use crate::ast::AstNode;
use crate::shared::walker::{Walker, Query, NodeTest, test_of, walk_seq, lemma_tree_ok_child};
use crate::shared::dict::Dictionary;
use crate::shared::assignment::{Assignment, AssignmentView, spec_parse_assignments};
use crate::shared::variable::{Variable, VarView, var_set, vars_distinct, spec_parse};
use crate::cfg::splitter::never_test;

verus! {

/// What node `n` writes and reads, each parsed with no node visited yet: its
/// assignments and its variables; `None` where its assignments cannot be parsed.
pub open spec fn spec_access(n: AstNode, keys: Seq<(AstNode, Seq<char>)>, source: Seq<char>, fuel: nat)
    -> Option<(Seq<AssignmentView>, Set<VarView>)>
{
    match spec_parse_assignments(n, keys, Set::empty(), source, fuel) {
        Some((asg, _)) => Some((asg, spec_parse(n, keys, Set::empty(), source, fuel).0)),
        None => None,
    }
}

/// `spec_access` of each node of `ns`, in order; `None` where one of them is `None`.
pub open spec fn spec_accesses(ns: Seq<AstNode>, keys: Seq<(AstNode, Seq<char>)>, source: Seq<char>, fuel: nat)
    -> Option<Seq<(Seq<AssignmentView>, Set<VarView>)>>
    decreases ns.len(),
{
    if ns.len() == 0 {
        Some(seq![])
    } else {
        match (spec_accesses(ns.drop_last(), keys, source, fuel), spec_access(ns.last(), keys, source, fuel)) {
            (Some(a), Some(x)) => Some(a.push(x)),
            _ => None,
        }
    }
}

/// The children of the nodes of `ws`, in order.
pub open spec fn children_of(ws: Seq<AstNode>) -> Seq<AstNode>
    decreases ws.len(),
{
    if ws.len() == 0 {
        seq![]
    } else {
        children_of(ws.drop_last()) + ws.last().children@
    }
}

/// Index access nodes.
pub open spec fn index_access_test() -> NodeTest {
    |n: AstNode, p: Option<AstNode>| n.name@ == "IndexAccess"@
}

/// Function call nodes.
pub open spec fn call_test() -> NodeTest {
    |n: AstNode, p: Option<AstNode>| n.name@ == "FunctionCall"@
}

/// The nodes whose accesses `IndexAccess::parse` reads: the children of each
/// index access below `n` that no function call stands between.
pub open spec fn access_nodes(n: AstNode) -> Seq<AstNode> {
    children_of(walk_seq(n, None, false, call_test(), index_access_test()))
}

/// The assignments and variables of `walker`'s node: see `spec_access`.
pub(crate) fn access_of(walker: &Walker, dict: &Dictionary) -> (r: Option<(Vec<Assignment>, Vec<Variable>)>)
    requires
        walker.tree_wf(),
        dict.wf(),
    ensures
        match r {
            Some((asg, vars)) => vars_distinct(vars@) && spec_access(walker.ast(), dict.keys(), walker.source@,
                dict.entries@.len() as nat) == Some((asg@.map_values(|a: Assignment| a@), var_set(vars@))),
            None => spec_access(walker.ast(), dict.keys(), walker.source@, dict.entries@.len() as nat) is None,
        },
{
    let mut fresh: HashSet<u32> = HashSet::new();
    assert(fresh@ =~= Set::<u32>::empty());
    match Assignment::parse(walker, dict, &mut fresh) {
        Some(assignments) => {
            let mut fresh_vars: HashSet<u32> = HashSet::new();
            assert(fresh_vars@ =~= Set::<u32>::empty());
            let variables = Variable::parse(walker, dict, &mut fresh_vars);
            Some((assignments, variables))
        },
        None => None,
    }
}

/// An index access: the assignments and the variables of one of its parts.
pub struct IndexAccess {
    pub assignments: Vec<Assignment>,
    pub variables: Vec<Variable>,
}

impl View for IndexAccess {
    type V = (Seq<AssignmentView>, Set<VarView>);

    open spec fn view(&self) -> (Seq<AssignmentView>, Set<VarView>) {
        (self.assignments@.map_values(|a: Assignment| a@), var_set(self.variables@))
    }
}

/// The views of `xs`.
pub open spec fn access_views(xs: Seq<IndexAccess>) -> Seq<(Seq<AssignmentView>, Set<VarView>)> {
    xs.map_values(|x: IndexAccess| x@)
}

impl IndexAccess {
    pub fn get_assignments(&self) -> (r: &Vec<Assignment>)
        ensures
            r == &self.assignments,
    {
        &self.assignments
    }

    pub fn get_variables(&self) -> (r: &Vec<Variable>)
        ensures
            r == &self.variables,
    {
        &self.variables
    }

    /// The accesses of each part of each index access below `walker` (not below
    /// a function call): see `access_nodes`; `None` where one cannot be parsed.
    pub fn parse(walker: &Walker, dict: &Dictionary) -> (r: Option<Vec<IndexAccess>>)
        requires
            walker.tree_wf(),
            dict.wf(),
        ensures
            match r {
                Some(v) => spec_accesses(access_nodes(walker.ast()), dict.keys(), walker.source@,
                    dict.entries@.len() as nat) == Some(access_views(v@)),
                None => spec_accesses(access_nodes(walker.ast()), dict.keys(), walker.source@,
                    dict.entries@.len() as nat) is None,
            },
    {
        let fi = Query::Names(vec!["IndexAccess"]);
        let ig = Query::Names(vec!["FunctionCall"]);
        proof {
            reveal_strlit("IndexAccess");
            reveal_strlit("FunctionCall");
            assert(test_of(fi) =~= index_access_test()) by {
                assert forall|a: AstNode, p: Option<AstNode>| #[trigger] test_of(fi)(a, p) == index_access_test()(a, p) by {
                    if a.name@ == "IndexAccess"@ {
                        assert(fi->Names_0@[0]@ == a.name@);
                    }
                }
            }
            assert(test_of(ig) =~= call_test()) by {
                assert forall|a: AstNode, p: Option<AstNode>| #[trigger] test_of(ig)(a, p) == call_test()(a, p) by {
                    if a.name@ == "FunctionCall"@ {
                        assert(ig->Names_0@[0]@ == a.name@);
                    }
                }
            }
        }
        let walkers = walker.walk(false, &ig, &fi);
        let ghost ws = walk_seq(walker.ast(), None, false, call_test(), index_access_test());
        let mut kids: Vec<Walker> = Vec::new();
        let mut i: usize = 0;
        while i < walkers.len()
            invariant
                ws == walk_seq(walker.ast(), None, false, call_test(), index_access_test()),
                walkers@.len() == ws.len(),
                forall|x: int| 0 <= x < walkers@.len() ==> (#[trigger] walkers@[x]).reads(ws[x], walker.source),
                forall|x: int| 0 <= x < walkers@.len() ==> (#[trigger] walkers@[x]).tree_wf(),
                i <= walkers@.len(),
                reads_trees(kids@, children_of(ws.subrange(0, i as int)), walker.source),
            decreases walkers@.len() - i,
        {
            let w = walkers[i];
            let mut more = child_walkers(&w);
            let ghost before = kids@;
            let ghost more_v = more@;
            proof {
                assert(ws.subrange(0, i + 1).drop_last() =~= ws.subrange(0, i as int));
            }
            kids.append(&mut more);
            proof {
                assert(kids@ =~= before + more_v);
                lemma_reads_trees_concat(before, children_of(ws.subrange(0, i as int)), more_v, ws[i as int].children@,
                    walker.source);
            }
            i = i + 1;
        }
        proof {
            assert(ws.subrange(0, ws.len() as int) =~= ws);
            assert(kids@.map_values(|w: Walker| w.ast()) =~= access_nodes(walker.ast()));
        }
        match accesses_of(&kids, dict, Ghost(walker.source@)) {
            Some(pairs) => Some(accesses_from(pairs)),
            None => None,
        }
    }

    /// What the node of `walker` writes and reads: see `spec_access`.
    pub fn parse_one(walker: &Walker, dict: &Dictionary) -> (r: Option<IndexAccess>)
        requires
            walker.tree_wf(),
            dict.wf(),
        ensures
            match r {
                Some(a) => vars_distinct(a.variables@) && spec_access(walker.ast(), dict.keys(), walker.source@,
                    dict.entries@.len() as nat) == Some(a@),
                None => spec_access(walker.ast(), dict.keys(), walker.source@, dict.entries@.len() as nat) is None,
            },
    {
        match access_of(walker, dict) {
            Some((assignments, variables)) => Some(IndexAccess { assignments, variables }),
            None => None,
        }
    }
}

/// Each walker of `ws` reads the node of `ns` at its place against `source`,
/// with the tree below it.
pub open spec fn reads_trees(ws: Seq<Walker>, ns: Seq<AstNode>, source: &str) -> bool {
    &&& ws.len() == ns.len()
    &&& forall|i: int| 0 <= i < ws.len() ==> (#[trigger] ws[i]).reads(ns[i], source) && ws[i].tree_wf()
}

pub proof fn lemma_reads_trees_concat(a: Seq<Walker>, na: Seq<AstNode>, b: Seq<Walker>, nb: Seq<AstNode>, source: &str)
    requires
        reads_trees(a, na, source),
        b.len() == nb.len(),
        forall|i: int| 0 <= i < b.len() ==> (#[trigger] b[i]).reads(nb[i], source) && b[i].tree_wf(),
    ensures
        reads_trees(a + b, na + nb, source),
{
    assert forall|i: int| 0 <= i < (a + b).len() implies (#[trigger] (a + b)[i]).reads((na + nb)[i], source)
        && (a + b)[i].tree_wf() by {
        if i >= a.len() {
            assert((a + b)[i] == b[i - a.len()]);
            assert((na + nb)[i] == nb[i - a.len()]);
        }
    }
}

/// A walker for each child of the node of `w`, in order.
pub(crate) fn child_walkers<'a>(w: &Walker<'a>) -> (r: Vec<Walker<'a>>)
    requires
        w.tree_wf(),
    ensures
        reads_trees(r@, w.ast().children@, w.source),
{
    proof { Walker::lemma_wf_fields(*w); }
    let mut out: Vec<Walker<'a>> = Vec::new();
    let mut k: usize = 0;
    while k < w.node.children.len()
        invariant
            w.tree_wf(),
            w.node.children@ == w.ast().children@,
            k <= w.ast().children@.len(),
            reads_trees(out@, w.ast().children@.subrange(0, k as int), w.source),
        decreases w.ast().children@.len() - k,
    {
        proof { lemma_tree_ok_child(w.ast(), w.source@, k as int); }
        let c = Walker::new(&w.node.children[k], w.source);
        out.push(c);
        proof {
            assert(w.ast().children@.subrange(0, k + 1) =~= w.ast().children@.subrange(0, k as int).push(
                w.ast().children@[k as int]));
        }
        k = k + 1;
    }
    proof {
        assert(w.ast().children@.subrange(0, w.ast().children@.len() as int) =~= w.ast().children@);
    }
    out
}

/// The view of what `access_of` gives back.
pub open spec fn pair_view(p: (Vec<Assignment>, Vec<Variable>)) -> (Seq<AssignmentView>, Set<VarView>) {
    (p.0@.map_values(|a: Assignment| a@), var_set(p.1@))
}

/// Where the accesses of the first `k` nodes of `ns` are `None`, so are those of `ns`.
pub proof fn lemma_accesses_prefix_none(ns: Seq<AstNode>, k: int, keys: Seq<(AstNode, Seq<char>)>, source: Seq<char>,
    fuel: nat)
    requires
        0 <= k <= ns.len(),
        spec_accesses(ns.subrange(0, k), keys, source, fuel) is None,
    ensures
        spec_accesses(ns, keys, source, fuel) is None,
    decreases ns.len() - k,
{
    if k < ns.len() {
        assert(ns.subrange(0, k + 1).drop_last() =~= ns.subrange(0, k));
        lemma_accesses_prefix_none(ns, k + 1, keys, source, fuel);
    } else {
        assert(ns.subrange(0, k) =~= ns);
    }
}

/// The accesses of the nodes of `ws`, all read against `source`: see
/// `spec_accesses`.
pub(crate) fn accesses_of(ws: &Vec<Walker>, dict: &Dictionary, Ghost(source): Ghost<Seq<char>>)
    -> (r: Option<Vec<(Vec<Assignment>, Vec<Variable>)>>)
    requires
        dict.wf(),
        forall|i: int| 0 <= i < ws@.len() ==> (#[trigger] ws@[i]).tree_wf() && ws@[i].source@ == source,
    ensures
        match r {
            Some(v) => spec_accesses(ws@.map_values(|w: Walker| w.ast()), dict.keys(), source,
                dict.entries@.len() as nat) == Some(v@.map_values(|p: (Vec<Assignment>, Vec<Variable>)| pair_view(p)))
                && forall|i: int| 0 <= i < v@.len() ==> vars_distinct((#[trigger] v@[i]).1@),
            None => spec_accesses(ws@.map_values(|w: Walker| w.ast()), dict.keys(), source,
                dict.entries@.len() as nat) is None,
        },
{
    let ghost ns = ws@.map_values(|w: Walker| w.ast());
    let ghost keys = dict.keys();
    let ghost fuel = dict.entries@.len() as nat;
    let mut out: Vec<(Vec<Assignment>, Vec<Variable>)> = Vec::new();
    let mut k: usize = 0;
    while k < ws.len()
        invariant
            dict.wf(),
            keys == dict.keys(),
            fuel == dict.entries@.len() as nat,
            ns == ws@.map_values(|w: Walker| w.ast()),
            forall|i: int| 0 <= i < ws@.len() ==> (#[trigger] ws@[i]).tree_wf() && ws@[i].source@ == source,
            k <= ws@.len(),
            spec_accesses(ns.subrange(0, k as int), keys, source, fuel)
                == Some(out@.map_values(|p: (Vec<Assignment>, Vec<Variable>)| pair_view(p))),
            forall|i: int| 0 <= i < out@.len() ==> vars_distinct((#[trigger] out@[i]).1@),
        decreases ws@.len() - k,
    {
        proof {
            assert(ns.subrange(0, k + 1).drop_last() =~= ns.subrange(0, k as int));
            assert(ns.subrange(0, k + 1).last() == ws@[k as int].ast());
        }
        match access_of(&ws[k], dict) {
            Some(p) => {
                let ghost prev = out@;
                out.push(p);
                assert(out@.map_values(|p: (Vec<Assignment>, Vec<Variable>)| pair_view(p)) =~= prev.map_values(
                    |p: (Vec<Assignment>, Vec<Variable>)| pair_view(p)).push(pair_view(out@.last())));
            },
            None => {
                proof { lemma_accesses_prefix_none(ns, k + 1, keys, source, fuel); }
                return None;
            },
        }
        k = k + 1;
    }
    proof {
        assert(ns.subrange(0, ns.len() as int) =~= ns);
    }
    Some(out)
}

/// The index accesses holding the pairs of `pairs`, in order.
fn accesses_from(pairs: Vec<(Vec<Assignment>, Vec<Variable>)>) -> (r: Vec<IndexAccess>)
    ensures
        access_views(r@) == pairs@.map_values(|p: (Vec<Assignment>, Vec<Variable>)| pair_view(p)),
{
    let ghost all = pairs@.map_values(|p: (Vec<Assignment>, Vec<Variable>)| pair_view(p));
    let mut out: Vec<IndexAccess> = Vec::new();
    let mut rest = pairs;
    while rest.len() > 0
        invariant
            access_views(out@) + rest@.map_values(|p: (Vec<Assignment>, Vec<Variable>)| pair_view(p)) == all,
        decreases rest@.len(),
    {
        let ghost before = rest@;
        let (assignments, variables) = rest.remove(0);
        proof {
            assert(before =~= seq![before[0]] + rest@);
            assert(before.map_values(|p: (Vec<Assignment>, Vec<Variable>)| pair_view(p)) =~= seq![pair_view(before[0])]
                + rest@.map_values(|p: (Vec<Assignment>, Vec<Variable>)| pair_view(p)));
        }
        let ghost prev = out@;
        out.push(IndexAccess { assignments, variables });
        proof {
            assert(access_views(out@) =~= access_views(prev).push(pair_view(before[0])));
        }
    }
    proof {
        assert(access_views(out@) =~= all);
    }
    out
}

} // verus!
