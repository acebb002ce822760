//! The assignments and variables that a statement is read into.
use vstd::prelude::*;
use crate::ast::AstNode;
use crate::shared::walker::{Walker, Query, NodeTest, test_of, walk_seq, text_of};
use crate::shared::dict::Dictionary;
use crate::shared::access::{call_test, child_walkers, reads_trees};
use crate::shared::dfg::assignment::{Assignment, DAsgView, dasg_views};
use crate::shared::dfg::variable::{Variable, DVarView, dvar_views};
use crate::shared::dfg::common::{Member, MemberView, Operator};
use crate::cfg::splitter::never_test;
use crate::text::{decimal, decimal_of, owned, str_eq};

verus! {

/// Fake node
///
/// A function call read as the assignment of its result to a fake global
/// variable named after the call, so that nested calls chain through it:
/// ```javascript
/// this.add(10, this.add(x, this.add(y, 0)))
/// ```
/// is read as
/// ```javascript
/// fake_100 = this.add(y, 0);
/// fake_101 = this.add(x, fake_100);
/// fake_102 = this.add(10, fake_101);
/// ```
/// where 100, 101 and 102 are the ids of the calls, so that each fake variable
/// is unique. A fake variable is a global variable; it has no kind and is
/// flattened from nothing.
pub struct FakeNode {
    pub assignments: Vec<Assignment>,
    pub variables: Vec<Variable>,
}

/// A fake node as plain values: its assignments and its variables.
pub type FakeView = (Seq<DAsgView>, Seq<DVarView>);

impl View for FakeNode {
    type V = FakeView;

    open spec fn view(&self) -> FakeView {
        (dasg_views(self.assignments@), dvar_views(self.variables@))
    }
}

/// The name of the fake variable of the call `n`.
pub open spec fn fake_name(n: AstNode) -> Seq<char> {
    "fake_"@ + decimal_of(n.id as nat)
}

/// The fake variable of the call `n`, read against `source`: the global named
/// after the call, with the source `fake_<id> = <source of the call>`.
pub open spec fn fake_var(n: AstNode, source: Seq<char>) -> DVarView {
    (seq![MemberView::Global(fake_name(n))], fake_name(n) + " = "@ + text_of(n, source), seq![], seq![])
}

/// What `FakeNode::parse_one` makes of the call `n`: the assignment of the
/// fake variable, or its use.
pub open spec fn fake_view(n: AstNode, source: Seq<char>, is_assignment: bool) -> FakeView {
    if is_assignment {
        (seq![(seq![fake_var(n, source)], seq![], Operator::Equal)], seq![])
    } else {
        (seq![], seq![fake_var(n, source)])
    }
}

/// The outermost calls within the first `k` children of `n`, each child walked
/// on its own, one after the other.
pub open spec fn kids_calls(n: AstNode, k: int) -> Seq<AstNode>
    decreases k,
{
    if k <= 0 || k > n.children@.len() {
        seq![]
    } else {
        kids_calls(n, k - 1) + walk_seq(n.children@[k - 1], None, true, never_test(), call_test())
    }
}

/// The calls that `FakeNode::parse` reads as uses: within the arguments (and
/// callee) of a call, else within the node itself; outermost calls only.
pub open spec fn fake_candidates(n: AstNode) -> Seq<AstNode> {
    if n.name@ == "FunctionCall"@ {
        kids_calls(n, n.children@.len() as int)
    } else {
        walk_seq(n, None, true, never_test(), call_test())
    }
}

/// What `FakeNode::parse` makes of `n`: the assignment of the fake variable of
/// `n` when it is a call, then a use for each candidate.
pub open spec fn fake_nodes(n: AstNode, source: Seq<char>) -> Seq<FakeView> {
    (if n.name@ == "FunctionCall"@ { seq![fake_view(n, source, true)] } else { seq![] })
        + fake_candidates(n).map_values(|c: AstNode| fake_view(c, source, false))
}

/// The views of fake nodes.
pub open spec fn fake_views(fs: Seq<FakeNode>) -> Seq<FakeView> {
    fs.map_values(|f: FakeNode| f@)
}

impl FakeNode {
    pub fn get_assignments(&self) -> (r: &Vec<Assignment>)
        ensures
            r@ == self.assignments@,
    {
        &self.assignments
    }

    pub fn get_variables(&self) -> (r: &Vec<Variable>)
        ensures
            r@ == self.variables@,
    {
        &self.variables
    }

    /// The calls of the statement of `walker` as fake nodes: see `fake_nodes`.
    pub fn parse(walker: &Walker, _dict: &Dictionary) -> (r: Vec<FakeNode>)
        requires
            walker.tree_wf(),
        ensures
            fake_views(r@) == fake_nodes(walker.ast(), walker.source@),
    {
        let ghost n = walker.ast();
        let ghost src = walker.source@;
        let ig = Query::Never;
        let fi = Query::Names(vec!["FunctionCall"]);
        proof {
            reveal_strlit("FunctionCall");
            assert(test_of(fi) =~= call_test()) by {
                assert forall|a: AstNode, p: Option<AstNode>| #[trigger] test_of(fi)(a, p) == call_test()(a, p) by {
                    if a.name@ == "FunctionCall"@ {
                        assert(fi->Names_0@[0]@ == a.name@);
                    }
                }
            }
            assert(test_of(ig) =~= never_test());
            Walker::lemma_wf_fields(*walker);
        }
        let mut ret: Vec<FakeNode> = Vec::new();
        let mut candidates: Vec<Walker> = Vec::new();
        if str_eq(walker.node.name, "FunctionCall") {
            let kids = child_walkers(walker);
            let mut k: usize = 0;
            while k < kids.len()
                invariant
                    n == walker.ast(),
                    src == walker.source@,
                    test_of(fi) == call_test(),
                    test_of(ig) == never_test(),
                    reads_trees(kids@, n.children@, walker.source),
                    k <= kids@.len(),
                    candidates@.map_values(|w: Walker| w.ast()) == kids_calls(n, k as int),
                    forall|x: int| 0 <= x < candidates@.len() ==> (#[trigger] candidates@[x]).wf()
                        && candidates@[x].source == walker.source,
                decreases kids@.len() - k,
            {
                let mut found = kids[k].walk(true, &ig, &fi);
                let ghost before = candidates@;
                let ghost fv = found@;
                candidates.append(&mut found);
                proof {
                    assert(candidates@ == before + fv);
                    assert(candidates@.map_values(|w: Walker| w.ast()) =~= before.map_values(|w: Walker| w.ast())
                        + fv.map_values(|w: Walker| w.ast()));
                    assert(fv.map_values(|w: Walker| w.ast()) =~= walk_seq(n.children@[k as int], None, true,
                        never_test(), call_test()));
                    assert forall|x: int| 0 <= x < candidates@.len() implies (#[trigger] candidates@[x]).wf()
                        && candidates@[x].source == walker.source by {
                        if x >= before.len() {
                            assert(candidates@[x] == fv[x - before.len()]);
                        }
                    }
                }
                k = k + 1;
            }
            ret.push(FakeNode::parse_one(walker, true));
        } else {
            candidates = walker.walk(true, &ig, &fi);
            proof {
                assert(candidates@.map_values(|w: Walker| w.ast()) =~= walk_seq(n, None, true, never_test(), call_test()));
            }
        }
        let ghost head = fake_views(ret@);
        assert(head =~= (if n.name@ == "FunctionCall"@ { seq![fake_view(n, src, true)] } else { seq![] }));
        let ghost cands = fake_candidates(n);
        assert(candidates@.map_values(|w: Walker| w.ast()) == cands);
        let mut i: usize = 0;
        while i < candidates.len()
            invariant
                src == walker.source@,
                i <= candidates@.len(),
                candidates@.map_values(|w: Walker| w.ast()) == cands,
                forall|x: int| 0 <= x < candidates@.len() ==> (#[trigger] candidates@[x]).wf()
                    && candidates@[x].source == walker.source,
                fake_views(ret@) == head + cands.take(i as int).map_values(|c: AstNode| fake_view(c, src, false)),
            decreases candidates@.len() - i,
        {
            let c = &candidates[i];
            assert(cands[i as int] == c.ast());
            let f = FakeNode::parse_one(c, false);
            let ghost before = ret@;
            ret.push(f);
            proof {
                assert(fake_views(ret@) =~= fake_views(before).push(fake_view(cands[i as int], src, false)));
                assert(cands.take(i + 1).map_values(|c: AstNode| fake_view(c, src, false)) =~= cands.take(
                    i as int).map_values(|c: AstNode| fake_view(c, src, false)).push(fake_view(cands[i as int], src, false)));
            }
            i = i + 1;
        }
        proof {
            assert(cands.take(cands.len() as int) =~= cands);
        }
        ret
    }

    /// The call of `walker` as a fake node: the assignment of its fake variable
    /// when `is_assignment`, else the use of it.
    pub fn parse_one(walker: &Walker, is_assignment: bool) -> (r: FakeNode)
        requires
            walker.wf(),
        ensures
            r@ == fake_view(walker.ast(), walker.source@, is_assignment),
    {
        proof { Walker::lemma_wf_fields(*walker); }
        let mut name = owned("fake_");
        let id = decimal(walker.node.id);
        name.append(id.as_str());
        let mut source = owned(name.as_str());
        source.append(" = ");
        source.append(walker.node.source);
        proof {
            reveal_strlit("fake_");
            reveal_strlit(" = ");
        }
        let ghost name_v = name@;
        let members = vec![Member::Global(name)];
        assert(members@ =~= seq![members@[0]]);
        assert(crate::shared::dfg::common::member_views(members@) =~= seq![MemberView::Global(name_v)]);
        let variable = Variable::new(members, source, String::new(), String::new());
        proof {
            assert(dvar_views(seq![variable]) =~= seq![fake_var(walker.ast(), walker.source@)]);
        }
        if is_assignment {
            let assignment = Assignment::new(vec![variable], Vec::new(), Operator::Equal);
            let r = FakeNode { variables: Vec::new(), assignments: vec![assignment] };
            proof {
                assert(r.assignments@ =~= seq![assignment]);
                assert(assignment.lhs@ =~= seq![variable]);
                assert(dvar_views(assignment.rhs@) =~= Seq::<DVarView>::empty());
                assert(dvar_views(r.variables@) =~= Seq::<DVarView>::empty());
                assert(dasg_views(r.assignments@) =~= seq![(seq![fake_var(walker.ast(), walker.source@)],
                    Seq::<DVarView>::empty(), Operator::Equal)]);
            }
            r
        } else {
            let r = FakeNode { variables: vec![variable], assignments: Vec::new() };
            proof {
                assert(r.variables@ =~= seq![variable]);
                assert(dasg_views(r.assignments@) =~= Seq::<DAsgView>::empty());
            }
            r
        }
    }
}

} // verus!
