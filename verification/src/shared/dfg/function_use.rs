//! The assignments and variables that a statement is read into.
use vstd::prelude::*;
use crate::ast::{AstNode, attr_u32_of, attr_u32};
use crate::shared::walker::{Walker, Query, test_of, walk_seq, text_of, reads_all, tree_ok, lemma_tree_ok_child};
use crate::shared::dict::{Dictionary, entry_of};
use crate::shared::access::call_test;
use crate::shared::dfg::assignment::{Assignment, DAsgView, dasg_views};
use crate::shared::dfg::variable::{Variable, DVarView, dvar_views};
use crate::shared::dfg::common::{Member, MemberView, member_views, Operator};
use crate::shared::dfg::utils::{normalize_kind, spec_kind, dvar_insert};
use crate::shared::dfg::index_use::lemma_take_map_set;
use crate::cfg::splitter::never_test;
use crate::text::{str_eq, owned};

verus! {

/// The use of the result of a function call
pub struct FunctionUse {
    pub assignments: Vec<Assignment>,
    pub variables: Vec<Variable>,
}

impl FunctionUse {
    pub fn get_assignments(&self) -> (r: &Vec<Assignment>)
        ensures
            r@ == self.assignments@,
    {
        &self.assignments
    }

    pub fn get_variables(&self) -> (r: &Vec<Variable>)
        ensures
            r@ == self.variables@,
    {
        &self.variables
    }
}

/// The first return parameter of the function that the call `n` calls: the
/// callee (first child of `n`) refers to a declaration whose second child is
/// a parameter list with at least one entry; `None` where any step fails.
pub open spec fn returned_param(n: AstNode, keys: Seq<(AstNode, Seq<char>)>) -> Option<(AstNode, Seq<char>)> {
    if n.children@.len() == 0 {
        None
    } else {
        match attr_u32_of(n.children@[0].attributes@, "referencedDeclaration"@) {
            None => None,
            Some(r) => match entry_of(keys, r) {
                None => None,
                Some((d, dsrc)) => {
                    if d.children@.len() > 1 && d.children@[1].name@ == "ParameterList"@
                        && d.children@[1].children@.len() > 0 {
                        Some((d.children@[1].children@[0], dsrc))
                    } else {
                        None
                    }
                },
            },
        }
    }
}

/// The variable that the call `n`, read against `source`, stands for: the
/// first return parameter of the function called, where there is one (see
/// `returned_param`), with its kind; else the call itself, with its own kind.
/// Its source is that of the call either way.
pub open spec fn function_use_var(n: AstNode, source: Seq<char>, keys: Seq<(AstNode, Seq<char>)>) -> DVarView {
    match returned_param(n, keys) {
        Some((p, _)) => (seq![MemberView::Reference(p.id)], text_of(n, source), spec_kind(p), seq![]),
        None => (seq![MemberView::Reference(n.id)], text_of(n, source), spec_kind(n), seq![]),
    }
}

/// What `FunctionUse::parse` reads from `n`: a call is the assignment of its
/// variable; any other node uses the variable of each outermost call within it.
pub open spec fn spec_function_use(n: AstNode, source: Seq<char>, keys: Seq<(AstNode, Seq<char>)>)
    -> (Seq<DAsgView>, Set<DVarView>)
{
    if n.name@ == "FunctionCall"@ {
        (seq![(seq![function_use_var(n, source, keys)], seq![], Operator::Equal)], Set::empty())
    } else {
        (seq![], walk_seq(n, None, true, never_test(), call_test()).map_values(
            |w: AstNode| function_use_var(w, source, keys)).to_set())
    }
}

impl FunctionUse {
    /// The variable that the call of `walker` stands for: see `function_use_var`.
    pub fn to_var(walker: &Walker, dict: &Dictionary) -> (r: Variable)
        requires
            walker.tree_wf(),
            dict.wf(),
        ensures
            r@ == function_use_var(walker.ast(), walker.source@, dict.keys()),
    {
        proof {
            Walker::lemma_wf_fields(*walker);
            reveal_strlit("referencedDeclaration");
            reveal_strlit("ParameterList");
        }
        let ghost n = walker.ast();
        let param = if walker.node.children.len() > 0 {
            match attr_u32(&walker.node.children[0].attributes, "referencedDeclaration") {
                Some(reference) => match dict.walker_at(reference) {
                    Some(decl) => {
                        proof { Walker::lemma_wf_fields(*decl); }
                        if decl.node.children.len() > 1 && str_eq(decl.node.children[1].name.as_str(), "ParameterList")
                            && decl.node.children[1].children.len() > 0 {
                            proof {
                                lemma_tree_ok_child(decl.ast(), decl.source@, 1);
                                lemma_tree_ok_child(decl.ast().children@[1], decl.source@, 0);
                                assert(tree_ok(decl.ast().children@[1].children@[0], decl.source@));
                            }
                            Some(Walker::new(&decl.node.children[1].children[0], decl.source))
                        } else {
                            None
                        }
                    },
                    None => None,
                },
                None => None,
            }
        } else {
            None
        };
        proof {
            let keys = dict.keys();
            assert(walker.node.children@ == n.children@);
            match param {
                Some(p) => {
                    assert(returned_param(n, keys) == Some((p.ast(), p.source@)));
                },
                None => {
                    assert(returned_param(n, keys) is None);
                },
            }
        }
        let (id, kind) = match param {
            Some(p) => {
                proof { Walker::lemma_wf_fields(p); }
                (p.node.id, normalize_kind(&p))
            },
            None => (walker.node.id, normalize_kind(walker)),
        };
        let members = vec![Member::Reference(id)];
        assert(members@ =~= seq![members@[0]]);
        assert(member_views(members@) =~= seq![MemberView::Reference(id)]);
        Variable::new(members, owned(walker.node.source), kind, String::new())
    }

    /// The calls of the statement of `walker`: see `spec_function_use`.
    pub fn parse(walker: &Walker, dict: &Dictionary) -> (r: Vec<FunctionUse>)
        requires
            walker.tree_wf(),
            dict.wf(),
        ensures
            r@.len() == 1,
            dasg_views(r@[0].assignments@) == spec_function_use(walker.ast(), walker.source@, dict.keys()).0,
            dvar_views(r@[0].variables@).no_duplicates(),
            dvar_views(r@[0].variables@).to_set() == spec_function_use(walker.ast(), walker.source@, dict.keys()).1,
    {
        let ghost n = walker.ast();
        let ghost src = walker.source@;
        let ghost keys = dict.keys();
        proof {
            Walker::lemma_wf_fields(*walker);
            reveal_strlit("FunctionCall");
        }
        let mut assignments: Vec<Assignment> = Vec::new();
        let mut variables: Vec<Variable> = Vec::new();
        if str_eq(walker.node.name, "FunctionCall") {
            let v = FunctionUse::to_var(walker, dict);
            let lhs = vec![v];
            assert(lhs@ =~= seq![v]);
            let a = Assignment::new(lhs, Vec::new(), Operator::Equal);
            assignments.push(a);
            proof {
                assert(dvar_views(a.lhs@) =~= seq![function_use_var(n, src, keys)]);
                assert(dvar_views(a.rhs@) =~= Seq::<DVarView>::empty());
                assert(dasg_views(assignments@) =~= spec_function_use(n, src, keys).0);
                assert(dvar_views(variables@).to_set() =~= Set::<DVarView>::empty());
            }
        } else {
            let ig = Query::Never;
            let fi = Query::Names(vec!["FunctionCall"]);
            proof {
                assert(test_of(fi) =~= call_test()) by {
                    assert forall|a: AstNode, p: Option<AstNode>| #[trigger] test_of(fi)(a, p) == call_test()(a, p) by {
                        if a.name@ == "FunctionCall"@ {
                            assert(fi->Names_0@[0]@ == a.name@);
                        }
                    }
                }
                assert(test_of(ig) =~= never_test());
            }
            let found = walker.walk(true, &ig, &fi);
            let ghost ws = walk_seq(n, None, true, never_test(), call_test());
            let mut i: usize = 0;
            assert(dvar_views(variables@).to_set() =~= Set::<DVarView>::empty());
            while i < found.len()
                invariant
                    dict.wf(),
                    keys == dict.keys(),
                    src == walker.source@,
                    ws == walk_seq(n, None, true, never_test(), call_test()),
                    reads_all(found@, ws, walker.source),
                    forall|x: int| 0 <= x < found@.len() ==> (#[trigger] found@[x]).tree_wf(),
                    i <= found@.len(),
                    dvar_views(variables@).no_duplicates(),
                    dvar_views(variables@).to_set() == ws.take(i as int).map_values(
                        |w: AstNode| function_use_var(w, src, keys)).to_set(),
                decreases found@.len() - i,
            {
                let v = FunctionUse::to_var(&found[i], dict);
                dvar_insert(&mut variables, v);
                proof {
                    let f = |w: AstNode| function_use_var(w, src, keys);
                    lemma_take_map_set(ws, i as int, f);
                }
                i = i + 1;
            }
            proof {
                assert(ws.take(ws.len() as int) =~= ws);
                assert(dasg_views(assignments@) =~= Seq::<DAsgView>::empty());
            }
        }
        let r = vec![FunctionUse { assignments, variables }];
        assert(r@ =~= seq![r@[0]]);
        r
    }
}

} // verus!
