//! How `Graph::split` splits a statement into the calls that it makes.
use vstd::prelude::*;
use crate::ast::{AstNode, attr_u32_of, attr_str_of, attr_u32, attr_str};
use crate::shared::walker::{Walker, Query, NodeTest, test_of, walk_seq, within, name_is_one_of,
    lemma_walk_within, lemma_walk_holds, lemma_within_decreases, lemma_tree_ok_child};
use crate::cfg::block::{SimpleBlockNode, SimpleKind, simple_reads, lemma_simple_reads_concat};
use crate::cfg::graph::Graph;
use crate::cfg::splitter::never_test;
use crate::text::str_eq;

verus! {

/// Function calls and modifier invocations are split out of a statement.
pub open spec fn is_call_point(n: AstNode) -> bool {
    n.name@ == "FunctionCall"@ || n.name@ == "ModifierInvocation"@
}

pub open spec fn call_point_test() -> NodeTest {
    |n: AstNode, p: Option<AstNode>| is_call_point(n)
}

/// Every call point of the tree of `n` has a child, the callee.
pub open spec fn callees_ok(n: AstNode) -> bool
    decreases n,
{
    &&& is_call_point(n) ==> n.children@.len() > 0
    &&& forall|i: int| #![trigger n.children@[i]] 0 <= i < n.children@.len() ==> callees_ok(n.children@[i])
}

pub proof fn lemma_callees_ok_within(a: AstNode, n: AstNode)
    requires
        within(a, n),
        callees_ok(n),
    ensures
        callees_ok(a),
    decreases n,
{
    if a != n {
        let i = choose|i: int| #![trigger n.children@[i]] 0 <= i < n.children@.len() && within(a, n.children@[i]);
        assert(decreases_to!(n => n.children));
        assert(decreases_to!(n.children => n.children@));
        assert(decreases_to!(n.children@ => n.children@[i]));
        lemma_callees_ok_within(a, n.children@[i]);
    }
}

/// The kind of node that call point `w` becomes, read from its callee (its
/// first child): by the callee's `value`, and where it has none, by its
/// `member_name` and `referencedDeclaration`.
pub open spec fn call_point_kind(w: AstNode) -> SimpleKind {
    let callee = w.children@[0];
    match attr_str_of(callee.attributes@, "value"@) {
        Some(v) => {
            if v == "revert"@ {
                SimpleKind::Revert
            } else if v == "assert"@ {
                SimpleKind::Assert
            } else if v == "require"@ {
                SimpleKind::Require
            } else if v == "suicide"@ {
                SimpleKind::Suicide
            } else if v == "selfdestruct"@ {
                SimpleKind::Selfdestruct
            } else if w.name@ == "ModifierInvocation"@ {
                SimpleKind::ModifierInvocation
            } else {
                SimpleKind::FunctionCall
            }
        },
        None => {
            if attr_str_of(callee.attributes@, "member_name"@) == Some("transfer"@)
                && attr_u32_of(callee.attributes@, "referencedDeclaration"@) is None {
                SimpleKind::Transfer
            } else {
                SimpleKind::FunctionCall
            }
        },
    }
}

/// What `Graph::split` makes of `n`: for each outermost call point below and
/// including `n` (children before parents), the split of its children and then
/// the point itself; when `n` is not a call point, `n` as a `Unit` last.
pub open spec fn call_split_seq(n: AstNode) -> Seq<(SimpleKind, AstNode)>
    decreases n, 2int, 0int,
{
    let w = walk_seq(n, None, true, never_test(), call_point_test());
    call_split_points(n, w.len() as int) + if is_call_point(n) { seq![] } else { seq![(SimpleKind::Unit, n)] }
}

/// The split of the first `k` outermost call points of `n`.
pub open spec fn call_split_points(n: AstNode, k: int) -> Seq<(SimpleKind, AstNode)>
    decreases n, 1int, k,
{
    let w = walk_seq(n, None, true, never_test(), call_point_test());
    if k <= 0 || k > w.len() {
        seq![]
    } else {
        call_split_points(n, k - 1) + call_kids_split(n, w[k - 1], w[k - 1].children@.len() as int)
            + seq![(call_point_kind(w[k - 1]), w[k - 1])]
    }
}

/// The splits of the first `k` children of `x`, a node within `n`.
pub open spec fn call_kids_split(n: AstNode, x: AstNode, k: int) -> Seq<(SimpleKind, AstNode)>
    decreases n, 0int, k,
{
    if k <= 0 || k > x.children@.len() || !within(x, n) {
        seq![]
    } else {
        call_kids_split(n, x, k - 1) + call_split_seq(
            {
                proof {
                    lemma_within_decreases(x, n);
                    assert(decreases_to!(x => x.children));
                    assert(decreases_to!(x.children => x.children@));
                    assert(decreases_to!(x.children@ => x.children@[k - 1]));
                }
                x.children@[k - 1]
            },
        )
    }
}

impl<'a> Graph<'a> {
    /// Finds the nested function calls and modifier invocations of the
    /// statement of `walker` and makes a node of each, the calls that affect
    /// the control flow by their own kind; the rest of the statement comes last.
    pub fn split(walker: Walker<'a>) -> (r: Vec<SimpleBlockNode<'a>>)
        requires
            walker.tree_wf(),
            callees_ok(walker.ast()),
        ensures
            simple_reads(r@, call_split_seq(walker.ast()), walker.source@),
        decreases *walker.node.ast,
    {
        let ghost n = walker.ast();
        let fi = Query::Names(vec!["FunctionCall", "ModifierInvocation"]);
        let ig = Query::Never;
        proof {
            reveal_strlit("FunctionCall");
            reveal_strlit("ModifierInvocation");
            assert(test_of(fi) =~= call_point_test()) by {
                assert forall|a: AstNode, p: Option<AstNode>| #[trigger] test_of(fi)(a, p) == call_point_test()(a, p) by {
                    if is_call_point(a) {
                        if a.name@ == "FunctionCall"@ {
                            assert(fi->Names_0@[0]@ == a.name@);
                        } else {
                            assert(fi->Names_0@[1]@ == a.name@);
                        }
                    }
                }
            }
            assert(test_of(ig) =~= never_test());
        }
        let walkers = walker.walk(true, &ig, &fi);
        let ghost ws = walk_seq(n, None, true, never_test(), call_point_test());
        proof {
            lemma_walk_within(n, None, true, never_test(), call_point_test());
            lemma_walk_holds(n, None, true, never_test(), call_point_test(), |a: AstNode| is_call_point(a));
        }
        let mut function_calls: Vec<SimpleBlockNode<'a>> = Vec::new();
        let mut i: usize = 0;
        while i < walkers.len()
            invariant
                walker.tree_wf(),
                callees_ok(n),
                n == walker.ast(),
                ws == walk_seq(n, None, true, never_test(), call_point_test()),
                walkers@.len() == ws.len(),
                forall|x: int| 0 <= x < walkers@.len() ==> (#[trigger] walkers@[x]).reads(ws[x], walker.source),
                forall|x: int| 0 <= x < walkers@.len() ==> (#[trigger] walkers@[x]).tree_wf(),
                forall|x: int| 0 <= x < ws.len() ==> within(#[trigger] ws[x], n),
                forall|x: int| 0 <= x < ws.len() ==> is_call_point(#[trigger] ws[x]),
                i <= walkers@.len(),
                simple_reads(function_calls@, call_split_points(n, i as int), walker.source@),
            decreases walkers@.len() - i,
        {
            let w = walkers[i];
            let ghost wn = ws[i as int];
            proof {
                Walker::lemma_wf_fields(w);
                assert(within(wn, n));
                lemma_within_decreases(wn, n);
                lemma_callees_ok_within(wn, n);
            }
            let mut k: usize = 0;
            while k < w.node.children.len()
                invariant
                    walker.tree_wf(),
                    w.tree_wf(),
                    wn == w.ast(),
                    n == walker.ast(),
                    w.source == walker.source,
                    within(wn, n),
                    callees_ok(wn),
                    wn == n || decreases_to!(n => wn),
                    w.node.children@ == wn.children@,
                    k <= wn.children@.len(),
                    simple_reads(function_calls@, call_split_points(n, i as int) + call_kids_split(n, wn, k as int),
                        walker.source@),
                decreases wn.children@.len() - k,
            {
                proof {
                    lemma_tree_ok_child(wn, w.source@, k as int);
                    assert(callees_ok(wn.children@[k as int]));
                    assert(decreases_to!(*w.node.ast => w.node.ast.children));
                    assert(decreases_to!(w.node.ast.children => w.node.ast.children@));
                    assert(decreases_to!(w.node.ast.children@ => w.node.ast.children@[k as int]));
                }
                let child = Walker::new(&w.node.children[k], w.source);
                let mut parts = Graph::split(child);
                let ghost before = function_calls@;
                let ghost pv = parts@;
                function_calls.append(&mut parts);
                proof {
                    lemma_simple_reads_concat(before, call_split_points(n, i as int) + call_kids_split(n, wn, k as int),
                        pv, call_split_seq(wn.children@[k as int]), walker.source@);
                    assert(call_split_points(n, i as int) + call_kids_split(n, wn, k as int)
                        + call_split_seq(wn.children@[k as int])
                        =~= call_split_points(n, i as int) + call_kids_split(n, wn, k + 1));
                }
                k = k + 1;
            }
            proof {
                reveal_strlit("FunctionCall");
                reveal_strlit("ModifierInvocation");
                reveal_strlit("value");
                reveal_strlit("member_name");
                reveal_strlit("referencedDeclaration");
                reveal_strlit("revert");
                reveal_strlit("assert");
                reveal_strlit("require");
                reveal_strlit("suicide");
                reveal_strlit("selfdestruct");
                reveal_strlit("transfer");
                assert(is_call_point(wn));
            }
            let callee = &w.node.children[0];
            let kind = match attr_str(&callee.attributes, "value") {
                Some(name) => {
                    if str_eq(name.as_str(), "revert") {
                        SimpleKind::Revert
                    } else if str_eq(name.as_str(), "assert") {
                        SimpleKind::Assert
                    } else if str_eq(name.as_str(), "require") {
                        SimpleKind::Require
                    } else if str_eq(name.as_str(), "suicide") {
                        SimpleKind::Suicide
                    } else if str_eq(name.as_str(), "selfdestruct") {
                        SimpleKind::Selfdestruct
                    } else if str_eq(w.node.name, "ModifierInvocation") {
                        SimpleKind::ModifierInvocation
                    } else {
                        SimpleKind::FunctionCall
                    }
                },
                None => {
                    let member = attr_str(&callee.attributes, "member_name");
                    let reference = attr_u32(&callee.attributes, "referencedDeclaration");
                    let transfer = match member {
                        Some(m) => str_eq(m.as_str(), "transfer"),
                        None => false,
                    };
                    if transfer && reference.is_none() {
                        SimpleKind::Transfer
                    } else {
                        SimpleKind::FunctionCall
                    }
                },
            };
            assert(kind == call_point_kind(wn));
            let ghost before = function_calls@;
            function_calls.push(SimpleBlockNode::of_kind(kind, w));
            proof {
                let added = seq![function_calls@.last()];
                assert(function_calls@ =~= before + added);
                assert(simple_reads(added, seq![(call_point_kind(wn), wn)], walker.source@));
                lemma_simple_reads_concat(before, call_split_points(n, i as int) + call_kids_split(n, wn,
                    wn.children@.len() as int), added, seq![(call_point_kind(wn), wn)], walker.source@);
                assert(call_split_points(n, i as int) + call_kids_split(n, wn, wn.children@.len() as int)
                    + seq![(call_point_kind(wn), wn)] =~= call_split_points(n, i + 1));
            }
            i = i + 1;
        }
        let ghost before = function_calls@;
        proof { Walker::lemma_wf_fields(walker); }
        if !name_is_one_of(&vec!["FunctionCall", "ModifierInvocation"], walker.node.name) {
            function_calls.push(SimpleBlockNode::Unit(walker));
        }
        proof {
            let added = function_calls@.subrange(before.len() as int, function_calls@.len() as int);
            assert(function_calls@ =~= before + added);
            let tail = if is_call_point(n) { seq![] } else { seq![(SimpleKind::Unit, n)] };
            assert(simple_reads(added, tail, walker.source@));
            lemma_simple_reads_concat(before, call_split_points(n, ws.len() as int), added, tail, walker.source@);
        }
        function_calls
    }
}

} // verus!
