//! Splits a statement into the nested calls that it makes, each of which is a
//! node of its own in the control flow graph.
use vstd::prelude::*;
use crate::ast::{AstNode, attr_u32_of, attr_str_of, attr_u32, attr_str};
use crate::shared::walker::{Walker, Query, NodeTest, test_of, walk_seq, within, name_in, name_is_one_of,
    lemma_walk_within, lemma_within_decreases, lemma_tree_ok_child, lemma_within_trans};
use crate::cfg::block::{SimpleBlockNode, SimpleKind, simple_reads, lemma_simple_reads_concat};
use crate::text::str_eq;

verus! {

/// Calls, modifier invocations and index accesses are split out of a statement.
pub open spec fn is_split_point(n: AstNode) -> bool {
    n.name@ == "FunctionCall"@ || n.name@ == "ModifierInvocation"@ || n.name@ == "IndexAccess"@
}

pub open spec fn split_test() -> NodeTest {
    |n: AstNode, p: Option<AstNode>| is_split_point(n)
}

pub open spec fn never_test() -> NodeTest {
    |n: AstNode, p: Option<AstNode>| false
}

/// The name a call is made by: the `value` of the callee, else its `member_name`.
pub open spec fn callee_name(callee: AstNode) -> Option<Seq<char>> {
    match attr_str_of(callee.attributes@, "value"@) {
        Some(v) => Some(v),
        None => attr_str_of(callee.attributes@, "member_name"@),
    }
}

/// What kind of node a function call is; `None` when its callee has no name.
pub open spec fn call_kind(call: AstNode) -> Option<SimpleKind> {
    if call.children@.len() == 0 {
        None
    } else {
        let callee = call.children@[0];
        match callee_name(callee) {
            None => None,
            Some(name) => Some(
                if name == "revert"@ {
                    SimpleKind::Revert
                } else if name == "assert"@ {
                    SimpleKind::Assert
                } else if name == "require"@ {
                    SimpleKind::Require
                } else if name == "suicide"@ {
                    SimpleKind::Suicide
                } else if name == "selfdestruct"@ {
                    SimpleKind::Selfdestruct
                } else if name == "transfer"@ && attr_u32_of(callee.attributes@, "referencedDeclaration"@) is None {
                    SimpleKind::Transfer
                } else {
                    SimpleKind::FunctionCall
                },
            ),
        }
    }
}

/// The node that a split point becomes.
pub open spec fn own_nodes(w: AstNode) -> Seq<(SimpleKind, AstNode)> {
    if w.name@ == "FunctionCall"@ {
        match call_kind(w) {
            Some(k) => seq![(k, w)],
            None => seq![],
        }
    } else if w.name@ == "ModifierInvocation"@ {
        seq![(SimpleKind::ModifierInvocation, w)]
    } else if w.name@ == "IndexAccess"@ {
        seq![(SimpleKind::IndexAccess, w)]
    } else {
        seq![]
    }
}

/// What `Splitter::split` makes of `n`: for each outermost split point below
/// and including `n` (children before parents), the split of its children and
/// then the point itself; when `n` is not a split point, `n` as a `Unit` last.
pub open spec fn split_seq(n: AstNode) -> Seq<(SimpleKind, AstNode)>
    decreases n, 2int, 0int,
{
    let w = walk_seq(n, None, true, never_test(), split_test());
    split_points(n, w.len() as int) + if is_split_point(n) { seq![] } else { seq![(SimpleKind::Unit, n)] }
}

/// The split of the first `k` outermost split points of `n`.
pub open spec fn split_points(n: AstNode, k: int) -> Seq<(SimpleKind, AstNode)>
    decreases n, 1int, k,
{
    let w = walk_seq(n, None, true, never_test(), split_test());
    if k <= 0 || k > w.len() {
        seq![]
    } else {
        split_points(n, k - 1) + kids_split(n, w[k - 1], w[k - 1].children@.len() as int) + own_nodes(w[k - 1])
    }
}

/// The splits of the first `k` children of `x`, a node within `n`.
pub open spec fn kids_split(n: AstNode, x: AstNode, k: int) -> Seq<(SimpleKind, AstNode)>
    decreases n, 0int, k,
{
    if k <= 0 || k > x.children@.len() || !within(x, n) {
        seq![]
    } else {
        kids_split(n, x, k - 1) + split_seq(
            {
                proof {
                    lemma_within_decreases(x, n);
                    assert(decreases_to!(x => x.children));
                    assert(decreases_to!(x.children => x.children@));
                    assert(decreases_to!(x.children@ => x.children@[k - 1]));
                }
                x.children@[k - 1]
            },
        )
    }
}

pub struct Splitter {}

impl Splitter {
    pub fn new() -> Splitter {
        Splitter {}
    }

    /// Splits the statement of `walker` into its nested calls, each a node of
    /// its own, and the rest of the statement.
    pub fn split<'a>(&self, walker: Walker<'a>) -> (r: Vec<SimpleBlockNode<'a>>)
        requires
            walker.tree_wf(),
        ensures
            simple_reads(r@, split_seq(walker.ast()), walker.source@),
        decreases *walker.node.ast,
    {
        let ghost n = walker.ast();
        let fi = Query::Names(vec!["FunctionCall", "ModifierInvocation", "IndexAccess"]);
        let ig = Query::Never;
        proof {
            reveal_strlit("FunctionCall");
            reveal_strlit("ModifierInvocation");
            reveal_strlit("IndexAccess");
            assert(test_of(fi) =~= split_test()) by {
                assert forall|a: AstNode, p: Option<AstNode>| #[trigger] test_of(fi)(a, p) == split_test()(a, p) by {
                    if is_split_point(a) {
                        if a.name@ == "FunctionCall"@ {
                            assert(fi->Names_0@[0]@ == a.name@);
                        } else if a.name@ == "ModifierInvocation"@ {
                            assert(fi->Names_0@[1]@ == a.name@);
                        } else {
                            assert(fi->Names_0@[2]@ == a.name@);
                        }
                    }
                }
            }
            assert(test_of(ig) =~= never_test());
        }
        let walkers = walker.walk(true, &ig, &fi);
        let ghost ws = walk_seq(n, None, true, never_test(), split_test());
        proof { lemma_walk_within(n, None, true, never_test(), split_test()); }
        let mut function_calls: Vec<SimpleBlockNode<'a>> = Vec::new();
        let mut i: usize = 0;
        while i < walkers.len()
            invariant
                walker.tree_wf(),
                n == walker.ast(),
                ws == walk_seq(n, None, true, never_test(), split_test()),
                walkers@.len() == ws.len(),
                forall|x: int| 0 <= x < walkers@.len() ==> (#[trigger] walkers@[x]).reads(ws[x], walker.source),
                forall|x: int| 0 <= x < walkers@.len() ==> (#[trigger] walkers@[x]).tree_wf(),
                forall|x: int| 0 <= x < ws.len() ==> within(#[trigger] ws[x], n),
                i <= walkers@.len(),
                simple_reads(function_calls@, split_points(n, i as int), walker.source@),
            decreases walkers@.len() - i,
        {
            let w = walkers[i];
            let ghost wn = ws[i as int];
            proof {
                Walker::lemma_wf_fields(w);
                assert(within(wn, n));
                lemma_within_decreases(wn, n);
            }
            let mut k: usize = 0;
            let ghost start = function_calls@;
            while k < w.node.children.len()
                invariant
                    walker.tree_wf(),
                    w.tree_wf(),
                    wn == w.ast(),
                    n == walker.ast(),
                    w.source == walker.source,
                    within(wn, n),
                    wn == n || decreases_to!(n => wn),
                    w.node.children@ == wn.children@,
                    k <= wn.children@.len(),
                    simple_reads(function_calls@, split_points(n, i as int) + kids_split(n, wn, k as int), walker.source@),
                decreases wn.children@.len() - k,
            {
                proof {
                    lemma_tree_ok_child(wn, w.source@, k as int);
                    assert(decreases_to!(*w.node.ast => w.node.ast.children));
                    assert(decreases_to!(w.node.ast.children => w.node.ast.children@));
                    assert(decreases_to!(w.node.ast.children@ => w.node.ast.children@[k as int]));
                }
                let child = Walker::new(&w.node.children[k], w.source);
                let mut parts = self.split(child);
                let ghost before = function_calls@;
                let ghost pv = parts@;
                function_calls.append(&mut parts);
                proof {
                    lemma_simple_reads_concat(before, split_points(n, i as int) + kids_split(n, wn, k as int),
                        pv, split_seq(wn.children@[k as int]), walker.source@);
                    assert(split_points(n, i as int) + kids_split(n, wn, k as int) + split_seq(wn.children@[k as int])
                        =~= split_points(n, i as int) + kids_split(n, wn, k + 1));
                }
                k = k + 1;
            }
            let ghost before = function_calls@;
            proof {
                reveal_strlit("FunctionCall");
                reveal_strlit("ModifierInvocation");
                reveal_strlit("IndexAccess");
                reveal_strlit("value");
                reveal_strlit("member_name");
                reveal_strlit("referencedDeclaration");
                reveal_strlit("revert");
                reveal_strlit("assert");
                reveal_strlit("require");
                reveal_strlit("suicide");
                reveal_strlit("selfdestruct");
                reveal_strlit("transfer");
            }
            if str_eq(w.node.name, "FunctionCall") {
                if w.node.children.len() > 0 {
                    let callee = &w.node.children[0];
                    let name = match attr_str(&callee.attributes, "value") {
                        Some(v) => Some(v),
                        None => attr_str(&callee.attributes, "member_name"),
                    };
                    let reference = attr_u32(&callee.attributes, "referencedDeclaration");
                    match name {
                        Some(name) => {
                            let kind = if str_eq(name.as_str(), "revert") {
                                SimpleKind::Revert
                            } else if str_eq(name.as_str(), "assert") {
                                SimpleKind::Assert
                            } else if str_eq(name.as_str(), "require") {
                                SimpleKind::Require
                            } else if str_eq(name.as_str(), "suicide") {
                                SimpleKind::Suicide
                            } else if str_eq(name.as_str(), "selfdestruct") {
                                SimpleKind::Selfdestruct
                            } else if str_eq(name.as_str(), "transfer") && reference.is_none() {
                                SimpleKind::Transfer
                            } else {
                                SimpleKind::FunctionCall
                            };
                            assert(call_kind(wn) == Some(kind));
                            function_calls.push(SimpleBlockNode::of_kind(kind, w));
                        },
                        None => {},
                    }
                }
            } else if str_eq(w.node.name, "ModifierInvocation") {
                function_calls.push(SimpleBlockNode::ModifierInvocation(w));
            } else if str_eq(w.node.name, "IndexAccess") {
                function_calls.push(SimpleBlockNode::IndexAccess(w));
            }
            proof {
                assert("FunctionCall"@.len() != "ModifierInvocation"@.len());
                assert("FunctionCall"@.len() != "IndexAccess"@.len());
                assert("IndexAccess"@.len() != "ModifierInvocation"@.len());
                let added = function_calls@.subrange(before.len() as int, function_calls@.len() as int);
                assert(function_calls@ =~= before + added);
                assert(simple_reads(added, own_nodes(wn), walker.source@));
                lemma_simple_reads_concat(before, split_points(n, i as int) + kids_split(n, wn, wn.children@.len() as int),
                    added, own_nodes(wn), walker.source@);
            }
            i = i + 1;
        }
        let ghost before = function_calls@;
        proof { Walker::lemma_wf_fields(walker); }
        if !name_is_one_of(&vec!["FunctionCall", "ModifierInvocation", "IndexAccess"], walker.node.name) {
            function_calls.push(SimpleBlockNode::Unit(walker));
        }
        proof {
            let added = function_calls@.subrange(before.len() as int, function_calls@.len() as int);
            assert(function_calls@ =~= before + added);
            let tail = if is_split_point(n) { seq![] } else { seq![(SimpleKind::Unit, n)] };
            assert(simple_reads(added, tail, walker.source@));
            lemma_simple_reads_concat(before, split_points(n, ws.len() as int), added, tail, walker.source@);
        }
        function_calls
    }
}

/// Each piece lies within `root`; a piece of a call, a modifier invocation or
/// an index access is that node with the kind it is split out as, and any
/// other piece is a unit.
pub open spec fn pieces_of(s: Seq<(SimpleKind, AstNode)>, root: AstNode) -> bool {
    forall|i: int| 0 <= i < s.len() ==> {
        &&& within((#[trigger] s[i]).1, root)
        &&& (s[i].0 == SimpleKind::Unit <==> !is_split_point(s[i].1))
        &&& is_split_point(s[i].1) ==> own_nodes(s[i].1) == seq![s[i]]
    }
}

proof fn lemma_pieces_concat(a: Seq<(SimpleKind, AstNode)>, b: Seq<(SimpleKind, AstNode)>, root: AstNode)
    requires
        pieces_of(a, root),
        pieces_of(b, root),
    ensures
        pieces_of(a + b, root),
{
    assert forall|i: int| 0 <= i < (a + b).len() implies {
        &&& within((#[trigger] (a + b)[i]).1, root)
        &&& ((a + b)[i].0 == SimpleKind::Unit <==> !is_split_point((a + b)[i].1))
        &&& is_split_point((a + b)[i].1) ==> own_nodes((a + b)[i].1) == seq![(a + b)[i]]
    } by {
        if i < a.len() {
            assert((a + b)[i] == a[i]);
        } else {
            assert((a + b)[i] == b[i - a.len()]);
        }
    }
}

proof fn lemma_own_nodes(w: AstNode)
    ensures
        pieces_of(own_nodes(w), w),
{
    assert(within(w, w));
    let o = own_nodes(w);
    if o.len() > 0 {
        assert(o =~= seq![o[0]]);
    }
}

/// What the split of `n` gives back: each piece lies within `n`; a call, a
/// modifier invocation or an index access stands there with the kind it is
/// split out as, and any other piece is a unit; the last piece is `n` itself.
pub proof fn law_split_pieces(n: AstNode)
    ensures
        pieces_of(split_seq(n), n),
        !is_split_point(n) ==> split_seq(n).last() == (SimpleKind::Unit, n),
    decreases n, 2int, 0int,
{
    let w = walk_seq(n, None, true, never_test(), split_test());
    lemma_split_points_pieces(n, w.len() as int);
    if !is_split_point(n) {
        assert(within(n, n));
        assert(pieces_of(seq![(SimpleKind::Unit, n)], n));
        lemma_pieces_concat(split_points(n, w.len() as int), seq![(SimpleKind::Unit, n)], n);
    } else {
        assert(split_seq(n) =~= split_points(n, w.len() as int));
    }
}

proof fn lemma_split_points_pieces(n: AstNode, k: int)
    ensures
        pieces_of(split_points(n, k), n),
    decreases n, 1int, k,
{
    let w = walk_seq(n, None, true, never_test(), split_test());
    if !(k <= 0 || k > w.len()) {
        lemma_split_points_pieces(n, k - 1);
        lemma_walk_within(n, None, true, never_test(), split_test());
        let x = w[k - 1];
        assert(within(x, n));
        lemma_kids_split_pieces(n, x, x.children@.len() as int);
        lemma_own_nodes(x);
        let o = own_nodes(x);
        assert forall|i: int| 0 <= i < o.len() implies within((#[trigger] o[i]).1, n) by {
            lemma_within_trans(o[i].1, x, n);
        }
        lemma_pieces_concat(split_points(n, k - 1), kids_split(n, x, x.children@.len() as int), n);
        lemma_pieces_concat(split_points(n, k - 1) + kids_split(n, x, x.children@.len() as int), o, n);
    }
}

proof fn lemma_kids_split_pieces(n: AstNode, x: AstNode, k: int)
    ensures
        pieces_of(kids_split(n, x, k), n),
    decreases n, 0int, k,
{
    if !(k <= 0 || k > x.children@.len() || !within(x, n)) {
        lemma_kids_split_pieces(n, x, k - 1);
        let c = x.children@[k - 1];
        lemma_within_decreases(x, n);
        assert(decreases_to!(x => x.children));
        assert(decreases_to!(x.children => x.children@));
        assert(decreases_to!(x.children@ => x.children@[k - 1]));
        law_split_pieces(c);
        let s = split_seq(c);
        assert(within(c, x));
        assert forall|i: int| 0 <= i < s.len() implies within((#[trigger] s[i]).1, n) by {
            lemma_within_trans(s[i].1, c, x);
            lemma_within_trans(s[i].1, x, n);
        }
        lemma_pieces_concat(kids_split(n, x, k - 1), s, n);
    }
}

/// A call is split out by what it calls: `require`, `assert`, `revert`,
/// `suicide` and `selfdestruct` by those names, `transfer` where the callee
/// refers to no declaration of the program (the built-in one), and any other
/// named callee as a plain function call; a call whose callee has no name is
/// not split out.
pub proof fn law_call_kind(call: AstNode)
    requires
        call.children@.len() > 0,
    ensures
        ({
            let callee = call.children@[0];
            match callee_name(callee) {
                None => call_kind(call) is None,
                Some(name) => {
                    &&& name == "require"@ ==> call_kind(call) == Some(SimpleKind::Require)
                    &&& name == "assert"@ ==> call_kind(call) == Some(SimpleKind::Assert)
                    &&& name == "revert"@ ==> call_kind(call) == Some(SimpleKind::Revert)
                    &&& name == "suicide"@ ==> call_kind(call) == Some(SimpleKind::Suicide)
                    &&& name == "selfdestruct"@ ==> call_kind(call) == Some(SimpleKind::Selfdestruct)
                    &&& name == "transfer"@ ==> call_kind(call) == Some(
                        if attr_u32_of(callee.attributes@, "referencedDeclaration"@) is None { SimpleKind::Transfer }
                        else { SimpleKind::FunctionCall })
                    &&& name != "require"@ && name != "assert"@ && name != "revert"@ && name != "suicide"@
                        && name != "selfdestruct"@ && name != "transfer"@ ==> call_kind(call) == Some(SimpleKind::FunctionCall)
                },
            }
        }),
{
    reveal_strlit("require");
    reveal_strlit("assert");
    reveal_strlit("revert");
    reveal_strlit("suicide");
    reveal_strlit("selfdestruct");
    reveal_strlit("transfer");
    assert("revert"@[0] != "assert"@[0]);
    assert("require"@[0] != "suicide"@[0]);
    assert("require"@.len() != "revert"@.len());
    assert("selfdestruct"@.len() == 12);
    assert("transfer"@.len() == 8);
}

} // verus!
