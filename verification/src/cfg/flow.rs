//! The control flow graph of a function.
use std::collections::HashMap;
use vstd::prelude::*;
use crate::ast::AstNode;
use crate::shared::walker::{Walker, text_of};
use crate::shared::edge::Edge;
use crate::shared::dict::{Dictionary, entry_of, entries_of, key_of};
use crate::shared::smart_contract::{SmartContractQuery, SmartContractView, spec_find, seq_values, copy_ids};
use crate::cfg::graph::{Graph, root_view, root_ok, spec_parameters};
use crate::shared::vertex::{Shape, Vertex, VertexView};
use crate::cfg::block::{CodeBlock, SimpleBlockNode, SimpleKind, BlockNode, IfStatement, WhileStatement,
    DoWhileStatement, ForStatement, ReturnStatement, CodeView, NodeView, code_matches, codes_match, node_matches,
    simple_reads, simple_view, simple_ok, lemma_simple_reads_view};
use crate::cfg::splitter::{Splitter, split_seq};

verus! {

broadcast use vstd::std_specs::hash::group_hash_axioms;

/// The type of breaking loop statement
#[derive(Debug, PartialEq, Eq, Clone, Copy, Structural)]
pub enum BreakerType {
    Continue,
    Break,
}

/// Type and position of `LoopBreaker`
#[derive(Debug, Clone, Copy)]
pub struct LoopBreaker {
    pub kind: BreakerType,
    pub id: u32,
}

/// The graph built so far, as plain values.
pub struct FlowState {
    pub edges: Set<(u32, u32)>,
    pub vertices: Set<VertexView>,
    /// function id => ids of its return statements
    pub returns: Map<u32, Seq<u32>>,
}

/// Where a traversal stands: the graph, the nodes that the next node follows,
/// the loop breakers met, and whether nothing unimplemented was hit.
pub struct Trav {
    pub st: FlowState,
    pub preds: Seq<u32>,
    pub brs: Seq<LoopBreaker>,
    pub ok: bool,
}

/// What the graph is built for: the stop vertex, the function and its source.
pub struct Ctx {
    pub stop: u32,
    pub function_id: u32,
    pub source: Seq<char>,
}

pub open spec fn with_vertex(st: FlowState, v: VertexView) -> FlowState {
    FlowState { vertices: st.vertices.insert(v), ..st }
}

pub open spec fn with_edge(st: FlowState, e: (u32, u32)) -> FlowState {
    FlowState { edges: st.edges.insert(e), ..st }
}

/// Adds an edge from each of `preds` to `id`.
pub open spec fn edges_to(st: FlowState, preds: Seq<u32>, id: u32) -> FlowState
    decreases preds.len(),
{
    if preds.len() == 0 {
        st
    } else {
        with_edge(edges_to(st, preds.drop_last(), id), (preds.last(), id))
    }
}

/// Some edge from `preds` to `id` is not yet in `edges`.
pub open spec fn any_new(edges: Set<(u32, u32)>, preds: Seq<u32>, id: u32) -> bool {
    exists|i: int| 0 <= i < preds.len() && !edges.contains((#[trigger] preds[i], id))
}

/// The effect of one primitive node on the traversal.
pub open spec fn simple_step(t: Trav, b: (SimpleKind, AstNode), level: u32, ctx: Ctx) -> Trav {
    let (kind, n) = b;
    let id = n.id;
    let text = text_of(n, ctx.source);
    match kind {
        SimpleKind::Break => Trav {
            st: edges_to(with_vertex(t.st, (id, text, Shape::Statement, level)), t.preds, id),
            preds: seq![],
            brs: t.brs.push(LoopBreaker { kind: BreakerType::Break, id }),
            ok: t.ok,
        },
        SimpleKind::Continue => Trav {
            st: edges_to(with_vertex(t.st, (id, text, Shape::Statement, level)), t.preds, id),
            preds: seq![],
            brs: t.brs.push(LoopBreaker { kind: BreakerType::Continue, id }),
            ok: t.ok,
        },
        SimpleKind::Require | SimpleKind::Assert | SimpleKind::Transfer => Trav {
            st: with_edge(edges_to(with_vertex(t.st, (id, text, Shape::FunctionCall, level)), t.preds, id), (id, ctx.stop)),
            preds: seq![id],
            ..t
        },
        SimpleKind::Throw => Trav {
            st: with_edge(edges_to(with_vertex(t.st, (id, text, Shape::Statement, level)), t.preds, id), (id, ctx.stop)),
            preds: seq![],
            ..t
        },
        SimpleKind::Revert | SimpleKind::Selfdestruct | SimpleKind::Suicide => Trav {
            st: with_edge(edges_to(with_vertex(t.st, (id, text, Shape::FunctionCall, level)), t.preds, id), (id, ctx.stop)),
            preds: seq![],
            ..t
        },
        SimpleKind::Unit => {
            let st1 = edges_to(t.st, t.preds, id);
            if any_new(t.st.edges, t.preds, id) {
                Trav { st: with_vertex(st1, (id, text, Shape::Statement, level)), preds: seq![id], ..t }
            } else {
                Trav { st: st1, preds: seq![], ..t }
            }
        },
        SimpleKind::FunctionCall | SimpleKind::ModifierInvocation | SimpleKind::IndexAccess => {
            let st1 = edges_to(t.st, t.preds, id);
            if any_new(t.st.edges, t.preds, id) {
                Trav { st: with_vertex(st1, (id, text, Shape::FunctionCall, level)), preds: seq![id], ..t }
            } else {
                Trav { st: st1, preds: seq![], ..t }
            }
        },
        SimpleKind::Empty => Trav { ok: false, ..t },
    }
}

/// The traversal of the first `k` primitive nodes of `bs`; it stops once no
/// node is left to follow.
pub open spec fn simple_fold(t: Trav, bs: Seq<(SimpleKind, AstNode)>, k: int, level: u32, ctx: Ctx) -> Trav
    decreases k,
{
    if k <= 0 {
        t
    } else {
        let t1 = simple_fold(t, bs, k - 1, level, ctx);
        if t1.preds.len() == 0 {
            Trav { preds: seq![], ..t1 }
        } else {
            simple_step(t1, bs[k - 1], level, ctx)
        }
    }
}

/// The traversal of all of `bs`.
pub open spec fn simple_all(t: Trav, bs: Seq<(SimpleKind, AstNode)>, level: u32, ctx: Ctx) -> Trav {
    simple_fold(t, bs, bs.len() as int, level, ctx)
}

/// The shape of a node of a condition; `None` for the kinds a condition cannot hold.
pub open spec fn condition_shape(kind: SimpleKind) -> Option<Shape> {
    match kind {
        SimpleKind::FunctionCall => Some(Shape::ConditionAndFunctionCall),
        SimpleKind::IndexAccess => Some(Shape::ConditionAndIndexAccess),
        SimpleKind::Unit => Some(Shape::RootCondition),
        _ => None,
    }
}

/// A condition can be traversed: it is not empty and holds only calls, index
/// accesses and plain expressions.
pub open spec fn condition_ok(bs: Seq<(SimpleKind, AstNode)>) -> bool {
    &&& bs.len() > 0
    &&& forall|i: int| 0 <= i < bs.len() ==> (#[trigger] condition_shape(bs[i].0)) is Some
}

/// The vertices of the first `k` nodes of a condition added to `st`.
pub open spec fn condition_vertices(st: FlowState, bs: Seq<(SimpleKind, AstNode)>, k: int, level: u32, source: Seq<char>) -> FlowState
    decreases k,
{
    if k <= 0 {
        st
    } else {
        let n = bs[k - 1].1;
        with_vertex(condition_vertices(st, bs, k - 1, level, source),
            (n.id, text_of(n, source), condition_shape(bs[k - 1].0)->0, level))
    }
}

/// The edges between consecutive ids of `chain`, the first `k` of them.
pub open spec fn chain_edges(st: FlowState, chain: Seq<u32>, k: int) -> FlowState
    decreases k,
{
    if k <= 0 {
        st
    } else {
        with_edge(chain_edges(st, chain, k - 1), (chain[k - 1], chain[k]))
    }
}

/// The ids of the nodes of a condition.
pub open spec fn chain_of(bs: Seq<(SimpleKind, AstNode)>) -> Seq<u32> {
    bs.map_values(|b: (SimpleKind, AstNode)| b.1.id)
}

/// The graph after traversing a condition: a vertex for each node, chained in order.
pub open spec fn condition_state(st: FlowState, bs: Seq<(SimpleKind, AstNode)>, level: u32, source: Seq<char>) -> FlowState {
    chain_edges(condition_vertices(st, bs, bs.len() as int, level, source), chain_of(bs), bs.len() - 1)
}

/// The ids of the breakers of kind `kind`, in order.
pub open spec fn breaker_ids(brs: Seq<LoopBreaker>, kind: BreakerType) -> Seq<u32>
    decreases brs.len(),
{
    if brs.len() == 0 {
        seq![]
    } else if brs.last().kind == kind {
        breaker_ids(brs.drop_last(), kind).push(brs.last().id)
    } else {
        breaker_ids(brs.drop_last(), kind)
    }
}

/// `st` with `id` recorded as a return of function `f`.
pub open spec fn with_return(st: FlowState, f: u32, id: u32) -> FlowState {
    let old = if st.returns.contains_key(f) { st.returns[f] } else { seq![] };
    FlowState { returns: st.returns.insert(f, old.push(id)), ..st }
}

/// The traversal of the first `k` blocks of `vs`; it stops once no node is
/// left to follow.
pub open spec fn trav(t: Trav, vs: Seq<CodeView>, k: int, level: u32, ctx: Ctx) -> Trav
    decreases vs, k,
{
    if k <= 0 || k > vs.len() {
        t
    } else {
        let t1 = trav(t, vs, k - 1, level, ctx);
        if t1.preds.len() == 0 {
            Trav { preds: seq![], ..t1 }
        } else {
            trav_step(t1, vs[k - 1], level, ctx)
        }
    }
}

/// The traversal of all of `vs`.
pub open spec fn trav_all(t: Trav, vs: Seq<CodeView>, level: u32, ctx: Ctx) -> Trav
    decreases vs, vs.len() + 1,
{
    trav(t, vs, vs.len() as int, level, ctx)
}

/// The effect of one block on the traversal.
pub open spec fn trav_step(t: Trav, v: CodeView, level: u32, ctx: Ctx) -> Trav
    decreases v, 0int,
{
    match v {
        CodeView::Block(n) => simple_all(t, split_seq(n), level, ctx),
        CodeView::SimpleBlocks(bs) => simple_all(t, bs, level, ctx),
        CodeView::Link(nv) => node_step(t, *nv, level, ctx),
        CodeView::Empty => Trav { ok: false, ..t },
    }
}

/// The effect of one compound node on the traversal.
pub open spec fn node_step(t: Trav, nv: NodeView, level: u32, ctx: Ctx) -> Trav
    decreases nv, 1int,
{
    if level == u32::MAX && !(nv is ReturnStatement) {
        // one level deeper does not fit in a `u32`
        Trav { ok: false, ..t }
    } else {
        match nv {
            NodeView::IfStatement(..) => if_trav(t, nv, level, ctx),
            NodeView::DoWhileStatement(..) => do_while_trav(t, nv, level, ctx),
            NodeView::WhileStatement(..) => while_trav(t, nv, level, ctx),
            NodeView::ForStatement(..) => for_trav(t, nv, level, ctx),
            NodeView::ReturnStatement(c) => match *c {
                CodeView::Block(bn) => {
                    let t1 = simple_all(Trav { st: with_return(t.st, ctx.function_id, bn.id), ..t }, split_seq(bn), level, ctx);
                    Trav { st: edges_to(t1.st, t1.preds, ctx.stop), preds: seq![], ..t1 }
                },
                _ => Trav { preds: seq![], ..t },
            },
            _ => Trav { ok: false, ..t },
        }
    }
}

/// The effect of an `if` statement: its condition, then both branches from it.
pub open spec fn if_trav(t: Trav, nv: NodeView, level: u32, ctx: Ctx) -> Trav
    decreases nv, 0int,
{
    match nv {
        NodeView::IfStatement(c, tb, fb) => match *c {
            CodeView::Block(cn) => {
                let cs = split_seq(cn);
                if !condition_ok(cs) {
                    Trav { ok: false, ..t }
                } else {
                    let chain = chain_of(cs);
                    let s1 = edges_to(condition_state(t.st, cs, level, ctx.source), t.preds, chain[0]);
                    let p = seq![chain.last()];
                    let tt = trav_all(Trav { st: s1, preds: p, ..t }, tb, (level + 1) as u32, ctx);
                    let ft = trav_all(Trav { st: tt.st, preds: p, brs: tt.brs, ok: tt.ok }, fb, (level + 1) as u32, ctx);
                    Trav { preds: tt.preds + ft.preds, ..ft }
                }
            },
            _ => t,
        },
        _ => t,
    }
}

/// The effect of a `do while` statement: the body, the condition, and the
/// body once more from the condition.
pub open spec fn do_while_trav(t: Trav, nv: NodeView, level: u32, ctx: Ctx) -> Trav
    decreases nv, 0int,
{
    match nv {
        NodeView::DoWhileStatement(c, bl) => match *c {
            CodeView::Block(cn) => {
                let t1 = trav_all(Trav { brs: seq![], ..t }, bl, (level + 1) as u32, ctx);
                let p2 = t1.preds + breaker_ids(t1.brs, BreakerType::Continue);
                if p2.len() > 0 {
                    let cs = split_seq(cn);
                    if !condition_ok(cs) {
                        Trav { st: t1.st, preds: p2, brs: t.brs, ok: false }
                    } else {
                        let chain = chain_of(cs);
                        let s2 = edges_to(condition_state(t1.st, cs, level, ctx.source), p2, chain[0]);
                        let p3 = seq![chain.last()];
                        let t3 = trav_all(Trav { st: s2, preds: p3, brs: t1.brs, ok: t1.ok }, bl, (level + 1) as u32, ctx);
                        Trav { st: t3.st, preds: p3 + breaker_ids(t3.brs, BreakerType::Break), brs: t.brs, ok: t3.ok }
                    }
                } else {
                    Trav { st: t1.st, preds: p2 + breaker_ids(t1.brs, BreakerType::Break), brs: t.brs, ok: t1.ok }
                }
            },
            _ => t,
        },
        _ => t,
    }
}

/// The effect of a `while` statement: the condition, the body from it, and
/// the edges back to the condition.
pub open spec fn while_trav(t: Trav, nv: NodeView, level: u32, ctx: Ctx) -> Trav
    decreases nv, 0int,
{
    match nv {
        NodeView::WhileStatement(c, bl) => match *c {
            CodeView::Block(cn) => {
                let cs = split_seq(cn);
                if !condition_ok(cs) {
                    Trav { ok: false, ..t }
                } else {
                    let chain = chain_of(cs);
                    let s1 = edges_to(condition_state(t.st, cs, level, ctx.source), t.preds, chain[0]);
                    let t2 = trav_all(Trav { st: s1, preds: seq![chain.last()], brs: seq![], ok: t.ok }, bl, (level + 1) as u32, ctx);
                    let p3 = t2.preds + breaker_ids(t2.brs, BreakerType::Continue);
                    let s3 = edges_to(t2.st, p3, chain[0]);
                    Trav { st: s3, preds: seq![chain.last()] + breaker_ids(t2.brs, BreakerType::Break), brs: t.brs, ok: t2.ok }
                }
            },
            _ => t,
        },
        _ => t,
    }
}

/// The effect of a `for` statement: its init, then two rounds of condition,
/// body and loop expression.
pub open spec fn for_trav(t: Trav, nv: NodeView, level: u32, ctx: Ctx) -> Trav
    decreases nv, 0int,
{
    match nv {
        NodeView::ForStatement(c, i, e, bl) => {
            let t1 = match *i {
                CodeView::Block(inn) => simple_all(t, split_seq(inn), level, ctx),
                _ => t,
            };
            let (t2, our2, cp2) = for_round(t1, seq![], seq![], *c, *e, bl, level, ctx);
            let (t3, our3, cp3) = for_round(t2, our2, cp2, *c, *e, bl, level, ctx);
            Trav { preds: cp3 + breaker_ids(our3, BreakerType::Break), ..t3 }
        },
        _ => t,
    }
}

/// One round of a `for` loop: the condition, the body and the loop
/// expression. `our` are the breakers of the body so far and `cp` the end of
/// the condition.
pub open spec fn for_round(t: Trav, our: Seq<LoopBreaker>, cp: Seq<u32>, c: CodeView, e: CodeView,
    bl: Seq<CodeView>, level: u32, ctx: Ctx) -> (Trav, Seq<LoopBreaker>, Seq<u32>)
    decreases bl, bl.len() + 2,
{
    let (t1, cp1) = match c {
        CodeView::Block(cn) => {
            let cs = split_seq(cn);
            if !condition_ok(cs) {
                (Trav { ok: false, ..t }, cp)
            } else {
                let chain = chain_of(cs);
                let s1 = edges_to(condition_state(t.st, cs, level, ctx.source), t.preds, chain[0]);
                (Trav { st: s1, preds: seq![chain.last()], ..t }, seq![chain.last()])
            }
        },
        _ => (t, cp),
    };
    let tb = trav_all(Trav { brs: our, ..t1 }, bl, (level + 1) as u32, ctx);
    let p2 = tb.preds + breaker_ids(tb.brs, BreakerType::Continue);
    let t3 = match e {
        CodeView::Block(en) => simple_all(Trav { st: tb.st, preds: p2, brs: t1.brs, ok: tb.ok }, split_seq(en), level, ctx),
        _ => Trav { st: tb.st, preds: p2, brs: t1.brs, ok: tb.ok },
    };
    (t3, tb.brs, cp1)
}

/// The ids of an edge.
pub open spec fn edge_pair(e: Edge) -> (u32, u32) {
    (e.from, e.to)
}

/// Once no node is left to follow, the rest of the blocks change nothing.
pub proof fn lemma_trav_stable(t: Trav, vs: Seq<CodeView>, k: int, m: int, level: u32, ctx: Ctx)
    requires
        0 <= k <= m <= vs.len(),
        trav(t, vs, k, level, ctx).preds.len() == 0,
    ensures
        trav(t, vs, m, level, ctx) == trav(t, vs, k, level, ctx),
    decreases m - k,
{
    if m > k {
        lemma_trav_stable(t, vs, k, m - 1, level, ctx);
        assert(trav(t, vs, k, level, ctx).preds =~= seq![]);
    }
}

/// A list of primitive nodes without an empty one leaves the flag `ok` as it was.
pub proof fn lemma_simple_all_ok(t: Trav, bs: Seq<(SimpleKind, AstNode)>, level: u32, ctx: Ctx)
    requires
        forall|i: int| 0 <= i < bs.len() ==> (#[trigger] bs[i]).0 != SimpleKind::Empty,
    ensures
        (simple_all(t, bs, level, ctx) == Trav { ok: t.ok, ..simple_all(Trav { ok: true, ..t }, bs, level, ctx) }),
{
    lemma_simple_fold_ok(Trav { ok: true, ..t }, bs, bs.len() as int, level, ctx, t.ok);
    assert((Trav { ok: t.ok, ..Trav { ok: true, ..t } }) == t);
}

/// The nodes of a list that `simple_ok` accepts are not empty.
pub proof fn lemma_simple_ok_kinds(bs: Seq<SimpleBlockNode>, source: Seq<char>)
    requires
        simple_ok(bs, source),
    ensures
        forall|i: int| 0 <= i < simple_view(bs).len() ==> (#[trigger] simple_view(bs)[i]).0 != SimpleKind::Empty,
{
    assert forall|i: int| 0 <= i < simple_view(bs).len() implies (#[trigger] simple_view(bs)[i]).0 != SimpleKind::Empty by {
        assert(bs[i].kind() != SimpleKind::Empty);
    }
}

/// The state variables chained from `prev`: a vertex for each of the first
/// `k`, each joined to the one before; and the last id of the chain.
pub open spec fn state_chain(st: FlowState, ss: Seq<(AstNode, Seq<char>)>, k: int, prev: u32) -> (FlowState, u32)
    decreases k,
{
    if k <= 0 {
        (st, prev)
    } else {
        let (s1, p) = state_chain(st, ss, k - 1, prev);
        let n = ss[k - 1].0;
        (with_edge(with_vertex(s1, (n.id, text_of(n, ss[k - 1].1), Shape::Statement, 0)), (p, n.id)), n.id)
    }
}

/// Blocks of code as plain values.
pub open spec fn blocks_view(blocks: Seq<CodeBlock>, source: Seq<char>) -> Seq<CodeView> {
    choose|vs: Seq<CodeView>| codes_match(blocks, vs, source)
}

/// The node of the entry with id `id`.
pub open spec fn entry_node(keys: Seq<(AstNode, Seq<char>)>, id: u32) -> AstNode {
    match entry_of(keys, id) {
        Some((n, _)) => n,
        None => arbitrary(),
    }
}

/// The graph with no vertex and no edge.
pub open spec fn empty_state() -> FlowState {
    FlowState { edges: Set::empty(), vertices: Set::empty(), returns: Map::empty() }
}

/// The traversal of function `f`, read against `source`, from `st`: the entry
/// and exit vertices, the chain of the state variables `states` from the
/// entry, the body of the function from the last of them, and the edges from
/// its ends to the exit.
pub open spec fn start_trav(st: FlowState, start: u32, stop: u32, function_id: u32, f: AstNode, source: Seq<char>,
    states: Seq<(AstNode, Seq<char>)>) -> Trav
{
    let s1 = with_vertex(with_vertex(st, (start, seq![], Shape::Entry, 0)), (stop, seq![], Shape::Entry, 0));
    let (s2, last) = state_chain(s1, states, states.len() as int, start);
    let blocks = match root_view(f) {
        NodeView::Root(vs) => vs,
        _ => seq![],
    };
    let t = trav_all(Trav { st: s2, preds: seq![last], brs: seq![], ok: true }, blocks, 1, Ctx { stop, function_id, source });
    Trav { st: edges_to(t.st, t.preds, stop), ..t }
}

/// The state variables of contract `contract_id` among the entries `keys`.
pub open spec fn state_entries(keys: Seq<(AstNode, Seq<char>)>, sc: SmartContractView, contract_id: u32) -> Seq<(AstNode, Seq<char>)> {
    entries_of(keys, match spec_find(sc, SmartContractQuery::StatesByContractId(contract_id)) {
        Some(ids) => ids,
        None => seq![],
    })
}

/// The graph of function `function_id` of contract `contract_id` built from
/// `st`, given the dictionary entries `keys` and the contracts `sc`; `None`
/// where the build stops: the function has no entry, its vertex ids do not fit
/// in a `u32`, or it holds what is left unimplemented.
pub open spec fn built(st: FlowState, keys: Seq<(AstNode, Seq<char>)>, sc: SmartContractView, contract_id: u32,
    function_id: u32) -> Option<FlowState>
{
    match entry_of(keys, function_id) {
        None => None,
        Some((f, source)) => {
            if function_id * 100000 + 1 > u32::MAX || !root_ok(f) {
                None
            } else {
                let start = (function_id * 100000) as u32;
                let t = start_trav(st, start, (start + 1) as u32, function_id, f, source, state_entries(keys, sc, contract_id));
                if t.ok { Some(t.st) } else { None }
            }
        },
    }
}

/// The number of times `x` occurs in `p`.
pub open spec fn occurrences(p: Seq<u32>, x: u32) -> nat
    decreases p.len(),
{
    if p.len() == 0 {
        0
    } else {
        occurrences(p.drop_last(), x) + if p.last() == x { 1nat } else { 0nat }
    }
}

/// `p` with every `x` left out.
pub open spec fn without_all(p: Seq<u32>, x: u32) -> Seq<u32>
    decreases p.len(),
{
    if p.len() == 0 {
        p
    } else if p.last() == x {
        without_all(p.drop_last(), x)
    } else {
        without_all(p.drop_last(), x).push(p.last())
    }
}

pub proof fn lemma_without_all(p: Seq<u32>, x: u32)
    ensures
        without_all(p, x).len() + occurrences(p, x) == p.len(),
        forall|y: u32| #[trigger] occurrences(without_all(p, x), y) == if y == x { 0 } else { occurrences(p, y) },
        forall|i: int| 0 <= i < without_all(p, x).len() ==> (#[trigger] without_all(p, x)[i]) != x
            && p.contains(without_all(p, x)[i]),
    decreases p.len(),
{
    if p.len() > 0 {
        let q = p.drop_last();
        lemma_without_all(q, x);
        let w = without_all(q, x);
        if p.last() != x {
            assert forall|y: u32| #[trigger] occurrences(without_all(p, x), y) == if y == x { 0 } else { occurrences(p, y) } by {
                assert(without_all(p, x) == w.push(p.last()));
                assert(w.push(p.last()).drop_last() =~= w);
                assert(occurrences(w.push(p.last()), y) == occurrences(w, y) + if p.last() == y { 1nat } else { 0nat });
                assert(occurrences(w, y) == if y == x { 0 } else { occurrences(q, y) });
            }
            assert forall|i: int| 0 <= i < without_all(p, x).len() implies (#[trigger] without_all(p, x)[i]) != x
                && p.contains(without_all(p, x)[i]) by {
                if i < w.len() {
                    let j = choose|j: int| 0 <= j < q.len() && q[j] == w[i];
                    assert(p[j] == w[i]);
                } else {
                    assert(p[p.len() - 1] == p.last());
                }
            }
        } else {
            assert forall|i: int| 0 <= i < without_all(p, x).len() implies (#[trigger] without_all(p, x)[i]) != x
                && p.contains(without_all(p, x)[i]) by {
                let j = choose|j: int| 0 <= j < q.len() && q[j] == w[i];
                assert(p[j] == w[i]);
            }
        }
    }
}

/// A path over `nodes` that holds no node more than twice is at most twice as
/// long as there are nodes.
pub proof fn lemma_path_len(p: Seq<u32>, nodes: Set<u32>)
    requires
        nodes.finite(),
        forall|i: int| 0 <= i < p.len() ==> nodes.contains(#[trigger] p[i]),
        forall|y: u32| #[trigger] occurrences(p, y) <= 2,
    ensures
        p.len() <= 2 * nodes.len(),
    decreases nodes.len(),
{
    if p.len() > 0 {
        let x = p[0];
        lemma_without_all(p, x);
        let w = without_all(p, x);
        assert(nodes.contains(x));
        assert forall|i: int| 0 <= i < w.len() implies nodes.remove(x).contains(#[trigger] w[i]) by {
            assert(w[i] != x);
            let j = choose|j: int| 0 <= j < p.len() && p[j] == w[i];
            assert(nodes.contains(p[j]));
        }
        assert forall|y: u32| #[trigger] occurrences(w, y) <= 2 by {
            assert(occurrences(p, y) <= 2);
        }
        lemma_path_len(w, nodes.remove(x));
        assert(occurrences(p, x) <= 2);
    }
}

/// The targets of the edges from `from`, in edge order.
pub open spec fn targets(es: Seq<Edge>, from: u32) -> Seq<u32>
    decreases es.len(),
{
    if es.len() == 0 {
        seq![]
    } else if es.last().from == from {
        targets(es.drop_last(), from).push(es.last().to)
    } else {
        targets(es.drop_last(), from)
    }
}

/// The ids a path can pass: the start and the targets of the edges.
pub open spec fn path_nodes(es: Seq<Edge>, start: u32) -> Set<u32> {
    es.map_values(|e: Edge| e.to).to_set().insert(start)
}

/// The execution paths that go on from `from` after `path`, depth first along
/// the edges in their order: a path ends at `stop`, and a node already twice on
/// the path is not entered again. The search stops after `fuel` steps; a fuel
/// of twice the number of nodes is never used up.
pub open spec fn paths_from(es: Seq<Edge>, stop: u32, from: u32, path: Seq<u32>, fuel: nat) -> Seq<Seq<u32>>
    decreases fuel, 0int,
{
    if from == stop {
        seq![path.push(from)]
    } else if occurrences(path, from) >= 2 || fuel == 0 {
        seq![]
    } else {
        let next = targets(es, from);
        paths_next(es, stop, next, path.push(from), (fuel - 1) as nat, next.len() as int)
    }
}

/// The execution paths through the first `k` of `next` after `path`.
pub open spec fn paths_next(es: Seq<Edge>, stop: u32, next: Seq<u32>, path: Seq<u32>, fuel: nat, k: int) -> Seq<Seq<u32>>
    decreases fuel, k + 1,
{
    if k <= 0 || k > next.len() {
        seq![]
    } else {
        paths_next(es, stop, next, path, fuel, k - 1) + paths_from(es, stop, next[k - 1], path, fuel)
    }
}

/// The entries of the vertices by id; a later vertex of an id replaces an earlier one.
pub open spec fn vertex_map(vs: Seq<VertexView>) -> Map<u32, VertexView>
    decreases vs.len(),
{
    if vs.len() == 0 {
        Map::empty()
    } else {
        vertex_map(vs.drop_last()).insert(vs.last().0, vs.last())
    }
}

/// Once no node is left to follow, the rest of a list changes nothing.
pub proof fn lemma_simple_fold_stable(t: Trav, bs: Seq<(SimpleKind, AstNode)>, k: int, m: int, level: u32, ctx: Ctx)
    requires
        0 <= k <= m,
        simple_fold(t, bs, k, level, ctx).preds.len() == 0,
    ensures
        simple_fold(t, bs, m, level, ctx) == simple_fold(t, bs, k, level, ctx),
    decreases m - k,
{
    if m > k {
        lemma_simple_fold_stable(t, bs, k, m - 1, level, ctx);
        assert(simple_fold(t, bs, k, level, ctx).preds =~= seq![]);
    }
}

/// A list without an empty node leaves the flag `ok` as it was.
pub proof fn lemma_simple_fold_ok(t: Trav, bs: Seq<(SimpleKind, AstNode)>, k: int, level: u32, ctx: Ctx, ok: bool)
    requires
        k <= bs.len(),
        forall|i: int| 0 <= i < bs.len() ==> (#[trigger] bs[i]).0 != SimpleKind::Empty,
    ensures
        (simple_fold(Trav { ok, ..t }, bs, k, level, ctx) == Trav { ok, ..simple_fold(t, bs, k, level, ctx) }),
    decreases k,
{
    if k > 0 {
        lemma_simple_fold_ok(t, bs, k - 1, level, ctx, ok);
        assert(bs[k - 1].0 != SimpleKind::Empty);
    }
}

/// A guard or a transfer (`require`, `assert`, `transfer`) is no terminator:
/// its vertex gets the edges from the nodes it follows and an edge to the stop
/// vertex, and the traversal goes on from it alone, so the next statement is
/// reached from it. `revert`, `selfdestruct`, `suicide` and `throw` end the
/// path: they lead to the stop vertex and leave nothing to follow; `break` and
/// `continue` leave nothing to follow either, and are kept as loop breakers. A
/// plain statement, call, modifier invocation or index access is entered from
/// each node it follows, and the traversal goes on from it unless every such
/// edge was there already (a loop closed).
pub proof fn law_simple_step_follows(t: Trav, n: AstNode, kind: SimpleKind, level: u32, ctx: Ctx)
    ensures
        kind == SimpleKind::Require || kind == SimpleKind::Assert || kind == SimpleKind::Transfer ==> {
            let r = simple_step(t, (kind, n), level, ctx);
            &&& r.preds == seq![n.id]
            &&& r.st.edges.contains((n.id, ctx.stop))
            &&& forall|i: int| 0 <= i < t.preds.len() ==> r.st.edges.contains((#[trigger] t.preds[i], n.id))
            &&& r.brs == t.brs
        },
        kind == SimpleKind::Revert || kind == SimpleKind::Selfdestruct || kind == SimpleKind::Suicide
            || kind == SimpleKind::Throw ==> {
            let r = simple_step(t, (kind, n), level, ctx);
            &&& r.preds.len() == 0
            &&& r.st.edges.contains((n.id, ctx.stop))
        },
        kind == SimpleKind::Break || kind == SimpleKind::Continue ==> {
            let r = simple_step(t, (kind, n), level, ctx);
            &&& r.preds.len() == 0
            &&& r.brs.len() == t.brs.len() + 1
            &&& r.brs.last().id == n.id
        },
        kind == SimpleKind::Unit || kind == SimpleKind::FunctionCall || kind == SimpleKind::ModifierInvocation
            || kind == SimpleKind::IndexAccess ==> {
            let r = simple_step(t, (kind, n), level, ctx);
            &&& forall|i: int| 0 <= i < t.preds.len() ==> r.st.edges.contains((#[trigger] t.preds[i], n.id))
            &&& r.preds == (if any_new(t.st.edges, t.preds, n.id) { seq![n.id] } else { seq![] })
            &&& r.brs == t.brs
        },
        kind != SimpleKind::Empty ==> simple_step(t, (kind, n), level, ctx).ok == t.ok,
{
    let id = n.id;
    let text = text_of(n, ctx.source);
    lemma_edges_to(with_vertex(t.st, (id, text, Shape::FunctionCall, level)), t.preds, id);
    lemma_edges_to(with_vertex(t.st, (id, text, Shape::Statement, level)), t.preds, id);
    lemma_edges_to(t.st, t.preds, id);
    assert forall|i: int| 0 <= i < t.preds.len() implies t.preds.contains(#[trigger] t.preds[i]) by {}
}

/// A `while` loop: the traversal leaves it from the last node of its condition
/// (and from each `break` of its body), the end of the body and each
/// `continue` lead back to the first node of the condition, and no breaker of
/// the body is left for an enclosing loop.
pub proof fn law_while_loops_back(t: Trav, c: CodeView, bl: Seq<CodeView>, level: u32, ctx: Ctx)
    requires
        c matches CodeView::Block(cn) && condition_ok(split_seq(cn)),
    ensures
        ({
            let cn = c->Block_0;
            let chain = chain_of(split_seq(cn));
            let s1 = edges_to(condition_state(t.st, split_seq(cn), level, ctx.source), t.preds, chain[0]);
            let body = trav_all(Trav { st: s1, preds: seq![chain.last()], brs: seq![], ok: t.ok }, bl,
                (level + 1) as u32, ctx);
            let r = while_trav(t, NodeView::WhileStatement(Box::new(c), bl), level, ctx);
            &&& r.preds.len() > 0 && r.preds[0] == chain.last()
            &&& forall|i: int| 0 <= i < breaker_ids(body.brs, BreakerType::Break).len()
                ==> r.preds.contains(#[trigger] breaker_ids(body.brs, BreakerType::Break)[i])
            &&& forall|i: int| 0 <= i < body.preds.len() ==> r.st.edges.contains((#[trigger] body.preds[i], chain[0]))
            &&& forall|i: int| 0 <= i < breaker_ids(body.brs, BreakerType::Continue).len()
                ==> r.st.edges.contains((#[trigger] breaker_ids(body.brs, BreakerType::Continue)[i], chain[0]))
            &&& r.brs == t.brs
        }),
{
    let cn = c->Block_0;
    let cs = split_seq(cn);
    let chain = chain_of(cs);
    let s1 = edges_to(condition_state(t.st, cs, level, ctx.source), t.preds, chain[0]);
    let body = trav_all(Trav { st: s1, preds: seq![chain.last()], brs: seq![], ok: t.ok }, bl, (level + 1) as u32, ctx);
    let conts = breaker_ids(body.brs, BreakerType::Continue);
    let brks = breaker_ids(body.brs, BreakerType::Break);
    let p3 = body.preds + conts;
    lemma_edges_to(body.st, p3, chain[0]);
    let r = while_trav(t, NodeView::WhileStatement(Box::new(c), bl), level, ctx);
    assert(r.preds == seq![chain.last()] + brks);
    assert(r.preds[0] == chain.last());
    assert forall|i: int| 0 <= i < brks.len() implies r.preds.contains(#[trigger] brks[i]) by {
        assert(r.preds[i + 1] == brks[i]);
    }
    assert forall|i: int| 0 <= i < body.preds.len() implies r.st.edges.contains((#[trigger] body.preds[i], chain[0])) by {
        assert(p3[i] == body.preds[i]);
        assert(p3.contains(body.preds[i]));
    }
    assert forall|i: int| 0 <= i < conts.len() implies r.st.edges.contains((#[trigger] conts[i], chain[0])) by {
        assert(p3[body.preds.len() + i] == conts[i]);
        assert(p3.contains(conts[i]));
    }
}

/// Primitive nodes only add to the graph: every vertex and edge it had stays,
/// the returns are left as they were, and each edge added ends at one of the
/// nodes or at the stop vertex.
pub proof fn law_simple_fold_grows(t: Trav, bs: Seq<(SimpleKind, AstNode)>, k: int, level: u32, ctx: Ctx)
    requires
        k <= bs.len(),
    ensures
        t.st.vertices.subset_of(simple_fold(t, bs, k, level, ctx).st.vertices),
        t.st.edges.subset_of(simple_fold(t, bs, k, level, ctx).st.edges),
        simple_fold(t, bs, k, level, ctx).st.returns == t.st.returns,
        forall|e: (u32, u32)| #[trigger] simple_fold(t, bs, k, level, ctx).st.edges.contains(e) && !t.st.edges.contains(e)
            ==> e.1 == ctx.stop || exists|i: int| 0 <= i < k && e.1 == (#[trigger] bs[i]).1.id,
    decreases k,
{
    if k > 0 {
        law_simple_fold_grows(t, bs, k - 1, level, ctx);
        let t1 = simple_fold(t, bs, k - 1, level, ctx);
        if t1.preds.len() > 0 {
            let (kind, n) = bs[k - 1];
            let id = n.id;
            let text = text_of(n, ctx.source);
            let shape = match kind {
                SimpleKind::Require | SimpleKind::Assert | SimpleKind::Transfer | SimpleKind::Revert
                | SimpleKind::Selfdestruct | SimpleKind::Suicide | SimpleKind::FunctionCall
                | SimpleKind::ModifierInvocation | SimpleKind::IndexAccess => Shape::FunctionCall,
                _ => Shape::Statement,
            };
            lemma_edges_to(with_vertex(t1.st, (id, text, shape, level)), t1.preds, id);
            lemma_edges_to(t1.st, t1.preds, id);
            let t2 = simple_fold(t, bs, k, level, ctx);
            assert forall|e: (u32, u32)| #[trigger] t2.st.edges.contains(e) && !t.st.edges.contains(e)
                implies e.1 == ctx.stop || exists|i: int| 0 <= i < k && e.1 == (#[trigger] bs[i]).1.id by {
                if !t1.st.edges.contains(e) && e.1 != ctx.stop {
                    assert(e.1 == bs[k - 1].1.id);
                } else if t1.st.edges.contains(e) && e.1 != ctx.stop {
                    let i = choose|i: int| 0 <= i < k - 1 && e.1 == (#[trigger] bs[i]).1.id;
                    assert(0 <= i < k);
                }
            }
        }
    }
}

/// The edges of `edges_to(st, preds, id)`: those of `st` and one from each of `preds`.
pub proof fn lemma_edges_to(st: FlowState, preds: Seq<u32>, id: u32)
    ensures
        edges_to(st, preds, id).vertices == st.vertices,
        edges_to(st, preds, id).returns == st.returns,
        forall|e: (u32, u32)| #[trigger] edges_to(st, preds, id).edges.contains(e) <==>
            (st.edges.contains(e) || (e.1 == id && preds.contains(e.0))),
    decreases preds.len(),
{
    if preds.len() > 0 {
        lemma_edges_to(st, preds.drop_last(), id);
        assert forall|e: (u32, u32)| #[trigger] edges_to(st, preds, id).edges.contains(e) <==>
            (st.edges.contains(e) || (e.1 == id && preds.contains(e.0))) by {
            if preds.contains(e.0) && !preds.drop_last().contains(e.0) {
                let j = choose|j: int| 0 <= j < preds.len() && preds[j] == e.0;
                if j < preds.len() - 1 {
                    assert(preds.drop_last()[j] == e.0);
                }
            }
            if preds.drop_last().contains(e.0) {
                let j = choose|j: int| 0 <= j < preds.drop_last().len() && preds.drop_last()[j] == e.0;
                assert(preds[j] == e.0);
            }
            if e == (preds.last(), id) {
                assert(preds[preds.len() - 1] == e.0);
            }
        }
    }
}

/// Control Flow Graph
pub struct ControlFlowGraph<'a> {
    edges: Vec<Edge>,
    vertices: Vec<Vertex>,
    dict: &'a Dictionary<'a>,
    start: u32,
    stop: u32,
    function_id: u32,
    execution_paths: Vec<Vec<u32>>,
    indexes: HashMap<u32, Vec<u32>>,
    fcalls: HashMap<u32, Vec<u32>>,
    returns: HashMap<u32, Vec<u32>>,
    parameters: HashMap<u32, Vec<u32>>,
    /// The source file that the function is read against
    source: Ghost<Seq<char>>,
}

impl<'a> ControlFlowGraph<'a> {
    /// The graph as plain values.
    pub closed spec fn state(&self) -> FlowState {
        FlowState {
            edges: self.edges@.map_values(|e: Edge| edge_pair(e)).to_set(),
            vertices: self.vertices@.map_values(|v: Vertex| v@).to_set(),
            returns: seq_values(self.returns@),
        }
    }

    /// The dictionary the graph is built from.
    pub closed spec fn spec_dict(&self) -> Dictionary<'a> {
        *self.dict
    }

    pub closed spec fn spec_start(&self) -> u32 {
        self.start
    }

    pub closed spec fn spec_stop(&self) -> u32 {
        self.stop
    }

    pub closed spec fn spec_function_id(&self) -> u32 {
        self.function_id
    }

    /// The execution paths found so far.
    pub closed spec fn paths(&self) -> Seq<Seq<u32>> {
        self.execution_paths@.map_values(|p: Vec<u32>| p@)
    }

    /// The edges in the order they were added.
    pub closed spec fn edge_seq(&self) -> Seq<Edge> {
        self.edges@
    }

    /// The vertices in the order they were added.
    pub closed spec fn vertex_seq(&self) -> Seq<VertexView> {
        self.vertices@.map_values(|v: Vertex| v@)
    }

    /// The index accesses of each node, as sequences.
    pub closed spec fn index_map(&self) -> Map<u32, Seq<u32>> {
        seq_values(self.indexes@)
    }

    /// The function calls of each node, as sequences.
    pub closed spec fn fcall_map(&self) -> Map<u32, Seq<u32>> {
        seq_values(self.fcalls@)
    }

    /// The parameters of each function, as sequences.
    pub closed spec fn parameter_map(&self) -> Map<u32, Seq<u32>> {
        seq_values(self.parameters@)
    }

    /// What the graph is built for.
    pub closed spec fn ctx(&self) -> Ctx {
        Ctx { stop: self.stop, function_id: self.function_id, source: self.source@ }
    }

    /// The traversal leads to the exit of the graph, and records returns for
    /// its function.
    pub proof fn lemma_ctx(&self)
        ensures
            self.ctx().stop == self.spec_stop(),
            self.ctx().function_id == self.spec_function_id(),
    {
    }

    /// No edge and no vertex is held twice.
    pub closed spec fn wf(&self) -> bool {
        &&& forall|i: int, j: int| 0 <= i < j < self.edges@.len() ==> self.edges@[i] != self.edges@[j]
        &&& forall|i: int, j: int| 0 <= i < j < self.vertices@.len() ==> self.vertices@[i]@ != self.vertices@[j]@
    }

    /// Everything but the edges, the vertices and the returns is the same.
    pub closed spec fn same_setting(&self, other: &Self) -> bool {
        &&& self.dict == other.dict
        &&& self.start == other.start
        &&& self.stop == other.stop
        &&& self.function_id == other.function_id
        &&& self.source == other.source
        &&& self.execution_paths@ == other.execution_paths@
        &&& self.indexes@ == other.indexes@
        &&& self.fcalls@ == other.fcalls@
        &&& self.parameters@ == other.parameters@
    }

    /// Adds an edge; tells whether it is new.
    #[verifier::loop_isolation(false)]
    fn insert_edge(&mut self, from: u32, to: u32) -> (r: bool)
        requires
            old(self).wf(),
        ensures
            final(self).wf(),
            final(self).state() == with_edge(old(self).state(), (from, to)),
            r == !old(self).state().edges.contains((from, to)),
            final(self).same_setting(old(self)),
    {
        let e = Edge::new(from, to);
        let ghost pairs = self.edges@.map_values(|e: Edge| edge_pair(e));
        let mut i: usize = 0;
        while i < self.edges.len()
            invariant
                i <= self.edges@.len(),
                pairs == self.edges@.map_values(|e: Edge| edge_pair(e)),
                forall|j: int| 0 <= j < i ==> self.edges@[j] != e,
            decreases self.edges@.len() - i,
        {
            if self.edges[i] == e {
                assert(pairs[i as int] == (from, to));
                assert(pairs.contains((from, to)));
                assert(self.state().edges == pairs.to_set());
                assert(self.state().edges.contains((from, to)));
                assert(with_edge(self.state(), (from, to)).edges =~= self.state().edges);
                return false;
            }
            i = i + 1;
        }
        assert(!pairs.contains((from, to))) by {
            if pairs.contains((from, to)) {
                let j = choose|j: int| 0 <= j < pairs.len() && pairs[j] == (from, to);
                assert(self.edges@[j] == e);
            }
        }
        self.edges.push(e);
        assert(self.edges@.map_values(|e: Edge| edge_pair(e)) =~= pairs.push((from, to)));
        proof { pairs.lemma_push_to_set_commute((from, to)); }
        true
    }

    /// Adds a vertex.
    #[verifier::loop_isolation(false)]
    fn insert_vertex(&mut self, v: Vertex)
        requires
            old(self).wf(),
        ensures
            final(self).wf(),
            final(self).state() == with_vertex(old(self).state(), v@),
            final(self).same_setting(old(self)),
    {
        let ghost views = self.vertices@.map_values(|v: Vertex| v@);
        let mut i: usize = 0;
        while i < self.vertices.len()
            invariant
                i <= self.vertices@.len(),
                views == self.vertices@.map_values(|v: Vertex| v@),
                forall|j: int| 0 <= j < i ==> self.vertices@[j]@ != v@,
            decreases self.vertices@.len() - i,
        {
            if self.vertices[i].same(&v) {
                assert(views[i as int] == v@);
                assert(with_vertex(self.state(), v@).vertices =~= self.state().vertices);
                return;
            }
            i = i + 1;
        }
        assert(!views.contains(v@)) by {
            if views.contains(v@) {
                let j = choose|j: int| 0 <= j < views.len() && views[j] == v@;
                assert(self.vertices@[j]@ == v@);
            }
        }
        let ghost vv = v@;
        self.vertices.push(v);
        assert(self.vertices@.map_values(|v: Vertex| v@) =~= views.push(vv));
        proof { views.lemma_push_to_set_commute(vv); }
    }

    /// Adds an edge from each of `preds` to `id`; tells whether any of them is new.
    fn connect(&mut self, preds: &Vec<u32>, id: u32) -> (r: bool)
        requires
            old(self).wf(),
        ensures
            final(self).wf(),
            final(self).state() == edges_to(old(self).state(), preds@, id),
            r == any_new(old(self).state().edges, preds@, id),
            final(self).same_setting(old(self)),
    {
        let ghost st0 = self.state();
        let mut any = false;
        let mut i: usize = 0;
        while i < preds.len()
            invariant
                self.wf(),
                i <= preds@.len(),
                self.state() == edges_to(st0, preds@.take(i as int), id),
                any == exists|j: int| 0 <= j < i && !st0.edges.contains((#[trigger] preds@[j], id)),
                self.same_setting(old(self)),
            decreases preds@.len() - i,
        {
            let ghost before = self.state();
            let p = preds[i];
            proof { lemma_edges_to(st0, preds@.take(i as int), id); }
            let added = self.insert_edge(p, id);
            proof {
                assert(preds@.take(i + 1).drop_last() =~= preds@.take(i as int));
                if !added && !any && !st0.edges.contains((p, id)) {
                    let j = choose|j: int| 0 <= j < i && preds@.take(i as int)[j] == p;
                    assert(preds@[j] == p);
                }
            }
            any = any || added;
            i = i + 1;
        }
        assert(preds@.take(preds@.len() as int) =~= preds@);
        any
    }

    /// The effect of one primitive node.
    fn simple_step_exec(&mut self, block: &SimpleBlockNode<'a>, preds: Vec<u32>, breakers: &mut Vec<LoopBreaker>,
        level: u32) -> (r: Vec<u32>)
        requires
            old(self).wf(),
            block.kind() != SimpleKind::Empty,
            block.walker().tree_wf(),
            block.walker().source@ == old(self).ctx().source,
        ensures
            ({
                let t = simple_step(Trav { st: old(self).state(), preds: preds@, brs: old(breakers)@, ok: true },
                    (block.kind(), block.walker().ast()), level, old(self).ctx());
                &&& final(self).state() == t.st
                &&& r@ == t.preds
                &&& final(breakers)@ == t.brs
            }),
            final(self).wf(),
            final(self).same_setting(old(self)),
    {
        proof { Walker::lemma_wf_fields(block.walker()); }
        match block {
            SimpleBlockNode::Break(walker) | SimpleBlockNode::Continue(walker) => {
                let id = walker.node.id;
                self.insert_vertex(Vertex::new(id, walker.node.source, Shape::Statement, level));
                self.connect(&preds, id);
                let kind = match block {
                    SimpleBlockNode::Break(_) => BreakerType::Break,
                    _ => BreakerType::Continue,
                };
                breakers.push(LoopBreaker { kind, id });
                Vec::new()
            },
            SimpleBlockNode::Require(walker) | SimpleBlockNode::Assert(walker) | SimpleBlockNode::Transfer(walker) => {
                let id = walker.node.id;
                self.insert_vertex(Vertex::new(id, walker.node.source, Shape::FunctionCall, level));
                self.connect(&preds, id);
                let stop = self.stop;
                self.insert_edge(id, stop);
                vec![id]
            },
            SimpleBlockNode::Throw(walker) => {
                let id = walker.node.id;
                self.insert_vertex(Vertex::new(id, walker.node.source, Shape::Statement, level));
                self.connect(&preds, id);
                let stop = self.stop;
                self.insert_edge(id, stop);
                Vec::new()
            },
            SimpleBlockNode::Revert(walker) | SimpleBlockNode::Selfdestruct(walker) | SimpleBlockNode::Suicide(walker) => {
                let id = walker.node.id;
                self.insert_vertex(Vertex::new(id, walker.node.source, Shape::FunctionCall, level));
                self.connect(&preds, id);
                let stop = self.stop;
                self.insert_edge(id, stop);
                Vec::new()
            },
            SimpleBlockNode::Unit(walker) => {
                let id = walker.node.id;
                if self.connect(&preds, id) {
                    self.insert_vertex(Vertex::new(id, walker.node.source, Shape::Statement, level));
                    vec![id]
                } else {
                    Vec::new()
                }
            },
            SimpleBlockNode::FunctionCall(walker) | SimpleBlockNode::ModifierInvocation(walker)
            | SimpleBlockNode::IndexAccess(walker) => {
                let id = walker.node.id;
                if self.connect(&preds, id) {
                    self.insert_vertex(Vertex::new(id, walker.node.source, Shape::FunctionCall, level));
                    vec![id]
                } else {
                    Vec::new()
                }
            },
            SimpleBlockNode::Empty => preds,
        }
    }

    /// Traverse a list of SimpleBlockNode
    #[verifier::loop_isolation(false)]
    pub fn simple_traverse(&mut self, blocks: &Vec<SimpleBlockNode<'a>>, predecessors: Vec<u32>,
        breakers: &mut Vec<LoopBreaker>, level: u32) -> (r: Vec<u32>)
        requires
            old(self).wf(),
            simple_ok(blocks@, old(self).ctx().source),
        ensures
            ({
                let t = simple_all(Trav { st: old(self).state(), preds: predecessors@, brs: old(breakers)@, ok: true },
                    simple_view(blocks@), level, old(self).ctx());
                &&& final(self).state() == t.st
                &&& r@ == t.preds
                &&& final(breakers)@ == t.brs
                &&& t.ok
            }),
            final(self).wf(),
            final(self).same_setting(old(self)),
    {
        let ghost vs = simple_view(blocks@);
        let ghost ctx = self.ctx();
        let ghost t0 = Trav { st: self.state(), preds: predecessors@, brs: breakers@, ok: true };
        let mut preds = predecessors;
        let mut i: usize = 0;
        while i < blocks.len()
            invariant
                self.wf(),
                i <= blocks@.len(),
                ctx == self.ctx(),
                self.same_setting(old(self)),
                ({
                    let t = simple_fold(t0, vs, i as int, level, ctx);
                    &&& self.state() == t.st
                    &&& preds@ == t.preds
                    &&& breakers@ == t.brs
                    &&& t.ok
                }),
            decreases blocks@.len() - i,
        {
            if preds.len() == 0 {
                proof { lemma_simple_fold_stable(t0, vs, i as int, vs.len() as int, level, ctx); }
                return Vec::new();
            }
            assert(vs[i as int] == (blocks@[i as int].kind(), blocks@[i as int].walker().ast()));
            preds = self.simple_step_exec(&blocks[i], preds, breakers, level);
            i = i + 1;
        }
        preds
    }

    /// Whether a condition can be traversed: see `condition_ok`.
    fn condition_fits(blocks: &Vec<SimpleBlockNode<'a>>) -> (r: bool)
        ensures
            r == condition_ok(simple_view(blocks@)),
    {
        let ghost vs = simple_view(blocks@);
        if blocks.len() == 0 {
            return false;
        }
        let mut i: usize = 0;
        while i < blocks.len()
            invariant
                i <= blocks@.len(),
                vs == simple_view(blocks@),
                forall|j: int| 0 <= j < i ==> (#[trigger] condition_shape(vs[j].0)) is Some,
            decreases blocks@.len() - i,
        {
            match &blocks[i] {
                SimpleBlockNode::FunctionCall(_) | SimpleBlockNode::IndexAccess(_) | SimpleBlockNode::Unit(_) => {},
                _ => {
                    assert(condition_shape(vs[i as int].0) is None);
                    return false;
                },
            }
            i = i + 1;
        }
        true
    }

    /// Traverse comparison nodes in IfStatement, WhileStatement, DoWhileStatement
    ///
    /// Build a list of nested function calls and connect them toghether
    pub fn condition_traverse(&mut self, blocks: &Vec<SimpleBlockNode<'a>>, level: u32) -> (r: Vec<u32>)
        requires
            old(self).wf(),
            simple_ok(blocks@, old(self).ctx().source),
            condition_ok(simple_view(blocks@)),
        ensures
            final(self).state() == condition_state(old(self).state(), simple_view(blocks@), level, old(self).ctx().source),
            r@ == chain_of(simple_view(blocks@)),
            final(self).wf(),
            final(self).same_setting(old(self)),
    {
        let ghost vs = simple_view(blocks@);
        let ghost src = self.ctx().source;
        let ghost st0 = self.state();
        let mut chains: Vec<u32> = Vec::new();
        let mut i: usize = 0;
        while i < blocks.len()
            invariant
                self.wf(),
                i <= blocks@.len(),
                vs == simple_view(blocks@),
                simple_ok(blocks@, src),
                condition_ok(vs),
                src == self.ctx().source,
                self.same_setting(old(self)),
                self.state() == condition_vertices(st0, vs, i as int, level, src),
                chains@ == chain_of(vs).take(i as int),
            decreases blocks@.len() - i,
        {
            let block = &blocks[i];
            proof {
                assert(condition_shape(vs[i as int].0) is Some);
                assert(simple_ok(blocks@, src));
                assert(block.walker().tree_wf());
                Walker::lemma_wf_fields(block.walker());
            }
            let (walker, shape) = match block {
                SimpleBlockNode::FunctionCall(w) => (w, Shape::ConditionAndFunctionCall),
                SimpleBlockNode::IndexAccess(w) => (w, Shape::ConditionAndIndexAccess),
                SimpleBlockNode::Unit(w) => (w, Shape::RootCondition),
                _ => {
                    assert(false);
                    return Vec::new();
                },
            };
            let id = walker.node.id;
            self.insert_vertex(Vertex::new(id, walker.node.source, shape, level));
            chains.push(id);
            assert(chain_of(vs).take(i + 1) =~= chain_of(vs).take(i as int).push(id));
            i = i + 1;
        }
        assert(chains@ =~= chain_of(vs));
        let ghost st1 = self.state();
        let mut k: usize = 0;
        while k < chains.len() - 1
            invariant
                self.wf(),
                chains@ == chain_of(vs),
                chains@.len() == vs.len(),
                vs.len() > 0,
                k + 1 <= chains@.len(),
                self.same_setting(old(self)),
                self.state() == chain_edges(st1, chain_of(vs), k as int),
            decreases chains@.len() - k,
        {
            self.insert_edge(chains[k], chains[k + 1]);
            k = k + 1;
        }
        chains
    }

    /// The traversal that starts from this graph.
    pub closed spec fn at(&self, preds: Seq<u32>, brs: Seq<LoopBreaker>, ok: bool) -> Trav {
        Trav { st: self.state(), preds, brs, ok }
    }

    /// This graph, `preds`, `brs` and `ok` are where `t` stands.
    pub closed spec fn reached(&self, t: Trav, preds: Seq<u32>, brs: Seq<LoopBreaker>, ok: bool) -> bool {
        &&& self.state() == t.st
        &&& preds == t.preds
        &&& brs == t.brs
        &&& ok == t.ok
    }

    /// Traverses primitive nodes, keeping the flag `ok`.
    fn run_simple(&mut self, blocks: &Vec<SimpleBlockNode<'a>>, preds: Vec<u32>, breakers: &mut Vec<LoopBreaker>,
        level: u32, Ghost(ok): Ghost<bool>) -> (r: Vec<u32>)
        requires
            old(self).wf(),
            simple_ok(blocks@, old(self).ctx().source),
        ensures
            final(self).reached(simple_all(old(self).at(preds@, old(breakers)@, ok), simple_view(blocks@), level,
                old(self).ctx()), r@, final(breakers)@, ok),
            final(self).wf(),
            final(self).same_setting(old(self)),
    {
        proof {
            lemma_simple_ok_kinds(blocks@, self.ctx().source);
            lemma_simple_all_ok(self.at(preds@, breakers@, ok), simple_view(blocks@), level, self.ctx());
        }
        self.simple_traverse(blocks, preds, breakers, level)
    }

    /// Splits the statement of `walker` and traverses the parts, keeping the flag `ok`.
    fn run_block(&mut self, walker: Walker<'a>, preds: Vec<u32>, breakers: &mut Vec<LoopBreaker>, level: u32,
        Ghost(ok): Ghost<bool>) -> (r: Vec<u32>)
        requires
            old(self).wf(),
            walker.tree_wf(),
            walker.source@ == old(self).ctx().source,
        ensures
            final(self).reached(simple_all(old(self).at(preds@, old(breakers)@, ok), split_seq(walker.ast()), level,
                old(self).ctx()), r@, final(breakers)@, ok),
            final(self).wf(),
            final(self).same_setting(old(self)),
    {
        let splitter = Splitter::new();
        let parts = splitter.split(walker);
        proof { lemma_simple_reads_view(parts@, split_seq(walker.ast()), walker.source@); }
        self.run_simple(&parts, preds, breakers, level, Ghost(ok))
    }

    /// Appends the ids of the breakers of kind `kind`.
    fn push_breakers(v: &mut Vec<u32>, brs: &Vec<LoopBreaker>, kind: BreakerType)
        ensures
            final(v)@ == old(v)@ + breaker_ids(brs@, kind),
    {
        let mut i: usize = 0;
        while i < brs.len()
            invariant
                i <= brs@.len(),
                v@ == old(v)@ + breaker_ids(brs@.take(i as int), kind),
            decreases brs@.len() - i,
        {
            assert(brs@.take(i + 1).drop_last() =~= brs@.take(i as int));
            if brs[i].kind == kind {
                v.push(brs[i].id);
            }
            i = i + 1;
        }
        assert(brs@.take(brs@.len() as int) =~= brs@);
    }

    /// Traverses the blocks `vs`, clearing `ok` where the traversal hits what is
    /// left unimplemented.
    #[verifier::loop_isolation(false)]
    fn traverse_views(&mut self, blocks: &Vec<CodeBlock<'a>>, predecessors: Vec<u32>, breakers: &mut Vec<LoopBreaker>,
        level: u32, ok: &mut bool, Ghost(vs): Ghost<Seq<CodeView>>) -> (r: Vec<u32>)
        requires
            old(self).wf(),
            codes_match(blocks@, vs, old(self).ctx().source),
        ensures
            final(self).reached(trav_all(old(self).at(predecessors@, old(breakers)@, *old(ok)), vs, level,
                old(self).ctx()), r@, final(breakers)@, *final(ok)),
            final(self).wf(),
            final(self).same_setting(old(self)),
        decreases vs, 0int,
    {
        let ghost ctx = self.ctx();
        let ghost t0 = self.at(predecessors@, breakers@, *ok);
        let mut preds = predecessors;
        let mut i: usize = 0;
        while i < blocks.len()
            invariant
                self.wf(),
                i <= blocks@.len(),
                blocks@.len() == vs.len(),
                ctx == self.ctx(),
                self.same_setting(old(self)),
                self.reached(trav(t0, vs, i as int, level, ctx), preds@, breakers@, *ok),
            decreases blocks@.len() - i,
        {
            if preds.len() == 0 {
                proof {
                    lemma_trav_stable(t0, vs, i as int, vs.len() as int, level, ctx);
                    assert(trav(t0, vs, i as int, level, ctx).preds =~= Seq::<u32>::empty());
                }
                return Vec::new();
            }
            proof {
                assert(code_matches(blocks@[i as int], vs[i as int], ctx.source));
                assert(decreases_to!(vs => vs[i as int]));
            }
            preds = self.step_exec(&blocks[i], preds, breakers, level, ok, Ghost(vs[i as int]));
            i = i + 1;
        }
        preds
    }

    /// The effect of one block.
    fn step_exec(&mut self, block: &CodeBlock<'a>, preds: Vec<u32>, breakers: &mut Vec<LoopBreaker>, level: u32,
        ok: &mut bool, Ghost(v): Ghost<CodeView>) -> (r: Vec<u32>)
        requires
            old(self).wf(),
            code_matches(*block, v, old(self).ctx().source),
        ensures
            final(self).reached(trav_step(old(self).at(preds@, old(breakers)@, *old(ok)), v, level, old(self).ctx()),
                r@, final(breakers)@, *final(ok)),
            final(self).wf(),
            final(self).same_setting(old(self)),
        decreases v, 2int,
    {
        let ghost ok0 = *ok;
        match block {
            CodeBlock::Block(walker) => {
                self.run_block(*walker, preds, breakers, level, Ghost(ok0))
            },
            CodeBlock::SimpleBlocks(bs) => {
                proof {
                    let vs = match v { CodeView::SimpleBlocks(vs) => vs, _ => arbitrary() };
                    lemma_simple_reads_view(bs@, vs, self.ctx().source);
                }
                self.run_simple(bs, preds, breakers, level, Ghost(ok0))
            },
            CodeBlock::Link(link) => {
                let ghost nv = match v { CodeView::Link(nv) => *nv, _ => arbitrary() };
                proof { assert(decreases_to!(v => nv)); }
                self.link_step(&**link, preds, breakers, level, ok, Ghost(nv))
            },
            CodeBlock::Empty => {
                *ok = false;
                preds
            },
        }
    }

    /// The effect of one compound node.
    fn link_step(&mut self, node: &BlockNode<'a>, preds: Vec<u32>, breakers: &mut Vec<LoopBreaker>, level: u32,
        ok: &mut bool, Ghost(nv): Ghost<NodeView>) -> (r: Vec<u32>)
        requires
            old(self).wf(),
            node_matches(*node, nv, old(self).ctx().source),
        ensures
            final(self).reached(node_step(old(self).at(preds@, old(breakers)@, *old(ok)), nv, level, old(self).ctx()),
                r@, final(breakers)@, *final(ok)),
            final(self).wf(),
            final(self).same_setting(old(self)),
        decreases nv, 2int,
    {
        let is_return = match node {
            BlockNode::ReturnStatement(_) => true,
            _ => false,
        };
        if level == u32::MAX && !is_return {
            *ok = false;
            return preds;
        }
        match node {
            BlockNode::IfStatement(_) => self.if_step(node, preds, breakers, level, ok, Ghost(nv)),
            BlockNode::WhileStatement(_) => self.while_step(node, preds, breakers, level, ok, Ghost(nv)),
            BlockNode::DoWhileStatement(_) => self.do_while_step(node, preds, breakers, level, ok, Ghost(nv)),
            BlockNode::ForStatement(_) => self.for_step(node, preds, breakers, level, ok, Ghost(nv)),
            BlockNode::ReturnStatement(s) => {
                match &s.body {
                    CodeBlock::Block(walker) => {
                        let id = walker.node.id;
                        proof { Walker::lemma_wf_fields(*walker); }
                        self.add_return(id);
                        let ghost ok0 = *ok;
                        let p = self.run_block(*walker, preds, breakers, level, Ghost(ok0));
                        let stop = self.stop;
                        self.connect(&p, stop);
                        Vec::new()
                    },
                    _ => Vec::new(),
                }
            },
            BlockNode::Root(_) | BlockNode::Empty => {
                *ok = false;
                preds
            },
        }
    }

    /// The effect of an `if` statement.
    fn if_step(&mut self, node: &BlockNode<'a>, preds: Vec<u32>, breakers: &mut Vec<LoopBreaker>, level: u32,
        ok: &mut bool, Ghost(nv): Ghost<NodeView>) -> (r: Vec<u32>)
        requires
            old(self).wf(),
            node_matches(*node, nv, old(self).ctx().source),
            nv is IfStatement,
            level < u32::MAX,
        ensures
            final(self).reached(if_trav(old(self).at(preds@, old(breakers)@, *old(ok)), nv, level, old(self).ctx()),
                r@, final(breakers)@, *final(ok)),
            final(self).wf(),
            final(self).same_setting(old(self)),
        decreases nv, 1int,
    {
        let ghost (c, tb, fb) = match nv { NodeView::IfStatement(c, tb, fb) => (*c, tb, fb), _ => arbitrary() };
        match node {
            BlockNode::IfStatement(s) => {
                match &s.condition {
                    CodeBlock::Block(walker) => {
                        let splitter = Splitter::new();
                        let parts = splitter.split(*walker);
                        proof { lemma_simple_reads_view(parts@, split_seq(walker.ast()), walker.source@); }
                        if !Self::condition_fits(&parts) {
                            *ok = false;
                            return preds;
                        }
                        let chains = self.condition_traverse(&parts, level);
                        let first = chains[0];
                        let last = chains[chains.len() - 1];
                        self.connect(&preds, first);
                        proof {
                            assert(decreases_to!(nv => tb));
                            assert(decreases_to!(nv => fb));
                        }
                        let p1 = vec![last];
                        let p2 = vec![last];
                        assert(p1@ =~= seq![last] && p2@ =~= seq![last]);
                        let mut t = self.traverse_views(&s.tblocks, p1, breakers, level + 1, ok, Ghost(tb));
                        let mut f = self.traverse_views(&s.fblocks, p2, breakers, level + 1, ok, Ghost(fb));
                        t.append(&mut f);
                        t
                    },
                    _ => preds,
                }
            },
            _ => preds,
        }
    }

    /// The effect of a `while` statement.
    fn while_step(&mut self, node: &BlockNode<'a>, preds: Vec<u32>, breakers: &mut Vec<LoopBreaker>, level: u32,
        ok: &mut bool, Ghost(nv): Ghost<NodeView>) -> (r: Vec<u32>)
        requires
            old(self).wf(),
            node_matches(*node, nv, old(self).ctx().source),
            nv is WhileStatement,
            level < u32::MAX,
        ensures
            final(self).reached(while_trav(old(self).at(preds@, old(breakers)@, *old(ok)), nv, level, old(self).ctx()),
                r@, final(breakers)@, *final(ok)),
            final(self).wf(),
            final(self).same_setting(old(self)),
        decreases nv, 1int,
    {
        let ghost (c, bl) = match nv { NodeView::WhileStatement(c, bl) => (*c, bl), _ => arbitrary() };
        match node {
            BlockNode::WhileStatement(s) => {
                match &s.condition {
                    CodeBlock::Block(walker) => {
                        let splitter = Splitter::new();
                        let parts = splitter.split(*walker);
                        proof { lemma_simple_reads_view(parts@, split_seq(walker.ast()), walker.source@); }
                        if !Self::condition_fits(&parts) {
                            *ok = false;
                            return preds;
                        }
                        let chains = self.condition_traverse(&parts, level);
                        let first = chains[0];
                        let last = chains[chains.len() - 1];
                        self.connect(&preds, first);
                        proof { assert(decreases_to!(nv => bl)); }
                        let mut ours: Vec<LoopBreaker> = Vec::new();
                        let p1 = vec![last];
                        assert(p1@ =~= seq![last]);
                        let mut p = self.traverse_views(&s.blocks, p1, &mut ours, level + 1, ok, Ghost(bl));
                        Self::push_breakers(&mut p, &ours, BreakerType::Continue);
                        self.connect(&p, first);
                        let mut out = vec![last];
                        Self::push_breakers(&mut out, &ours, BreakerType::Break);
                        out
                    },
                    _ => preds,
                }
            },
            _ => preds,
        }
    }

    /// The effect of a `do while` statement.
    fn do_while_step(&mut self, node: &BlockNode<'a>, preds: Vec<u32>, breakers: &mut Vec<LoopBreaker>, level: u32,
        ok: &mut bool, Ghost(nv): Ghost<NodeView>) -> (r: Vec<u32>)
        requires
            old(self).wf(),
            node_matches(*node, nv, old(self).ctx().source),
            nv is DoWhileStatement,
            level < u32::MAX,
        ensures
            final(self).reached(do_while_trav(old(self).at(preds@, old(breakers)@, *old(ok)), nv, level, old(self).ctx()),
                r@, final(breakers)@, *final(ok)),
            final(self).wf(),
            final(self).same_setting(old(self)),
        decreases nv, 1int,
    {
        let ghost (c, bl) = match nv { NodeView::DoWhileStatement(c, bl) => (*c, bl), _ => arbitrary() };
        match node {
            BlockNode::DoWhileStatement(s) => {
                match &s.condition {
                    CodeBlock::Block(walker) => {
                        proof { assert(decreases_to!(nv => bl)); }
                        let mut ours: Vec<LoopBreaker> = Vec::new();
                        let mut p = self.traverse_views(&s.blocks, preds, &mut ours, level + 1, ok, Ghost(bl));
                        Self::push_breakers(&mut p, &ours, BreakerType::Continue);
                        if p.len() > 0 {
                            let splitter = Splitter::new();
                            let parts = splitter.split(*walker);
                            proof { lemma_simple_reads_view(parts@, split_seq(walker.ast()), walker.source@); }
                            if !Self::condition_fits(&parts) {
                                *ok = false;
                                return p;
                            }
                            let chains = self.condition_traverse(&parts, level);
                            let first = chains[0];
                            let last = chains[chains.len() - 1];
                            self.connect(&p, first);
                            let p1 = vec![last];
                            assert(p1@ =~= seq![last]);
                            let _ = self.traverse_views(&s.blocks, p1, &mut ours, level + 1, ok, Ghost(bl));
                            let mut out = vec![last];
                            assert(out@ =~= seq![last]);
                            Self::push_breakers(&mut out, &ours, BreakerType::Break);
                            out
                        } else {
                            Self::push_breakers(&mut p, &ours, BreakerType::Break);
                            p
                        }
                    },
                    _ => preds,
                }
            },
            _ => preds,
        }
    }

    /// The effect of a `for` statement: its init, then two rounds of condition,
    /// body and loop expression.
    fn for_step(&mut self, node: &BlockNode<'a>, preds: Vec<u32>, breakers: &mut Vec<LoopBreaker>, level: u32,
        ok: &mut bool, Ghost(nv): Ghost<NodeView>) -> (r: Vec<u32>)
        requires
            old(self).wf(),
            node_matches(*node, nv, old(self).ctx().source),
            nv is ForStatement,
            level < u32::MAX,
        ensures
            final(self).reached(for_trav(old(self).at(preds@, old(breakers)@, *old(ok)), nv, level, old(self).ctx()),
                r@, final(breakers)@, *final(ok)),
            final(self).wf(),
            final(self).same_setting(old(self)),
        decreases nv, 1int,
    {
        let ghost (c, iv, e, bl) = match nv { NodeView::ForStatement(c, i, e, bl) => (*c, *i, *e, bl), _ => arbitrary() };
        match node {
            BlockNode::ForStatement(s) => {
                let ghost ok0 = *ok;
                let p = match &s.init {
                    CodeBlock::Block(walker) => self.run_block(*walker, preds, breakers, level, Ghost(ok0)),
                    _ => preds,
                };
                let mut ours: Vec<LoopBreaker> = Vec::new();
                let mut cond: Vec<u32> = Vec::new();
                proof { assert(decreases_to!(nv => bl)); }
                let p = self.for_round(s, p, &mut ours, &mut cond, breakers, level, ok, Ghost(c), Ghost(e), Ghost(bl));
                let _ = self.for_round(s, p, &mut ours, &mut cond, breakers, level, ok, Ghost(c), Ghost(e), Ghost(bl));
                Self::push_breakers(&mut cond, &ours, BreakerType::Break);
                cond
            },
            _ => preds,
        }
    }

    /// One round of a `for` loop: the condition, the body and the loop expression.
    fn for_round(&mut self, s: &ForStatement<'a>, preds: Vec<u32>, ours: &mut Vec<LoopBreaker>, cond: &mut Vec<u32>,
        breakers: &mut Vec<LoopBreaker>, level: u32, ok: &mut bool, Ghost(c): Ghost<CodeView>, Ghost(e): Ghost<CodeView>,
        Ghost(bl): Ghost<Seq<CodeView>>) -> (r: Vec<u32>)
        requires
            old(self).wf(),
            code_matches(s.condition, c, old(self).ctx().source),
            code_matches(s.expression, e, old(self).ctx().source),
            codes_match(s.blocks@, bl, old(self).ctx().source),
            level < u32::MAX,
        ensures
            ({
                let (t, our, cp) = for_round(old(self).at(preds@, old(breakers)@, *old(ok)), old(ours)@, old(cond)@,
                    c, e, bl, level, old(self).ctx());
                &&& final(self).reached(t, r@, final(breakers)@, *final(ok))
                &&& final(ours)@ == our
                &&& final(cond)@ == cp
            }),
            final(self).wf(),
            final(self).same_setting(old(self)),
        decreases bl, 1int,
    {
        let mut p = preds;
        match &s.condition {
            CodeBlock::Block(walker) => {
                let splitter = Splitter::new();
                let parts = splitter.split(*walker);
                proof { lemma_simple_reads_view(parts@, split_seq(walker.ast()), walker.source@); }
                if !Self::condition_fits(&parts) {
                    *ok = false;
                } else {
                    let chains = self.condition_traverse(&parts, level);
                    let first = chains[0];
                    let last = chains[chains.len() - 1];
                    self.connect(&p, first);
                    p = vec![last];
                    *cond = vec![last];
                    assert(p@ =~= seq![last] && cond@ =~= seq![last]);
                }
            },
            _ => {},
        }
        let ghost ob = *breakers;
        let mut q = self.traverse_views(&s.blocks, p, ours, level + 1, ok, Ghost(bl));
        Self::push_breakers(&mut q, ours, BreakerType::Continue);
        let ghost ok1 = *ok;
        match &s.expression {
            CodeBlock::Block(walker) => self.run_block(*walker, q, breakers, level, Ghost(ok1)),
            _ => q,
        }
    }

    /// Build a cfg, the cfg starts at FunctionDefinition, ModifierDefinition `entry_id`
    ///
    /// Tells whether the build went through; where it does not, the graph is
    /// left incomplete.
    pub fn start_at(&mut self, contract_id: u32, function_id: u32) -> (r: bool)
        requires
            old(self).wf(),
            old(self).spec_dict().wf(),
        ensures
            final(self).wf(),
            final(self).spec_dict() == old(self).spec_dict(),
            final(self).paths() == old(self).paths(),
            final(self).index_map() == old(self).index_map(),
            final(self).fcall_map() == old(self).fcall_map(),
            r == built(old(self).state(), old(self).spec_dict().keys(), old(self).spec_dict().smart_contract@, contract_id,
                function_id) is Some,
            r ==> {
                &&& final(self).state() == built(old(self).state(), old(self).spec_dict().keys(),
                    old(self).spec_dict().smart_contract@, contract_id, function_id)->0
                &&& final(self).spec_start() == function_id * 100000
                &&& final(self).spec_stop() == function_id * 100000 + 1
                &&& final(self).spec_function_id() == function_id
                &&& final(self).parameter_map() == old(self).parameter_map().insert(function_id,
                    spec_parameters(entry_node(old(self).spec_dict().keys(), function_id)))
            },
    {
        let dict = self.dict;
        let start = match function_id.checked_mul(100000) {
            Some(s) => s,
            None => return false,
        };
        let stop = match start.checked_add(1) {
            Some(s) => s,
            None => return false,
        };
        let walker = match dict.walker_at(function_id) {
            Some(w) => *w,
            None => return false,
        };
        if !Graph::buildable(&walker) {
            return false;
        }
        let ghost st0 = self.state();
        let ghost f = walker.ast();
        let ghost states = state_entries(dict.keys(), dict.smart_contract@, contract_id);
        self.start = start;
        self.stop = stop;
        self.function_id = function_id;
        self.source = Ghost(walker.source@);
        let mut graph = Graph::new(walker);
        let root = graph.update();
        let found = dict.find_walkers(SmartContractQuery::StatesByContractId(contract_id));
        proof { reveal_strlit(""); }
        match root {
            BlockNode::Root(blocks) => {
                self.insert_vertex(Vertex::new(start, "", Shape::Entry, 0));
                self.insert_vertex(Vertex::new(stop, "", Shape::Entry, 0));
                let ghost s1 = self.state();
                assert(""@ =~= Seq::<char>::empty());
                assert(s1 == with_vertex(with_vertex(st0, (start, seq![], Shape::Entry, 0)), (stop, seq![], Shape::Entry, 0)));
                let ghost g0 = *self;
                let mut last = start;
                let mut i: usize = 0;
                while i < found.len()
                    invariant
                        self.wf(),
                        i <= found@.len(),
                        found@.map_values(|w: &Walker| key_of(*w)) == states,
                        forall|j: int| 0 <= j < found@.len() ==> (#[trigger] found@[j]).tree_wf(),
                        (self.state(), last) == state_chain(s1, states, i as int, start),
                        self.same_setting(&g0),
                    decreases found@.len() - i,
                {
                    let cur = found[i];
                    proof {
                        assert(states[i as int] == key_of(*cur));
                        Walker::lemma_wf_fields(*cur);
                    }
                    let id = cur.node.id;
                    self.insert_vertex(Vertex::new(id, cur.node.source, Shape::Statement, 0));
                    self.insert_edge(last, id);
                    last = id;
                    i = i + 1;
                }
                let mut ok = true;
                let mut brs: Vec<LoopBreaker> = Vec::new();
                let p1 = vec![last];
                assert(p1@ =~= seq![last]);
                let ghost vs = match root_view(f) { NodeView::Root(vs) => vs, _ => seq![] };
                assert(codes_match(blocks@, vs, self.ctx().source));
                assert(self.ctx() == Ctx { stop, function_id, source: walker.source@ });
                assert(state_chain(s1, states, states.len() as int, start) == (self.state(), last));
                let preds = self.traverse_views(blocks, p1, &mut brs, 1, &mut ok, Ghost(vs));
                self.connect(&preds, stop);
                assert(self.state() == start_trav(st0, start, stop, function_id, f, walker.source@, states).st);
                assert(entry_of(dict.keys(), function_id) == Some((f, walker.source@)));
                let params = copy_ids(graph.get_parameters());
                let ghost pv = params@;
                self.parameters.insert(function_id, params);
                assert(seq_values(self.parameters@) =~= seq_values(old(self).parameters@).insert(function_id, pv));
                ok
            },
            _ => false,
        }
    }

    /// Create a new cfg from dictionary; `None` where the build stops (see `built`).
    pub fn new(dict: &'a Dictionary<'a>, contract_id: u32, function_id: u32) -> (r: Option<ControlFlowGraph<'a>>)
        requires
            dict.wf(),
        ensures
            r is Some == built(empty_state(), dict.keys(), dict.smart_contract@, contract_id, function_id) is Some,
            r matches Some(g) ==> {
                &&& g.wf()
                &&& g.spec_dict() == *dict
                &&& g.state() == built(empty_state(), dict.keys(), dict.smart_contract@, contract_id, function_id)->0
                &&& g.spec_start() == function_id * 100000
                &&& g.spec_stop() == function_id * 100000 + 1
                &&& g.spec_function_id() == function_id
                &&& g.parameter_map() == map![function_id => spec_parameters(entry_node(dict.keys(), function_id))]
                &&& g.index_map() == Map::<u32, Seq<u32>>::empty()
                &&& g.fcall_map() == Map::<u32, Seq<u32>>::empty()
                &&& g.paths() == paths_from(g.edge_seq(), g.spec_stop(), g.spec_start(), seq![],
                    2 * path_nodes(g.edge_seq(), g.spec_start()).len())
            },
    {
        let mut cfg = ControlFlowGraph {
            edges: Vec::new(),
            vertices: Vec::new(),
            execution_paths: Vec::new(),
            indexes: HashMap::new(),
            fcalls: HashMap::new(),
            returns: HashMap::new(),
            parameters: HashMap::new(),
            dict,
            start: 0,
            stop: 0,
            function_id: 0,
            source: Ghost(Seq::empty()),
        };
        assert(cfg.state() == empty_state()) by {
            assert(cfg.state().edges =~= Set::empty());
            assert(cfg.state().vertices =~= Set::empty());
            assert(cfg.state().returns =~= Map::empty());
        }
        assert(cfg.parameter_map() =~= Map::empty());
        assert(cfg.index_map() =~= Map::empty());
        assert(cfg.fcall_map() =~= Map::empty());
        if !cfg.start_at(contract_id, function_id) {
            return None;
        }
        let ghost nodes = path_nodes(cfg.edges@, cfg.start);
        proof {
            broadcast use vstd::seq_lib::seq_to_set_is_finite;
            assert forall|i: int| 0 <= i < cfg.edges@.len() implies nodes.contains(cfg.edges@[i].to) by {
                assert(cfg.edges@.map_values(|e: Edge| e.to)[i] == cfg.edges@[i].to);
            }
            assert(cfg.paths() =~= Seq::empty());
        }
        let start = cfg.start;
        cfg.update_execution_paths(start, Vec::new(), Ghost(nodes), Ghost(2 * nodes.len()));
        assert(cfg.paths() =~= paths_from(cfg.edges@, cfg.stop, cfg.start, seq![], 2 * nodes.len()));
        Some(cfg)
    }

    /// Everything but the execution paths is the same.
    pub closed spec fn same_graph(&self, other: &Self) -> bool {
        &&& self.edges@ == other.edges@
        &&& self.vertices@ == other.vertices@
        &&& self.dict == other.dict
        &&& self.start == other.start
        &&& self.stop == other.stop
        &&& self.function_id == other.function_id
        &&& self.source == other.source
        &&& self.indexes@ == other.indexes@
        &&& self.fcalls@ == other.fcalls@
        &&& self.returns@ == other.returns@
        &&& self.parameters@ == other.parameters@
    }

    /// Adds the execution paths that go on from `from` after `execution_path`.
    #[verifier::loop_isolation(false)]
    fn update_execution_paths(&mut self, from: u32, execution_path: Vec<u32>, Ghost(nodes): Ghost<Set<u32>>,
        Ghost(fuel): Ghost<nat>)
        requires
            nodes.finite(),
            nodes.contains(from),
            forall|i: int| 0 <= i < execution_path@.len() ==> nodes.contains(#[trigger] execution_path@[i]),
            forall|y: u32| #[trigger] occurrences(execution_path@, y) <= 2,
            fuel + execution_path@.len() >= 2 * nodes.len(),
            forall|i: int| 0 <= i < old(self).edges@.len() ==> nodes.contains(#[trigger] old(self).edges@[i].to),
        ensures
            final(self).paths() == old(self).paths() + paths_from(old(self).edges@, old(self).stop, from,
                execution_path@, fuel),
            final(self).same_graph(old(self)),
        decreases fuel,
    {
        let mut path = execution_path;
        let ghost p0 = path@;
        if from == self.stop {
            path.push(from);
            self.execution_paths.push(path);
            assert(self.paths() =~= old(self).paths() + seq![p0.push(from)]);
            return;
        }
        let mut num: usize = 0;
        let mut i: usize = 0;
        while i < path.len()
            invariant
                i <= path@.len(),
                path@ == p0,
                num == occurrences(p0.take(i as int), from),
                num <= i,
            decreases path@.len() - i,
        {
            assert(p0.take(i + 1).drop_last() =~= p0.take(i as int));
            if path[i] == from {
                num = num + 1;
            }
            i = i + 1;
        }
        assert(p0.take(p0.len() as int) =~= p0);
        if num >= 2 {
            assert(self.paths() =~= old(self).paths() + Seq::<Seq<u32>>::empty());
            return;
        }
        path.push(from);
        proof {
            assert(path@.drop_last() =~= p0);
            assert forall|y: u32| #[trigger] occurrences(path@, y) <= 2 by {
                assert(occurrences(path@, y) == occurrences(p0, y) + if from == y { 1nat } else { 0nat });
                assert(occurrences(p0, y) <= 2);
            }
            assert forall|i: int| 0 <= i < path@.len() implies nodes.contains(#[trigger] path@[i]) by {
                if i < p0.len() {
                    assert(path@[i] == p0[i]);
                }
            }
            lemma_path_len(path@, nodes);
        }
        let mut next: Vec<u32> = Vec::new();
        let mut e: usize = 0;
        while e < self.edges.len()
            invariant
                e <= self.edges@.len(),
                next@ == targets(self.edges@.take(e as int), from),
                forall|k: int| 0 <= k < next@.len() ==> nodes.contains(#[trigger] next@[k]),
            decreases self.edges@.len() - e,
        {
            assert(self.edges@.take(e + 1).drop_last() =~= self.edges@.take(e as int));
            if self.edges[e].from == from {
                next.push(self.edges[e].to);
            }
            e = e + 1;
        }
        assert(self.edges@.take(self.edges@.len() as int) =~= self.edges@);
        let ghost es = self.edges@;
        let ghost stop = self.stop;
        let ghost paths0 = self.paths();
        let mut j: usize = 0;
        while j < next.len()
            invariant
                j <= next@.len(),
                next@ == targets(es, from),
                self.same_graph(old(self)),
                self.paths() == paths0 + paths_next(es, stop, next@, path@, (fuel - 1) as nat, j as int),
            decreases next@.len() - j,
        {
            let p = copy_ids(&path);
            self.update_execution_paths(next[j], p, Ghost(nodes), Ghost((fuel - 1) as nat));
            assert(paths0 + paths_next(es, stop, next@, path@, (fuel - 1) as nat, j + 1) =~= paths0
                + paths_next(es, stop, next@, path@, (fuel - 1) as nat, j as int)
                + paths_from(es, stop, next@[j as int], path@, (fuel - 1) as nat));
            j = j + 1;
        }
    }

    pub fn get_start(&self) -> (r: u32)
        ensures
            r == self.spec_start(),
    {
        self.start
    }

    pub fn get_stop(&self) -> (r: u32)
        ensures
            r == self.spec_stop(),
    {
        self.stop
    }

    pub fn get_dict(&self) -> (r: &Dictionary<'a>)
        ensures
            *r == self.spec_dict(),
    {
        self.dict
    }

    pub fn get_execution_paths(&self) -> (r: &Vec<Vec<u32>>)
        ensures
            r@.map_values(|p: Vec<u32>| p@) == self.paths(),
    {
        &self.execution_paths
    }

    /// The vertices by id.
    pub fn get_vertices(&self) -> (r: HashMap<u32, Vertex>)
        ensures
            r@.map_values(|v: Vertex| v@) == vertex_map(self.vertex_seq()),
    {
        let mut h: HashMap<u32, Vertex> = HashMap::new();
        let mut i: usize = 0;
        while i < self.vertices.len()
            invariant
                i <= self.vertices@.len(),
                h@.map_values(|v: Vertex| v@) == vertex_map(self.vertex_seq().take(i as int)),
            decreases self.vertices@.len() - i,
        {
            let v = self.vertices[i].copy();
            let ghost before = h@;
            let ghost vv = v@;
            h.insert(v.get_id(), v);
            assert(self.vertex_seq().take(i + 1).drop_last() =~= self.vertex_seq().take(i as int));
            assert(h@.map_values(|v: Vertex| v@) =~= before.map_values(|v: Vertex| v@).insert(vv.0, vv));
            i = i + 1;
        }
        assert(self.vertex_seq().take(self.vertices@.len() as int) =~= self.vertex_seq());
        h
    }

    /// The edges, each once.
    pub fn get_edges(&self) -> (r: &Vec<Edge>)
        ensures
            r@ == self.edge_seq(),
            r@.map_values(|e: Edge| edge_pair(e)).to_set() == self.state().edges,
            self.wf() ==> r@.no_duplicates(),
    {
        &self.edges
    }

    pub fn get_indexes(&self) -> (r: &HashMap<u32, Vec<u32>>)
        ensures
            seq_values(r@) == self.index_map(),
    {
        &self.indexes
    }

    pub fn get_fcalls(&self) -> (r: &HashMap<u32, Vec<u32>>)
        ensures
            seq_values(r@) == self.fcall_map(),
    {
        &self.fcalls
    }

    pub fn get_returns(&self) -> (r: &HashMap<u32, Vec<u32>>)
        ensures
            seq_values(r@) == self.state().returns,
    {
        &self.returns
    }

    pub fn get_parameters(&self) -> (r: &HashMap<u32, Vec<u32>>)
        ensures
            seq_values(r@) == self.parameter_map(),
    {
        &self.parameters
    }

    /// Traverse the whole graph
    pub fn traverse(&mut self, blocks: &Vec<CodeBlock<'a>>, predecessors: Vec<u32>, breakers: &mut Vec<LoopBreaker>,
        level: u32) -> (r: Vec<u32>)
        requires
            old(self).wf(),
            exists|vs: Seq<CodeView>| codes_match(blocks@, vs, old(self).ctx().source),
            trav_all(old(self).at(predecessors@, old(breakers)@, true), blocks_view(blocks@, old(self).ctx().source),
                level, old(self).ctx()).ok,
        ensures
            final(self).reached(trav_all(old(self).at(predecessors@, old(breakers)@, true),
                blocks_view(blocks@, old(self).ctx().source), level, old(self).ctx()), r@, final(breakers)@, true),
            final(self).wf(),
            final(self).same_setting(old(self)),
    {
        let mut ok = true;
        self.traverse_views(blocks, predecessors, breakers, level, &mut ok, Ghost(blocks_view(blocks@, self.ctx().source)))
    }

    /// Records `id` as a return of the function.
    fn add_return(&mut self, id: u32)
        requires
            old(self).wf(),
        ensures
            final(self).wf(),
            final(self).state() == with_return(old(self).state(), old(self).function_id, id),
            final(self).same_setting(old(self)),
    {
        let f = self.function_id;
        let ghost m0 = self.returns@;
        let mut list = match self.returns.remove(&f) {
            Some(v) => v,
            None => Vec::new(),
        };
        list.push(id);
        let ghost lv = list@;
        self.returns.insert(f, list);
        assert(seq_values(self.returns@) =~= seq_values(m0).insert(f, lv));
    }
}

} // verus!
