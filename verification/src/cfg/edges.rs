//! What holds of every control flow graph that is built: each of its edges
//! joins two of its vertices.
use vstd::prelude::*;
use crate::ast::AstNode;
use crate::shared::vertex::VertexView;
use crate::shared::smart_contract::SmartContractView;
use crate::cfg::block::{SimpleKind, CodeView, NodeView};
use crate::cfg::graph::root_view;
use crate::cfg::splitter::split_seq;
use crate::cfg::flow::{FlowState, Trav, Ctx, LoopBreaker, BreakerType, with_vertex, with_edge, edges_to, any_new,
    simple_step, simple_fold, simple_all, condition_ok, condition_vertices, chain_edges, chain_of, condition_state,
    breaker_ids, with_return, trav, trav_all, trav_step, node_step, if_trav, do_while_trav, while_trav, for_trav,
    for_round, state_chain, start_trav, state_entries, built, empty_state};

verus! {

/// Some vertex of `st` has id `id`.
pub open spec fn has_id(st: FlowState, id: u32) -> bool {
    exists|v: VertexView| #[trigger] st.vertices.contains(v) && v.0 == id
}

/// Each edge of `st` joins two of its vertices.
pub open spec fn edges_ok(st: FlowState) -> bool {
    forall|e: (u32, u32)| #[trigger] st.edges.contains(e) ==> has_id(st, e.0) && has_id(st, e.1)
}

/// Each of `ids` is the id of a vertex of `st`.
pub open spec fn ids_ok(st: FlowState, ids: Seq<u32>) -> bool {
    forall|i: int| 0 <= i < ids.len() ==> has_id(st, #[trigger] ids[i])
}

/// Each breaker of `brs` stands at a vertex of `st`.
pub open spec fn brs_ok(st: FlowState, brs: Seq<LoopBreaker>) -> bool {
    forall|i: int| 0 <= i < brs.len() ==> has_id(st, #[trigger] brs[i].id)
}

/// `b` has every vertex of `a`.
pub open spec fn grows(a: FlowState, b: FlowState) -> bool {
    forall|v: VertexView| #[trigger] a.vertices.contains(v) ==> b.vertices.contains(v)
}

/// A traversal whose edges, followed nodes and breakers all stand at vertices,
/// as the exit does.
pub open spec fn trav_ok(t: Trav, ctx: Ctx) -> bool {
    &&& edges_ok(t.st)
    &&& ids_ok(t.st, t.preds)
    &&& brs_ok(t.st, t.brs)
    &&& has_id(t.st, ctx.stop)
}

proof fn lemma_grows(a: FlowState, b: FlowState)
    requires
        grows(a, b),
    ensures
        forall|x: u32| has_id(a, x) ==> #[trigger] has_id(b, x),
{
    assert forall|x: u32| has_id(a, x) implies #[trigger] has_id(b, x) by {
        let v = choose|v: VertexView| #[trigger] a.vertices.contains(v) && v.0 == x;
        assert(b.vertices.contains(v));
    }
}

proof fn lemma_grows_trans(a: FlowState, b: FlowState, c: FlowState)
    requires
        grows(a, b),
        grows(b, c),
    ensures
        grows(a, c),
{
    assert forall|v: VertexView| #[trigger] a.vertices.contains(v) implies c.vertices.contains(v) by {
        assert(b.vertices.contains(v));
    }
}

proof fn lemma_grows_ok(a: FlowState, b: FlowState, ids: Seq<u32>, brs: Seq<LoopBreaker>)
    requires
        grows(a, b),
        ids_ok(a, ids),
        brs_ok(a, brs),
    ensures
        ids_ok(b, ids),
        brs_ok(b, brs),
{
    lemma_grows(a, b);
    assert forall|i: int| 0 <= i < ids.len() implies has_id(b, #[trigger] ids[i]) by {
        assert(has_id(a, ids[i]));
    }
    assert forall|i: int| 0 <= i < brs.len() implies has_id(b, #[trigger] brs[i].id) by {
        assert(has_id(a, brs[i].id));
    }
}

proof fn lemma_with_vertex(st: FlowState, v: VertexView)
    requires
        edges_ok(st),
    ensures
        edges_ok(with_vertex(st, v)),
        grows(st, with_vertex(st, v)),
        has_id(with_vertex(st, v), v.0),
{
    let s2 = with_vertex(st, v);
    lemma_grows(st, s2);
    assert(s2.vertices.contains(v));
    assert forall|e: (u32, u32)| #[trigger] s2.edges.contains(e) implies has_id(s2, e.0) && has_id(s2, e.1) by {
        assert(has_id(st, e.0) && has_id(st, e.1));
    }
}

proof fn lemma_ids_concat(st: FlowState, a: Seq<u32>, b: Seq<u32>)
    requires
        ids_ok(st, a),
        ids_ok(st, b),
    ensures
        ids_ok(st, a + b),
{
    assert forall|i: int| 0 <= i < (a + b).len() implies has_id(st, #[trigger] (a + b)[i]) by {
        if i < a.len() {
            assert((a + b)[i] == a[i]);
        } else {
            assert((a + b)[i] == b[i - a.len()]);
        }
    }
}

proof fn lemma_breaker_ids(st: FlowState, brs: Seq<LoopBreaker>, kind: BreakerType)
    requires
        brs_ok(st, brs),
    ensures
        ids_ok(st, breaker_ids(brs, kind)),
    decreases brs.len(),
{
    if brs.len() > 0 {
        assert forall|i: int| 0 <= i < brs.drop_last().len() implies has_id(st, #[trigger] brs.drop_last()[i].id) by {
            assert(brs.drop_last()[i] == brs[i]);
        }
        lemma_breaker_ids(st, brs.drop_last(), kind);
        let prev = breaker_ids(brs.drop_last(), kind);
        if brs.last().kind == kind {
            assert(has_id(st, brs[brs.len() - 1].id));
            assert forall|i: int| 0 <= i < prev.push(brs.last().id).len() implies has_id(st,
                #[trigger] prev.push(brs.last().id)[i]) by {
                if i < prev.len() {
                    assert(prev.push(brs.last().id)[i] == prev[i]);
                }
            }
        }
    }
}

/// The edges from `preds` to `id` join vertices where `id` and each of
/// `preds` is a vertex.
proof fn lemma_edges_to(st: FlowState, preds: Seq<u32>, id: u32)
    requires
        edges_ok(st),
        ids_ok(st, preds),
        preds.len() > 0 ==> has_id(st, id),
    ensures
        edges_ok(edges_to(st, preds, id)),
        edges_to(st, preds, id).vertices == st.vertices,
        edges_to(st, preds, id).returns == st.returns,
    decreases preds.len(),
{
    if preds.len() > 0 {
        assert forall|i: int| 0 <= i < preds.drop_last().len() implies has_id(st, #[trigger] preds.drop_last()[i]) by {
            assert(preds.drop_last()[i] == preds[i]);
        }
        lemma_edges_to(st, preds.drop_last(), id);
        let s1 = edges_to(st, preds.drop_last(), id);
        assert(has_id(st, preds[preds.len() - 1]));
        let s2 = with_edge(s1, (preds.last(), id));
        lemma_grows(st, s1);
        lemma_grows(s1, s2);
        assert forall|e: (u32, u32)| #[trigger] s2.edges.contains(e) implies has_id(s2, e.0) && has_id(s2, e.1) by {
            if e != (preds.last(), id) {
                assert(s1.edges.contains(e));
            }
        }
    }
}

/// Edges that are already there change nothing.
proof fn lemma_edges_to_known(st: FlowState, preds: Seq<u32>, id: u32)
    requires
        forall|i: int| 0 <= i < preds.len() ==> st.edges.contains((#[trigger] preds[i], id)),
    ensures
        edges_to(st, preds, id) == st,
    decreases preds.len(),
{
    if preds.len() > 0 {
        lemma_edges_to_known(st, preds.drop_last(), id);
        assert(st.edges.contains((preds[preds.len() - 1], id)));
        assert(st.edges.insert((preds.last(), id)) =~= st.edges);
    }
}

proof fn lemma_edges_to_vertex(st: FlowState, preds: Seq<u32>, id: u32, v: VertexView)
    ensures
        with_vertex(edges_to(st, preds, id), v) == edges_to(with_vertex(st, v), preds, id),
    decreases preds.len(),
{
    if preds.len() > 0 {
        lemma_edges_to_vertex(st, preds.drop_last(), id, v);
    }
}

proof fn lemma_simple_step(t: Trav, b: (SimpleKind, AstNode), level: u32, ctx: Ctx)
    requires
        trav_ok(t, ctx),
    ensures
        trav_ok(simple_step(t, b, level, ctx), ctx),
        grows(t.st, simple_step(t, b, level, ctx).st),
{
    let (kind, n) = b;
    let id = n.id;
    let r = simple_step(t, b, level, ctx);
    match kind {
        SimpleKind::Unit | SimpleKind::FunctionCall | SimpleKind::ModifierInvocation | SimpleKind::IndexAccess => {
            if any_new(t.st.edges, t.preds, id) {
                let v = r.st.vertices.choose();
                let vv = if kind == SimpleKind::Unit {
                    (id, crate::shared::walker::text_of(n, ctx.source), crate::shared::vertex::Shape::Statement, level)
                } else {
                    (id, crate::shared::walker::text_of(n, ctx.source), crate::shared::vertex::Shape::FunctionCall, level)
                };
                lemma_edges_to_vertex(t.st, t.preds, id, vv);
                lemma_with_vertex(t.st, vv);
                let s1 = with_vertex(t.st, vv);
                lemma_grows_ok(t.st, s1, t.preds, t.brs);
                lemma_grows(t.st, s1);
                lemma_edges_to(s1, t.preds, id);
                assert(r.st == edges_to(s1, t.preds, id));
                lemma_grows(t.st, r.st);
                assert(ids_ok(r.st, seq![id]));
                lemma_grows_ok(s1, r.st, t.preds, t.brs);
            } else {
                lemma_edges_to_known(t.st, t.preds, id);
                assert(ids_ok(r.st, seq![]));
            }
        },
        SimpleKind::Empty => {},
        _ => {
            let shape = if kind == SimpleKind::Require || kind == SimpleKind::Assert || kind == SimpleKind::Transfer
                || kind == SimpleKind::Revert || kind == SimpleKind::Selfdestruct || kind == SimpleKind::Suicide {
                crate::shared::vertex::Shape::FunctionCall
            } else {
                crate::shared::vertex::Shape::Statement
            };
            let vv = (id, crate::shared::walker::text_of(n, ctx.source), shape, level);
            lemma_with_vertex(t.st, vv);
            let s1 = with_vertex(t.st, vv);
            lemma_grows_ok(t.st, s1, t.preds, t.brs);
            lemma_grows(t.st, s1);
            lemma_edges_to(s1, t.preds, id);
            let s2 = edges_to(s1, t.preds, id);
            let s3 = with_edge(s2, (id, ctx.stop));
            lemma_grows(s1, s2);
            lemma_grows(s2, s3);
            assert(has_id(s2, id));
            assert(has_id(s2, ctx.stop));
            assert forall|e: (u32, u32)| #[trigger] s3.edges.contains(e) implies has_id(s3, e.0) && has_id(s3, e.1) by {
                if e != (id, ctx.stop) {
                    assert(s2.edges.contains(e));
                }
            }
            lemma_grows_ok(s1, s2, t.preds, t.brs);
            assert(ids_ok(s2, seq![id]));
            assert(brs_ok(s2, t.brs.push(LoopBreaker { kind: BreakerType::Break, id }))) by {
                assert forall|i: int| 0 <= i < t.brs.push(LoopBreaker { kind: BreakerType::Break, id }).len()
                    implies has_id(s2, #[trigger] t.brs.push(LoopBreaker { kind: BreakerType::Break, id })[i].id) by {
                    if i < t.brs.len() {
                        assert(t.brs.push(LoopBreaker { kind: BreakerType::Break, id })[i] == t.brs[i]);
                    }
                }
            }
            assert(brs_ok(s2, t.brs.push(LoopBreaker { kind: BreakerType::Continue, id }))) by {
                assert forall|i: int| 0 <= i < t.brs.push(LoopBreaker { kind: BreakerType::Continue, id }).len()
                    implies has_id(s2, #[trigger] t.brs.push(LoopBreaker { kind: BreakerType::Continue, id })[i].id) by {
                    if i < t.brs.len() {
                        assert(t.brs.push(LoopBreaker { kind: BreakerType::Continue, id })[i] == t.brs[i]);
                    }
                }
            }
            assert(ids_ok(s3, seq![id]));
            assert(ids_ok(s3, seq![]));
            lemma_grows_ok(s2, s3, t.preds, t.brs);
        },
    }
}

proof fn lemma_simple_fold(t: Trav, bs: Seq<(SimpleKind, AstNode)>, k: int, level: u32, ctx: Ctx)
    requires
        trav_ok(t, ctx),
    ensures
        trav_ok(simple_fold(t, bs, k, level, ctx), ctx),
        grows(t.st, simple_fold(t, bs, k, level, ctx).st),
    decreases k,
{
    if k > 0 {
        lemma_simple_fold(t, bs, k - 1, level, ctx);
        let t1 = simple_fold(t, bs, k - 1, level, ctx);
        if t1.preds.len() == 0 {
            assert(ids_ok(t1.st, seq![]));
        } else {
            lemma_simple_step(t1, bs[k - 1], level, ctx);
        }
    }
}

proof fn lemma_simple_all(t: Trav, bs: Seq<(SimpleKind, AstNode)>, level: u32, ctx: Ctx)
    requires
        trav_ok(t, ctx),
    ensures
        trav_ok(simple_all(t, bs, level, ctx), ctx),
        grows(t.st, simple_all(t, bs, level, ctx).st),
{
    lemma_simple_fold(t, bs, bs.len() as int, level, ctx);
}

proof fn lemma_condition_vertices(st: FlowState, bs: Seq<(SimpleKind, AstNode)>, k: int, level: u32, source: Seq<char>)
    requires
        edges_ok(st),
        k <= bs.len(),
    ensures
        edges_ok(condition_vertices(st, bs, k, level, source)),
        grows(st, condition_vertices(st, bs, k, level, source)),
        forall|j: int| 0 <= j < k ==> has_id(condition_vertices(st, bs, k, level, source), #[trigger] bs[j].1.id),
    decreases k,
{
    if k > 0 {
        lemma_condition_vertices(st, bs, k - 1, level, source);
        let s1 = condition_vertices(st, bs, k - 1, level, source);
        let n = bs[k - 1].1;
        let v = (n.id, crate::shared::walker::text_of(n, source), crate::cfg::flow::condition_shape(bs[k - 1].0)->0, level);
        lemma_with_vertex(s1, v);
        lemma_grows(s1, with_vertex(s1, v));
        assert forall|j: int| 0 <= j < k implies has_id(with_vertex(s1, v), #[trigger] bs[j].1.id) by {
            if j < k - 1 {
                assert(has_id(s1, bs[j].1.id));
            }
        }
    }
}

proof fn lemma_chain_edges(st: FlowState, chain: Seq<u32>, k: int)
    requires
        edges_ok(st),
        ids_ok(st, chain),
        k < chain.len(),
    ensures
        edges_ok(chain_edges(st, chain, k)),
        chain_edges(st, chain, k).vertices == st.vertices,
    decreases k,
{
    if k > 0 {
        lemma_chain_edges(st, chain, k - 1);
        let s1 = chain_edges(st, chain, k - 1);
        let s2 = with_edge(s1, (chain[k - 1], chain[k]));
        lemma_grows(st, s1);
        lemma_grows(s1, s2);
        assert(has_id(st, chain[k - 1]));
        assert(has_id(st, chain[k]));
        assert forall|e: (u32, u32)| #[trigger] s2.edges.contains(e) implies has_id(s2, e.0) && has_id(s2, e.1) by {
            if e != (chain[k - 1], chain[k]) {
                assert(s1.edges.contains(e));
            }
        }
    }
}

proof fn lemma_condition_state(st: FlowState, bs: Seq<(SimpleKind, AstNode)>, level: u32, source: Seq<char>)
    requires
        edges_ok(st),
        condition_ok(bs),
    ensures
        edges_ok(condition_state(st, bs, level, source)),
        grows(st, condition_state(st, bs, level, source)),
        ids_ok(condition_state(st, bs, level, source), chain_of(bs)),
{
    lemma_condition_vertices(st, bs, bs.len() as int, level, source);
    let s1 = condition_vertices(st, bs, bs.len() as int, level, source);
    let chain = chain_of(bs);
    assert forall|i: int| 0 <= i < chain.len() implies has_id(s1, #[trigger] chain[i]) by {
        assert(chain[i] == bs[i].1.id);
    }
    lemma_chain_edges(s1, chain, bs.len() - 1);
    let s2 = condition_state(st, bs, level, source);
    lemma_grows(s1, s2);
    assert forall|i: int| 0 <= i < chain.len() implies has_id(s2, #[trigger] chain[i]) by {
        assert(has_id(s1, chain[i]));
    }
}

/// The condition `cs` entered from `preds`: its vertices, its chain of edges
/// and the edges from `preds` to its first node.
proof fn lemma_enter_condition(t: Trav, cs: Seq<(SimpleKind, AstNode)>, level: u32, ctx: Ctx)
    requires
        trav_ok(t, ctx),
        condition_ok(cs),
    ensures
        ({
            let s1 = edges_to(condition_state(t.st, cs, level, ctx.source), t.preds, chain_of(cs)[0]);
            &&& edges_ok(s1)
            &&& grows(t.st, s1)
            &&& ids_ok(s1, chain_of(cs))
            &&& ids_ok(s1, seq![chain_of(cs).last()])
            &&& ids_ok(s1, t.preds)
            &&& brs_ok(s1, t.brs)
            &&& has_id(s1, ctx.stop)
        }),
{
    let cst = condition_state(t.st, cs, level, ctx.source);
    lemma_condition_state(t.st, cs, level, ctx.source);
    lemma_grows_ok(t.st, cst, t.preds, t.brs);
    lemma_grows(t.st, cst);
    let chain = chain_of(cs);
    assert(has_id(cst, chain[0]));
    lemma_edges_to(cst, t.preds, chain[0]);
    let s1 = edges_to(cst, t.preds, chain[0]);
    lemma_grows(cst, s1);
    lemma_grows_ok(cst, s1, chain, t.brs);
    lemma_grows_ok(cst, s1, t.preds, t.brs);
    assert(has_id(s1, chain[chain.len() - 1]));
    assert(ids_ok(s1, seq![chain.last()]));
}

proof fn lemma_trav(t: Trav, vs: Seq<CodeView>, k: int, level: u32, ctx: Ctx)
    requires
        trav_ok(t, ctx),
    ensures
        trav_ok(trav(t, vs, k, level, ctx), ctx),
        grows(t.st, trav(t, vs, k, level, ctx).st),
    decreases vs, k,
{
    if !(k <= 0 || k > vs.len()) {
        lemma_trav(t, vs, k - 1, level, ctx);
        let t1 = trav(t, vs, k - 1, level, ctx);
        if t1.preds.len() == 0 {
            assert(ids_ok(t1.st, seq![]));
        } else {
            lemma_trav_step(t1, vs[k - 1], level, ctx);
        }
    }
}

proof fn lemma_trav_all(t: Trav, vs: Seq<CodeView>, level: u32, ctx: Ctx)
    requires
        trav_ok(t, ctx),
    ensures
        trav_ok(trav_all(t, vs, level, ctx), ctx),
        grows(t.st, trav_all(t, vs, level, ctx).st),
    decreases vs, vs.len() + 1,
{
    lemma_trav(t, vs, vs.len() as int, level, ctx);
}

proof fn lemma_trav_step(t: Trav, v: CodeView, level: u32, ctx: Ctx)
    requires
        trav_ok(t, ctx),
    ensures
        trav_ok(trav_step(t, v, level, ctx), ctx),
        grows(t.st, trav_step(t, v, level, ctx).st),
    decreases v, 0int,
{
    match v {
        CodeView::Block(n) => lemma_simple_all(t, split_seq(n), level, ctx),
        CodeView::SimpleBlocks(bs) => lemma_simple_all(t, bs, level, ctx),
        CodeView::Link(nv) => lemma_node_step(t, *nv, level, ctx),
        CodeView::Empty => {},
    }
}

proof fn lemma_node_step(t: Trav, nv: NodeView, level: u32, ctx: Ctx)
    requires
        trav_ok(t, ctx),
    ensures
        trav_ok(node_step(t, nv, level, ctx), ctx),
        grows(t.st, node_step(t, nv, level, ctx).st),
    decreases nv, 1int,
{
    if !(level == u32::MAX && !(nv is ReturnStatement)) {
        match nv {
            NodeView::IfStatement(..) => lemma_if_trav(t, nv, level, ctx),
            NodeView::DoWhileStatement(..) => lemma_do_while_trav(t, nv, level, ctx),
            NodeView::WhileStatement(..) => lemma_while_trav(t, nv, level, ctx),
            NodeView::ForStatement(..) => lemma_for_trav(t, nv, level, ctx),
            NodeView::ReturnStatement(c) => match *c {
                CodeView::Block(bn) => {
                    let t0 = Trav { st: with_return(t.st, ctx.function_id, bn.id), ..t };
                    lemma_grows(t.st, t0.st);
                    lemma_grows_ok(t.st, t0.st, t.preds, t.brs);
                    assert(edges_ok(t0.st)) by {
                        assert forall|e: (u32, u32)| #[trigger] t0.st.edges.contains(e) implies has_id(t0.st, e.0)
                            && has_id(t0.st, e.1) by {
                            assert(t.st.edges.contains(e));
                        }
                    }
                    lemma_simple_all(t0, split_seq(bn), level, ctx);
                    let t1 = simple_all(t0, split_seq(bn), level, ctx);
                    lemma_edges_to(t1.st, t1.preds, ctx.stop);
                    let s2 = edges_to(t1.st, t1.preds, ctx.stop);
                    lemma_grows(t1.st, s2);
                    lemma_grows_ok(t1.st, s2, t1.preds, t1.brs);
                    assert(ids_ok(s2, seq![]));
                    lemma_grows_trans(t.st, t0.st, t1.st);
                    lemma_grows_trans(t.st, t1.st, s2);
                },
                _ => {
                    assert(ids_ok(t.st, seq![]));
                },
            },
            _ => {},
        }
    }
}

proof fn lemma_if_trav(t: Trav, nv: NodeView, level: u32, ctx: Ctx)
    requires
        trav_ok(t, ctx),
    ensures
        trav_ok(if_trav(t, nv, level, ctx), ctx),
        grows(t.st, if_trav(t, nv, level, ctx).st),
    decreases nv, 0int,
{
    match nv {
        NodeView::IfStatement(c, tb, fb) => match *c {
            CodeView::Block(cn) => {
                let cs = split_seq(cn);
                if condition_ok(cs) {
                    let chain = chain_of(cs);
                    lemma_enter_condition(t, cs, level, ctx);
                    let s1 = edges_to(condition_state(t.st, cs, level, ctx.source), t.preds, chain[0]);
                    let p = seq![chain.last()];
                    let t0 = Trav { st: s1, preds: p, ..t };
                    lemma_trav_all(t0, tb, (level + 1) as u32, ctx);
                    let tt = trav_all(t0, tb, (level + 1) as u32, ctx);
                    lemma_grows_ok(s1, tt.st, p, seq![]);
                    let t1 = Trav { st: tt.st, preds: p, brs: tt.brs, ok: tt.ok };
                    lemma_trav_all(t1, fb, (level + 1) as u32, ctx);
                    let ft = trav_all(t1, fb, (level + 1) as u32, ctx);
                    lemma_grows_ok(tt.st, ft.st, tt.preds, seq![]);
                    lemma_grows_trans(t.st, s1, tt.st);
                    lemma_grows_trans(t.st, tt.st, ft.st);
                    lemma_ids_concat(ft.st, tt.preds, ft.preds);
                }
            },
            _ => {},
        },
        _ => {},
    }
}

proof fn lemma_do_while_trav(t: Trav, nv: NodeView, level: u32, ctx: Ctx)
    requires
        trav_ok(t, ctx),
    ensures
        trav_ok(do_while_trav(t, nv, level, ctx), ctx),
        grows(t.st, do_while_trav(t, nv, level, ctx).st),
    decreases nv, 0int,
{
    match nv {
        NodeView::DoWhileStatement(c, bl) => match *c {
            CodeView::Block(cn) => {
                let t0 = Trav { brs: seq![], ..t };
                assert(brs_ok(t.st, seq![]));
                lemma_trav_all(t0, bl, (level + 1) as u32, ctx);
                let t1 = trav_all(t0, bl, (level + 1) as u32, ctx);
                lemma_grows_ok(t.st, t1.st, t.preds, t.brs);
                lemma_breaker_ids(t1.st, t1.brs, BreakerType::Continue);
                lemma_breaker_ids(t1.st, t1.brs, BreakerType::Break);
                let p2 = t1.preds + breaker_ids(t1.brs, BreakerType::Continue);
                lemma_ids_concat(t1.st, t1.preds, breaker_ids(t1.brs, BreakerType::Continue));
                if p2.len() > 0 {
                    let cs = split_seq(cn);
                    if condition_ok(cs) {
                        let chain = chain_of(cs);
                        let tc = Trav { st: t1.st, preds: p2, brs: t1.brs, ok: t1.ok };
                        lemma_enter_condition(tc, cs, level, ctx);
                        let s2 = edges_to(condition_state(t1.st, cs, level, ctx.source), p2, chain[0]);
                        let p3 = seq![chain.last()];
                        let t2 = Trav { st: s2, preds: p3, brs: t1.brs, ok: t1.ok };
                        lemma_trav_all(t2, bl, (level + 1) as u32, ctx);
                        let t3 = trav_all(t2, bl, (level + 1) as u32, ctx);
                        lemma_grows_ok(s2, t3.st, p3, seq![]);
                        lemma_grows_trans(t.st, t1.st, s2);
                        lemma_grows_trans(t.st, s2, t3.st);
                        lemma_grows_ok(t1.st, s2, t1.preds, t.brs);
                        lemma_grows_ok(s2, t3.st, t1.preds, t.brs);
                        lemma_breaker_ids(t3.st, t3.brs, BreakerType::Break);
                        lemma_ids_concat(t3.st, p3, breaker_ids(t3.brs, BreakerType::Break));
                    }
                } else {
                    lemma_ids_concat(t1.st, p2, breaker_ids(t1.brs, BreakerType::Break));
                }
            },
            _ => {},
        },
        _ => {},
    }
}

proof fn lemma_while_trav(t: Trav, nv: NodeView, level: u32, ctx: Ctx)
    requires
        trav_ok(t, ctx),
    ensures
        trav_ok(while_trav(t, nv, level, ctx), ctx),
        grows(t.st, while_trav(t, nv, level, ctx).st),
    decreases nv, 0int,
{
    match nv {
        NodeView::WhileStatement(c, bl) => match *c {
            CodeView::Block(cn) => {
                let cs = split_seq(cn);
                if condition_ok(cs) {
                    let chain = chain_of(cs);
                    lemma_enter_condition(t, cs, level, ctx);
                    let s1 = edges_to(condition_state(t.st, cs, level, ctx.source), t.preds, chain[0]);
                    assert(brs_ok(s1, seq![]));
                    let t0 = Trav { st: s1, preds: seq![chain.last()], brs: seq![], ok: t.ok };
                    lemma_trav_all(t0, bl, (level + 1) as u32, ctx);
                    let t2 = trav_all(t0, bl, (level + 1) as u32, ctx);
                    lemma_breaker_ids(t2.st, t2.brs, BreakerType::Continue);
                    lemma_breaker_ids(t2.st, t2.brs, BreakerType::Break);
                    let p3 = t2.preds + breaker_ids(t2.brs, BreakerType::Continue);
                    lemma_ids_concat(t2.st, t2.preds, breaker_ids(t2.brs, BreakerType::Continue));
                    lemma_grows_ok(s1, t2.st, chain, t.brs);
                    lemma_grows_ok(s1, t2.st, seq![chain.last()], t.brs);
                    assert(has_id(t2.st, chain[0]));
                    lemma_edges_to(t2.st, p3, chain[0]);
                    let s3 = edges_to(t2.st, p3, chain[0]);
                    lemma_grows(t2.st, s3);
                    lemma_grows_ok(t2.st, s3, seq![chain.last()], t.brs);
                    lemma_grows_ok(t2.st, s3, breaker_ids(t2.brs, BreakerType::Break), t.brs);
                    lemma_ids_concat(s3, seq![chain.last()], breaker_ids(t2.brs, BreakerType::Break));
                }
            },
            _ => {},
        },
        _ => {},
    }
}

proof fn lemma_for_trav(t: Trav, nv: NodeView, level: u32, ctx: Ctx)
    requires
        trav_ok(t, ctx),
    ensures
        trav_ok(for_trav(t, nv, level, ctx), ctx),
        grows(t.st, for_trav(t, nv, level, ctx).st),
    decreases nv, 0int,
{
    match nv {
        NodeView::ForStatement(c, i, e, bl) => {
            let t1 = match *i {
                CodeView::Block(inn) => simple_all(t, split_seq(inn), level, ctx),
                _ => t,
            };
            match *i {
                CodeView::Block(inn) => lemma_simple_all(t, split_seq(inn), level, ctx),
                _ => {},
            }
            assert(brs_ok(t1.st, seq![]));
            assert(ids_ok(t1.st, seq![]));
            lemma_for_round(t1, seq![], seq![], *c, *e, bl, level, ctx);
            let (t2, our2, cp2) = for_round(t1, seq![], seq![], *c, *e, bl, level, ctx);
            lemma_for_round(t2, our2, cp2, *c, *e, bl, level, ctx);
            let (t3, our3, cp3) = for_round(t2, our2, cp2, *c, *e, bl, level, ctx);
            lemma_breaker_ids(t3.st, our3, BreakerType::Break);
            lemma_ids_concat(t3.st, cp3, breaker_ids(our3, BreakerType::Break));
        },
        _ => {},
    }
}

proof fn lemma_for_round(t: Trav, our: Seq<LoopBreaker>, cp: Seq<u32>, c: CodeView, e: CodeView,
    bl: Seq<CodeView>, level: u32, ctx: Ctx)
    requires
        trav_ok(t, ctx),
        brs_ok(t.st, our),
        ids_ok(t.st, cp),
    ensures
        trav_ok(for_round(t, our, cp, c, e, bl, level, ctx).0, ctx),
        grows(t.st, for_round(t, our, cp, c, e, bl, level, ctx).0.st),
        brs_ok(for_round(t, our, cp, c, e, bl, level, ctx).0.st, for_round(t, our, cp, c, e, bl, level, ctx).1),
        ids_ok(for_round(t, our, cp, c, e, bl, level, ctx).0.st, for_round(t, our, cp, c, e, bl, level, ctx).2),
    decreases bl, bl.len() + 2,
{
    let (t1, cp1) = match c {
        CodeView::Block(cn) => {
            let cs = split_seq(cn);
            if !condition_ok(cs) {
                (Trav { ok: false, ..t }, cp)
            } else {
                let chain = chain_of(cs);
                let s1 = edges_to(condition_state(t.st, cs, level, ctx.source), t.preds, chain[0]);
                (Trav { st: s1, preds: seq![chain.last()], ..t }, seq![chain.last()])
            }
        },
        _ => (t, cp),
    };
    match c {
        CodeView::Block(cn) => {
            let cs = split_seq(cn);
            if condition_ok(cs) {
                lemma_enter_condition(t, cs, level, ctx);
                lemma_grows_ok(t.st, t1.st, cp, our);
            }
        },
        _ => {},
    }
    assert(trav_ok(t1, ctx) && grows(t.st, t1.st) && brs_ok(t1.st, our) && ids_ok(t1.st, cp1));
    let t0 = Trav { brs: our, ..t1 };
    lemma_trav_all(t0, bl, (level + 1) as u32, ctx);
    let tb = trav_all(t0, bl, (level + 1) as u32, ctx);
    lemma_breaker_ids(tb.st, tb.brs, BreakerType::Continue);
    let p2 = tb.preds + breaker_ids(tb.brs, BreakerType::Continue);
    lemma_ids_concat(tb.st, tb.preds, breaker_ids(tb.brs, BreakerType::Continue));
    lemma_grows_ok(t1.st, tb.st, cp1, t1.brs);
    let t2 = Trav { st: tb.st, preds: p2, brs: t1.brs, ok: tb.ok };
    let t3 = match e {
        CodeView::Block(en) => simple_all(t2, split_seq(en), level, ctx),
        _ => t2,
    };
    match e {
        CodeView::Block(en) => lemma_simple_all(t2, split_seq(en), level, ctx),
        _ => {},
    }
    lemma_grows_ok(tb.st, t3.st, cp1, tb.brs);
}

proof fn lemma_state_chain(st: FlowState, ss: Seq<(AstNode, Seq<char>)>, k: int, prev: u32)
    requires
        edges_ok(st),
        has_id(st, prev),
    ensures
        edges_ok(state_chain(st, ss, k, prev).0),
        has_id(state_chain(st, ss, k, prev).0, state_chain(st, ss, k, prev).1),
        grows(st, state_chain(st, ss, k, prev).0),
    decreases k,
{
    if k > 0 {
        lemma_state_chain(st, ss, k - 1, prev);
        let (s1, p) = state_chain(st, ss, k - 1, prev);
        let n = ss[k - 1].0;
        let v = (n.id, crate::shared::walker::text_of(n, ss[k - 1].1), crate::shared::vertex::Shape::Statement, 0u32);
        lemma_with_vertex(s1, v);
        let s2 = with_vertex(s1, v);
        lemma_grows(s1, s2);
        let s3 = with_edge(s2, (p, n.id));
        lemma_grows(s2, s3);
        assert forall|e: (u32, u32)| #[trigger] s3.edges.contains(e) implies has_id(s3, e.0) && has_id(s3, e.1) by {
            if e != (p, n.id) {
                assert(s2.edges.contains(e));
            }
        }
    }
}

/// Each edge of the graph of a function, as it is built from nothing, joins
/// two of its vertices: for each edge, the graph has a vertex with the id it
/// starts at and one with the id it ends at.
pub proof fn law_edges_join_vertices(keys: Seq<(AstNode, Seq<char>)>, sc: SmartContractView, contract_id: u32,
    function_id: u32)
    ensures
        built(empty_state(), keys, sc, contract_id, function_id) matches Some(st) ==> forall|e: (u32, u32)|
            #[trigger] st.edges.contains(e) ==> has_id(st, e.0) && has_id(st, e.1),
{
    match crate::shared::dict::entry_of(keys, function_id) {
        None => {},
        Some((f, source)) => {
            if !(function_id * 100000 + 1 > u32::MAX || !crate::cfg::graph::root_ok(f)) {
                let start = (function_id * 100000) as u32;
                let stop = (start + 1) as u32;
                let st = empty_state();
                let s0 = with_vertex(st, (start, seq![], crate::shared::vertex::Shape::Entry, 0));
                let s1 = with_vertex(s0, (stop, seq![], crate::shared::vertex::Shape::Entry, 0));
                assert(edges_ok(st));
                lemma_with_vertex(st, (start, seq![], crate::shared::vertex::Shape::Entry, 0));
                lemma_with_vertex(s0, (stop, seq![], crate::shared::vertex::Shape::Entry, 0));
                lemma_grows(s0, s1);
                let states = state_entries(keys, sc, contract_id);
                lemma_state_chain(s1, states, states.len() as int, start);
                let (s2, last) = state_chain(s1, states, states.len() as int, start);
                lemma_grows(s1, s2);
                let blocks = match root_view(f) {
                    NodeView::Root(vs) => vs,
                    _ => seq![],
                };
                let ctx = Ctx { stop, function_id, source };
                let t0 = Trav { st: s2, preds: seq![last], brs: seq![], ok: true };
                assert(ids_ok(s2, seq![last]));
                assert(brs_ok(s2, seq![]));
                lemma_trav_all(t0, blocks, 1, ctx);
                let t = trav_all(t0, blocks, 1, ctx);
                lemma_edges_to(t.st, t.preds, stop);
                assert(start_trav(st, start, stop, function_id, f, source, states).st == edges_to(t.st, t.preds, stop));
            }
        },
    }
}

} // verus!
