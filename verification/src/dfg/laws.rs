//! What holds of every data link that the propagation finds: it joins two
//! vertices of the graph, the use at one and the kill at the other; the kill
//! is made at a box, and from it the edges of the graph lead to the use.
use vstd::prelude::*;
use crate::ast::AstNode;
use crate::shared::variable::{VarView, VariableComparison, compare_members};
use crate::shared::assignment::Operator;
use crate::graph::vertex::{Vertex, Shape};
use crate::dfg::action::ActionView;
use crate::dfg::link::LinkView;
use crate::dfg::flow::{KillMode, FlowCtx, Flow, index_of, lemma_index_of, first_kill, lemma_first_kill, kill_filter,
    lemma_kill_filter_len, every_kill, node_kills, apply_kills, items_to, flow_init, flow_step, flow_run, links_of,
    vertex_ids, actions_fit, use_actions, kill_actions, assignment_actions, parents_of, link_of};

verus! {

/// The vertex an action is made at.
pub open spec fn act_id(a: ActionView) -> u32 {
    match a {
        ActionView::Use(_, id) => id,
        ActionView::Kill(_, id) => id,
    }
}

/// Every action of `acts` is made at one of `ids`.
pub open spec fn acts_in(acts: Seq<ActionView>, ids: Set<u32>) -> bool {
    forall|i: int| 0 <= i < acts.len() ==> ids.contains(act_id(#[trigger] acts[i]))
}

/// Every link of `ls` joins two of `ids`.
pub open spec fn links_in(ls: Set<LinkView>, ids: Set<u32>) -> bool {
    forall|l: LinkView| #[trigger] ls.contains(l) ==> ids.contains(l.0) && ids.contains(l.1)
}

proof fn lemma_kill_filter_in(acts: Seq<ActionView>, pos: int, kv: VarView, kid: u32, cur: Set<ActionView>,
    links: Set<LinkView>, k: int, ids: Set<u32>)
    requires
        acts_in(acts, ids),
        links_in(links, ids),
        ids.contains(kid),
        k <= acts.len(),
    ensures
        acts_in(kill_filter(acts, pos, kv, kid, cur, links, k).0, ids),
        links_in(kill_filter(acts, pos, kv, kid, cur, links, k).2, ids),
    decreases k,
{
    if k > 0 {
        lemma_kill_filter_in(acts, pos, kv, kid, cur, links, k - 1, ids);
        let (kept, c, l) = kill_filter(acts, pos, kv, kid, cur, links, k - 1);
        let a = acts[k - 1];
        assert(ids.contains(act_id(a)));
        assert forall|i: int| 0 <= i < kept.push(a).len() implies ids.contains(act_id(#[trigger] kept.push(a)[i])) by {
            if i < kept.len() {
                assert(kept.push(a)[i] == kept[i]);
            }
        }
    }
}

proof fn lemma_every_kill_in(acts: Seq<ActionView>, cur: Set<ActionView>, links: Set<LinkView>, ids: Set<u32>)
    requires
        acts_in(acts, ids),
        links_in(links, ids),
    ensures
        acts_in(every_kill(acts, cur, links).0, ids),
        links_in(every_kill(acts, cur, links).2, ids),
    decreases acts.len(),
{
    lemma_first_kill(acts);
    match first_kill(acts) {
        None => {},
        Some(p) => {
            if 0 <= p < acts.len() && acts[p] is Kill {
                let (kv, kid) = match acts[p] {
                    ActionView::Kill(kv, kid) => (kv, kid),
                    _ => arbitrary(),
                };
                assert(ids.contains(act_id(acts[p])));
                lemma_kill_filter_in(acts, p, kv, kid, cur, links, acts.len() as int, ids);
                lemma_kill_filter_len(acts, p, kv, kid, cur, links, acts.len() as int);
                let (k2, c2, l2) = kill_filter(acts, p, kv, kid, cur, links, acts.len() as int);
                lemma_every_kill_in(k2, c2, l2, ids);
            }
        },
    }
}

proof fn lemma_node_kills_in(acts: Seq<ActionView>, positions: Seq<int>, k: int, cur: Set<ActionView>,
    links: Set<LinkView>, ids: Set<u32>)
    requires
        acts_in(acts, ids),
        links_in(links, ids),
    ensures
        node_kills(acts, positions, k, cur, links) matches Some((a, c, l)) ==> acts_in(a, ids) && links_in(l, ids),
    decreases k,
{
    if k > 0 {
        lemma_node_kills_in(acts, positions, k - 1, cur, links, ids);
        match node_kills(acts, positions, k - 1, cur, links) {
            None => {},
            Some((a, c, l)) => {
                let pos = positions[k - 1];
                if 0 <= pos < a.len() {
                    match a[pos] {
                        ActionView::Kill(kv, kid) => {
                            assert(ids.contains(act_id(a[pos])));
                            lemma_kill_filter_in(a, pos, kv, kid, c, l, a.len() as int, ids);
                        },
                        ActionView::Use(..) => {},
                    }
                }
            },
        }
    }
}

/// Every action of the context is made at one of its vertices.
pub open spec fn ctx_in(c: FlowCtx) -> bool {
    &&& c.acts.len() == c.ids.len()
    &&& forall|i: int| 0 <= i < c.acts.len() ==> (#[trigger] c.acts[i] matches Some(a) ==> acts_in(a, c.ids.to_set()))
}

/// The work left holds actions made at vertices of the context, and the links
/// found join its vertices.
pub open spec fn flow_in(c: FlowCtx, s: Flow) -> bool {
    &&& forall|j: int| 0 <= j < s.stack.len() ==> acts_in((#[trigger] s.stack[j]).2, c.ids.to_set())
    &&& links_in(s.links, c.ids.to_set())
}

proof fn lemma_flow_step_in(c: FlowCtx, s: Flow)
    requires
        ctx_in(c),
        flow_in(c, s),
        s.stack.len() > 0,
    ensures
        flow_in(c, flow_step(c, s)),
{
    let ids = c.ids.to_set();
    let (from, id, actions) = s.stack.last();
    let stack = s.stack.drop_last();
    let vi = index_of(c.ids, id);
    let fi = index_of(c.ids, from);
    assert(acts_in(actions, ids)) by {
        assert(s.stack[s.stack.len() - 1] == s.stack.last());
    }
    assert forall|j: int| 0 <= j < stack.len() implies acts_in((#[trigger] stack[j]).2, ids) by {
        assert(stack[j] == s.stack[j]);
    }
    if !(vi < 0 || fi < 0 || c.acts[vi] is None) {
        lemma_index_of(c.ids, id);
        let new = c.acts[vi]->0;
        assert(c.acts[vi] matches Some(a) ==> acts_in(a, ids));
        let all = actions + new;
        assert forall|i: int| 0 <= i < all.len() implies ids.contains(act_id(#[trigger] all[i])) by {
            if i < actions.len() {
                assert(all[i] == actions[i]);
            } else {
                assert(all[i] == new[i - actions.len()]);
            }
        }
        let cur0 = s.tables[vi];
        let cur1 = cur0.union(s.tables[fi]).union(new.to_set());
        match c.mode {
            KillMode::EveryKill => {
                lemma_every_kill_in(all, cur1, s.links, ids);
            },
            KillMode::NodeKills => {
                let ps = crate::dfg::flow::kill_positions(actions.len() as int, new);
                lemma_node_kills_in(all, ps, ps.len() as int, cur1, s.links, ids);
            },
        }
        match apply_kills(c.mode, all, actions.len() as int, new, cur1, s.links) {
            None => {},
            Some((acts2, cur2, links2)) => {
                let more = items_to(id, crate::dfg::flow::parents_of(c.edges, id), acts2);
                let st2 = stack + more;
                assert forall|j: int| 0 <= j < st2.len() implies acts_in((#[trigger] st2[j]).2, ids) by {
                    if j < stack.len() {
                        assert(st2[j] == stack[j]);
                    } else {
                        assert(st2[j] == more[j - stack.len()]);
                    }
                }
            },
        }
    }
}

proof fn lemma_flow_run_in(c: FlowCtx, s: Flow, fuel: nat)
    requires
        ctx_in(c),
        flow_in(c, s),
    ensures
        flow_run(c, s, fuel) matches Some(ls) ==> links_in(ls, c.ids.to_set()),
    decreases fuel,
{
    if s.ok && s.stack.len() > 0 && fuel > 0 {
        lemma_flow_step_in(c, s);
        lemma_flow_run_in(c, flow_step(c, s), (fuel - 1) as nat);
    }
}

proof fn lemma_kill_actions_at(lhs: Seq<VarView>, op: Operator, id: u32)
    ensures
        forall|i: int| 0 <= i < kill_actions(lhs, op, id).len() ==> act_id(#[trigger] kill_actions(lhs, op, id)[i]) == id,
    decreases lhs.len(),
{
    if lhs.len() > 0 {
        lemma_kill_actions_at(lhs.drop_last(), op, id);
        let a = kill_actions(lhs.drop_last(), op, id);
        let l = lhs.last();
        let b = if op == Operator::Equal {
            seq![ActionView::Kill(l, id)]
        } else {
            seq![ActionView::Kill(l, id), ActionView::Use(l, id)]
        };
        assert forall|i: int| 0 <= i < (a + b).len() implies act_id(#[trigger] (a + b)[i]) == id by {
            if i < a.len() {
                assert((a + b)[i] == a[i]);
            } else {
                assert((a + b)[i] == b[i - a.len()]);
            }
        }
    }
}

proof fn lemma_assignment_actions_at(asgs: Seq<(Seq<VarView>, Seq<VarView>, Operator)>, id: u32)
    ensures
        forall|i: int| 0 <= i < assignment_actions(asgs, id).len() ==> act_id(#[trigger] assignment_actions(asgs, id)[i]) == id,
    decreases asgs.len(),
{
    if asgs.len() > 0 {
        lemma_assignment_actions_at(asgs.drop_last(), id);
        let (lhs, rhs, op) = asgs.last();
        lemma_kill_actions_at(lhs, op, id);
        let a = assignment_actions(asgs.drop_last(), id);
        let b = kill_actions(lhs, op, id);
        let u = use_actions(rhs, id);
        assert forall|i: int| 0 <= i < (a + b + u).len() implies act_id(#[trigger] (a + b + u)[i]) == id by {
            if i < a.len() {
                assert((a + b + u)[i] == a[i]);
            } else if i < a.len() + b.len() {
                assert((a + b + u)[i] == b[i - a.len()]);
            } else {
                assert((a + b + u)[i] == u[i - a.len() - b.len()]);
            }
        }
    }
}

/// The actions that fit a vertex are all made at it.
pub proof fn lemma_actions_fit_at(shape: Shape, id: u32, keys: Seq<(AstNode, Seq<char>)>, fuel: nat, mode: KillMode,
    a: Option<Seq<ActionView>>)
    requires
        actions_fit(shape, id, keys, fuel, mode, a),
    ensures
        a matches Some(acts) ==> forall|i: int| 0 <= i < acts.len() ==> act_id(#[trigger] acts[i]) == id,
{
    if let Some(acts) = a {
        if !(shape == Shape::Point || (shape == Shape::Mdiamond && mode == KillMode::NodeKills)) {
            if acts.len() > 0 {
                if exists|l: Seq<(Seq<VarView>, Seq<VarView>, Operator)>| a == Some(assignment_actions(l, id)) {
                    let l = choose|l: Seq<(Seq<VarView>, Seq<VarView>, Operator)>| a == Some(assignment_actions(l, id));
                    lemma_assignment_actions_at(l, id);
                }
            }
        }
    }
}

/// Only a box makes kills: the other vertices make uses alone, or nothing.
pub proof fn lemma_actions_fit_kills(shape: Shape, id: u32, keys: Seq<(AstNode, Seq<char>)>, fuel: nat,
    mode: KillMode, a: Option<Seq<ActionView>>)
    requires
        actions_fit(shape, id, keys, fuel, mode, a),
    ensures
        a matches Some(acts) ==> forall|i: int| 0 <= i < acts.len() ==> (#[trigger] acts[i] is Kill ==> shape == Shape::Box),
{
    if let Some(acts) = a {
        if shape != Shape::Box && acts.len() > 0 {
            if exists|vs: Seq<VarView>| a == Some(use_actions(vs, id)) {
                let vs = choose|vs: Seq<VarView>| a == Some(use_actions(vs, id));
                assert forall|i: int| 0 <= i < acts.len() implies !(#[trigger] acts[i] is Kill) by {
                    assert(acts[i] == use_actions(vs, id)[i]);
                }
            }
        }
    }
}

/// Every data link that the propagation finds over a graph joins two of its
/// vertices: the vertex of the use and the vertex of the kill. Here the
/// actions of each vertex are those that fit it, as `DataFlowGraph::find_links`
/// and the flow analyzer take them.
pub proof fn law_links_join_vertices(stop: u32, vertices: Seq<Vertex>, acts: Seq<Option<Seq<ActionView>>>,
    edges: Seq<(u32, u32)>, keys: Seq<(AstNode, Seq<char>)>, fuel: nat, mode: KillMode, budget: nat)
    requires
        acts.len() == vertices.len(),
        forall|i: int| 0 <= i < acts.len() ==> actions_fit(vertices[i].shape, vertices[i].id, keys, fuel, mode,
            #[trigger] acts[i]),
    ensures
        links_of(stop, vertex_ids(vertices), acts, edges, mode, budget) matches Some(ls) ==> forall|l: LinkView|
            #[trigger] ls.contains(l) ==> vertex_ids(vertices).contains(l.0) && vertex_ids(vertices).contains(l.1),
{
    let ids = vertex_ids(vertices);
    let c = FlowCtx { ids, acts, edges, mode };
    assert forall|i: int| 0 <= i < c.acts.len() implies (#[trigger] c.acts[i] matches Some(a) ==> acts_in(a,
        c.ids.to_set())) by {
        lemma_actions_fit_at(vertices[i].shape, vertices[i].id, keys, fuel, mode, acts[i]);
        if let Some(a) = acts[i] {
            assert forall|j: int| 0 <= j < a.len() implies c.ids.to_set().contains(act_id(#[trigger] a[j])) by {
                assert(act_id(a[j]) == vertices[i].id);
                assert(ids[i] == vertices[i].id);
                assert(ids.contains(ids[i]));
            }
        }
    }
    let s0 = flow_init(c, stop);
    assert forall|j: int| 0 <= j < s0.stack.len() implies acts_in((#[trigger] s0.stack[j]).2, c.ids.to_set()) by {}
    lemma_flow_run_in(c, s0, budget);
    if let Some(ls) = links_of(stop, ids, acts, edges, mode, budget) {
        assert forall|l: LinkView| #[trigger] ls.contains(l) implies ids.contains(l.0) && ids.contains(l.1) by {
            assert(c.ids.to_set().contains(l.0));
            assert(c.ids.to_set().contains(l.1));
        }
    }
}

/// `p` is a walk along `edges` from `a` to `b`.
pub open spec fn walk_between(edges: Seq<(u32, u32)>, p: Seq<u32>, a: u32, b: u32) -> bool {
    &&& p.len() > 0
    &&& p[0] == a
    &&& p.last() == b
    &&& forall|i: int| 0 <= i < p.len() - 1 ==> #[trigger] edges.contains((p[i], p[i + 1]))
}

/// `b` is reached from `a` along `edges` (every vertex reaches itself).
pub open spec fn reaches(edges: Seq<(u32, u32)>, a: u32, b: u32) -> bool {
    exists|p: Seq<u32>| #[trigger] walk_between(edges, p, a, b)
}

proof fn lemma_reaches_self(edges: Seq<(u32, u32)>, a: u32)
    ensures
        reaches(edges, a, a),
{
    assert(walk_between(edges, seq![a], a, a));
}

proof fn lemma_reaches_edge(edges: Seq<(u32, u32)>, a: u32, b: u32, c: u32)
    requires
        edges.contains((a, b)),
        reaches(edges, b, c),
    ensures
        reaches(edges, a, c),
{
    let p = choose|p: Seq<u32>| #[trigger] walk_between(edges, p, b, c);
    let q = seq![a] + p;
    assert forall|i: int| 0 <= i < q.len() - 1 implies #[trigger] edges.contains((q[i], q[i + 1])) by {
        assert(q[i + 1] == p[i]);
        if i > 0 {
            let h = i - 1;
            assert(q[i] == p[h]);
            assert(edges.contains((p[h], p[h + 1])));
        } else {
            assert(q[i] == a);
        }
    }
    assert(q.last() == p.last());
    assert(walk_between(edges, q, a, c));
}

/// Actions in the order the propagation meets them, going back from the exit
/// below `root`: `root` reaches the vertex of each, the vertex of a later one
/// reaches that of an earlier one, and each kill is made at one of `boxes`.
pub open spec fn acts_reach(edges: Seq<(u32, u32)>, acts: Seq<ActionView>, boxes: Set<u32>, root: u32) -> bool {
    &&& forall|i: int| 0 <= i < acts.len() ==> reaches(edges, root, act_id(#[trigger] acts[i]))
    &&& forall|i: int, j: int| 0 <= i < j < acts.len() ==> reaches(edges, act_id(#[trigger] acts[j]),
        act_id(#[trigger] acts[i]))
    &&& forall|i: int| 0 <= i < acts.len() ==> (#[trigger] acts[i] is Kill ==> boxes.contains(act_id(acts[i])))
}

/// Each link joins a kill at one of `boxes` to a use that its vertex reaches.
pub open spec fn links_reach(edges: Seq<(u32, u32)>, ls: Set<LinkView>, boxes: Set<u32>) -> bool {
    forall|l: LinkView| #[trigger] ls.contains(l) ==> reaches(edges, l.1, l.0) && boxes.contains(l.1)
}

proof fn lemma_kill_filter_reach(edges: Seq<(u32, u32)>, boxes: Set<u32>, root: u32, acts: Seq<ActionView>, pos: int,
    kv: VarView, kid: u32, cur: Set<ActionView>, links: Set<LinkView>, k: int)
    requires
        acts_reach(edges, acts, boxes, root),
        links_reach(edges, links, boxes),
        0 <= pos < acts.len(),
        acts[pos] == ActionView::Kill(kv, kid),
        k <= acts.len(),
    ensures
        forall|x: int| 0 <= x < kill_filter(acts, pos, kv, kid, cur, links, k).0.len() ==> exists|i: int|
            0 <= i < k && #[trigger] kill_filter(acts, pos, kv, kid, cur, links, k).0[x] == acts[i],
        acts_reach(edges, kill_filter(acts, pos, kv, kid, cur, links, k).0, boxes, root),
        links_reach(edges, kill_filter(acts, pos, kv, kid, cur, links, k).2, boxes),
    decreases k,
{
    if k > 0 {
        lemma_kill_filter_reach(edges, boxes, root, acts, pos, kv, kid, cur, links, k - 1);
        let (kept, c, l) = kill_filter(acts, pos, kv, kid, cur, links, k - 1);
        let a = acts[k - 1];
        assert(act_id(acts[pos]) == kid);
        let kp = kept.push(a);
        assert forall|x: int| 0 <= x < kp.len() implies exists|i: int| 0 <= i < k && #[trigger] kp[x] == acts[i] by {
            if x < kept.len() {
                assert(kp[x] == kept[x]);
            } else {
                assert(kp[x] == acts[k - 1]);
            }
        }
        assert forall|i: int, j: int| 0 <= i < j < kp.len() implies reaches(edges, act_id(#[trigger] kp[j]),
            act_id(#[trigger] kp[i])) by {
            assert(kp[i] == kept[i]);
            let ii = choose|ii: int| 0 <= ii < k - 1 && #[trigger] kept[i] == acts[ii];
            if j < kept.len() {
                assert(kp[j] == kept[j]);
            } else {
                assert(kp[j] == acts[k - 1]);
                assert(reaches(edges, act_id(acts[k - 1]), act_id(acts[ii])));
            }
        }
        assert forall|i: int| 0 <= i < kp.len() implies reaches(edges, root, act_id(#[trigger] kp[i])) by {
            if i < kept.len() {
                assert(kp[i] == kept[i]);
            }
        }
        assert forall|i: int| 0 <= i < kp.len() && #[trigger] kp[i] is Kill implies boxes.contains(act_id(kp[i])) by {
            if i < kept.len() {
                assert(kp[i] == kept[i]);
            }
        }
        if k - 1 < pos {
            if let ActionView::Use(v, uid) = a {
                assert(reaches(edges, act_id(acts[pos]), act_id(acts[k - 1])));
                let ln = link_of(uid, kid, kv, v);
                assert(ln.0 == uid && ln.1 == kid);
                assert forall|m: LinkView| #[trigger] l.insert(ln).contains(m) implies reaches(edges, m.1, m.0)
                    && boxes.contains(m.1) by {
                    if m != ln {
                        assert(l.contains(m));
                    }
                }
            }
        }
    }
}

proof fn lemma_every_kill_reach(edges: Seq<(u32, u32)>, boxes: Set<u32>, root: u32, acts: Seq<ActionView>,
    cur: Set<ActionView>, links: Set<LinkView>)
    requires
        acts_reach(edges, acts, boxes, root),
        links_reach(edges, links, boxes),
    ensures
        acts_reach(edges, every_kill(acts, cur, links).0, boxes, root),
        links_reach(edges, every_kill(acts, cur, links).2, boxes),
    decreases acts.len(),
{
    lemma_first_kill(acts);
    match first_kill(acts) {
        None => {},
        Some(p) => {
            if 0 <= p < acts.len() && acts[p] is Kill {
                let (kv, kid) = match acts[p] {
                    ActionView::Kill(kv, kid) => (kv, kid),
                    _ => arbitrary(),
                };
                lemma_kill_filter_reach(edges, boxes, root, acts, p, kv, kid, cur, links, acts.len() as int);
                lemma_kill_filter_len(acts, p, kv, kid, cur, links, acts.len() as int);
                let (k2, c2, l2) = kill_filter(acts, p, kv, kid, cur, links, acts.len() as int);
                lemma_every_kill_reach(edges, boxes, root, k2, c2, l2);
            }
        },
    }
}

proof fn lemma_node_kills_reach(edges: Seq<(u32, u32)>, boxes: Set<u32>, root: u32, acts: Seq<ActionView>,
    positions: Seq<int>, k: int, cur: Set<ActionView>, links: Set<LinkView>)
    requires
        acts_reach(edges, acts, boxes, root),
        links_reach(edges, links, boxes),
    ensures
        node_kills(acts, positions, k, cur, links) matches Some((a, c, l)) ==> acts_reach(edges, a, boxes, root)
            && links_reach(edges, l, boxes),
    decreases k,
{
    if k > 0 {
        lemma_node_kills_reach(edges, boxes, root, acts, positions, k - 1, cur, links);
        match node_kills(acts, positions, k - 1, cur, links) {
            None => {},
            Some((a, c, l)) => {
                let pos = positions[k - 1];
                if 0 <= pos < a.len() {
                    match a[pos] {
                        ActionView::Kill(kv, kid) => {
                            lemma_kill_filter_reach(edges, boxes, root, a, pos, kv, kid, c, l, a.len() as int);
                        },
                        ActionView::Use(..) => {},
                    }
                }
            },
        }
    }
}

proof fn lemma_parents_of(edges: Seq<(u32, u32)>, id: u32)
    ensures
        forall|k: int| 0 <= k < parents_of(edges, id).len() ==> edges.contains((#[trigger] parents_of(edges, id)[k], id)),
    decreases edges.len(),
{
    if edges.len() > 0 {
        lemma_parents_of(edges.drop_last(), id);
        let ps = parents_of(edges.drop_last(), id);
        assert forall|k: int| 0 <= k < parents_of(edges, id).len() implies edges.contains(
            (#[trigger] parents_of(edges, id)[k], id)) by {
            if k < ps.len() {
                assert(parents_of(edges, id)[k] == ps[k]);
                assert(edges.drop_last().contains((ps[k], id)));
                let j = choose|j: int| 0 <= j < edges.drop_last().len() && edges.drop_last()[j] == (ps[k], id);
                assert(edges[j] == edges.drop_last()[j]);
            } else {
                assert(edges[edges.len() - 1] == edges.last());
            }
        }
    }
}

/// Each vertex of the context makes its actions at its own id, and makes a
/// kill only where its id is one of `boxes`.
pub open spec fn ctx_reach(c: FlowCtx, boxes: Set<u32>) -> bool {
    &&& c.acts.len() == c.ids.len()
    &&& forall|i: int| 0 <= i < c.acts.len() ==> (#[trigger] c.acts[i] matches Some(a) ==> {
        &&& forall|j: int| 0 <= j < a.len() ==> act_id(#[trigger] a[j]) == c.ids[i]
        &&& forall|j: int| 0 <= j < a.len() ==> (#[trigger] a[j] is Kill ==> boxes.contains(c.ids[i]))
    })
}

/// Each work item goes from a vertex to one of its parents, with actions met
/// below the vertex it goes from; and each link found joins a kill to a use
/// that it reaches.
pub open spec fn flow_reach(c: FlowCtx, s: Flow, boxes: Set<u32>) -> bool {
    &&& forall|j: int| 0 <= j < s.stack.len() ==> acts_reach(c.edges, (#[trigger] s.stack[j]).2, boxes, s.stack[j].0)
        && c.edges.contains((s.stack[j].1, s.stack[j].0))
    &&& links_reach(c.edges, s.links, boxes)
}

proof fn lemma_flow_step_reach(c: FlowCtx, s: Flow, boxes: Set<u32>)
    requires
        ctx_reach(c, boxes),
        flow_reach(c, s, boxes),
        s.stack.len() > 0,
    ensures
        flow_reach(c, flow_step(c, s), boxes),
{
    let (from, id, actions) = s.stack.last();
    let stack = s.stack.drop_last();
    let vi = index_of(c.ids, id);
    let fi = index_of(c.ids, from);
    lemma_index_of(c.ids, id);
    assert(s.stack[s.stack.len() - 1] == s.stack.last());
    assert forall|j: int| 0 <= j < stack.len() implies acts_reach(c.edges, (#[trigger] stack[j]).2, boxes, stack[j].0)
        && c.edges.contains((stack[j].1, stack[j].0)) by {
        assert(stack[j] == s.stack[j]);
    }
    if !(vi < 0 || fi < 0 || c.acts[vi] is None) {
        let new = c.acts[vi]->0;
        let acts = actions + new;
        assert(c.ids[vi] == id);
        assert forall|i: int| 0 <= i < acts.len() implies reaches(c.edges, id, act_id(#[trigger] acts[i])) by {
            if i < actions.len() {
                assert(acts[i] == actions[i]);
                lemma_reaches_edge(c.edges, id, from, act_id(actions[i]));
            } else {
                assert(acts[i] == new[i - actions.len()]);
                lemma_reaches_self(c.edges, id);
            }
        }
        assert forall|i: int, j: int| 0 <= i < j < acts.len() implies reaches(c.edges, act_id(#[trigger] acts[j]),
            act_id(#[trigger] acts[i])) by {
            if j < actions.len() {
                assert(acts[i] == actions[i]);
                assert(acts[j] == actions[j]);
            } else {
                assert(acts[j] == new[j - actions.len()]);
                assert(act_id(acts[j]) == id);
            }
        }
        assert forall|i: int| 0 <= i < acts.len() && #[trigger] acts[i] is Kill implies boxes.contains(
            act_id(acts[i])) by {
            if i < actions.len() {
                assert(acts[i] == actions[i]);
            } else {
                assert(acts[i] == new[i - actions.len()]);
            }
        }
        assert(acts_reach(c.edges, acts, boxes, id));
        let cur1 = s.tables[vi].union(s.tables[fi]).union(new.to_set());
        match c.mode {
            KillMode::EveryKill => lemma_every_kill_reach(c.edges, boxes, id, acts, cur1, s.links),
            KillMode::NodeKills => {
                let ps = crate::dfg::flow::kill_positions(actions.len() as int, new);
                lemma_node_kills_reach(c.edges, boxes, id, acts, ps, ps.len() as int, cur1, s.links);
            },
        }
        match apply_kills(c.mode, acts, actions.len() as int, new, cur1, s.links) {
            None => {},
            Some((acts2, cur2, links2)) => {
                lemma_parents_of(c.edges, id);
                let items = items_to(id, parents_of(c.edges, id), acts2);
                let st = stack + items;
                assert forall|j: int| 0 <= j < st.len() implies acts_reach(c.edges, (#[trigger] st[j]).2, boxes,
                    st[j].0) && c.edges.contains((st[j].1, st[j].0)) by {
                    if j < stack.len() {
                        assert(st[j] == stack[j]);
                    } else {
                        assert(st[j] == items[j - stack.len()]);
                        assert(c.edges.contains((parents_of(c.edges, id)[j - stack.len()], id)));
                    }
                }
            },
        }
    }
}

proof fn lemma_flow_run_reach(c: FlowCtx, s: Flow, boxes: Set<u32>, fuel: nat)
    requires
        ctx_reach(c, boxes),
        flow_reach(c, s, boxes),
    ensures
        flow_run(c, s, fuel) matches Some(ls) ==> links_reach(c.edges, ls, boxes),
    decreases fuel,
{
    if s.ok && s.stack.len() > 0 && fuel > 0 {
        lemma_flow_step_reach(c, s, boxes);
        lemma_flow_run_reach(c, flow_step(c, s), boxes, (fuel - 1) as nat);
    }
}

/// The ids of the vertices drawn as boxes: the statements that can assign.
pub open spec fn box_ids(vertices: Seq<Vertex>) -> Set<u32> {
    Set::new(|x: u32| exists|i: int| 0 <= i < vertices.len() && (#[trigger] vertices[i]).id == x
        && vertices[i].shape == Shape::Box)
}

/// Every data link that the propagation finds over a graph joins a kill to a
/// use that the kill reaches: the vertex of the kill is a box (a statement that
/// assigns), and from it a walk along the edges of the graph leads to the
/// vertex of the use. Here the actions of each vertex are those that fit it,
/// as `DataFlowGraph::find_links` and the flow analyzer take them.
pub proof fn law_links_follow_edges(stop: u32, vertices: Seq<Vertex>, acts: Seq<Option<Seq<ActionView>>>,
    edges: Seq<(u32, u32)>, keys: Seq<(AstNode, Seq<char>)>, fuel: nat, mode: KillMode, budget: nat)
    requires
        acts.len() == vertices.len(),
        forall|i: int| 0 <= i < acts.len() ==> actions_fit(vertices[i].shape, vertices[i].id, keys, fuel, mode,
            #[trigger] acts[i]),
    ensures
        links_of(stop, vertex_ids(vertices), acts, edges, mode, budget) matches Some(ls) ==> forall|l: LinkView|
            #[trigger] ls.contains(l) ==> reaches(edges, l.1, l.0) && box_ids(vertices).contains(l.1),
{
    let ids = vertex_ids(vertices);
    let boxes = box_ids(vertices);
    let c = FlowCtx { ids, acts, edges, mode };
    assert forall|i: int| 0 <= i < c.acts.len() implies (#[trigger] c.acts[i] matches Some(a) ==> {
        &&& forall|j: int| 0 <= j < a.len() ==> act_id(#[trigger] a[j]) == c.ids[i]
        &&& forall|j: int| 0 <= j < a.len() ==> (#[trigger] a[j] is Kill ==> boxes.contains(c.ids[i]))
    }) by {
        lemma_actions_fit_at(vertices[i].shape, vertices[i].id, keys, fuel, mode, acts[i]);
        lemma_actions_fit_kills(vertices[i].shape, vertices[i].id, keys, fuel, mode, acts[i]);
        assert(ids[i] == vertices[i].id);
        if let Some(a) = acts[i] {
            assert forall|j: int| 0 <= j < a.len() && #[trigger] a[j] is Kill implies boxes.contains(c.ids[i]) by {
                if a[j] is Kill {
                    assert(vertices[i].shape == Shape::Box);
                }
            }
        }
    }
    let s0 = flow_init(c, stop);
    lemma_parents_of(edges, stop);
    assert forall|j: int| 0 <= j < s0.stack.len() implies acts_reach(c.edges, (#[trigger] s0.stack[j]).2, boxes,
        s0.stack[j].0) && c.edges.contains((s0.stack[j].1, s0.stack[j].0)) by {
        assert(c.edges.contains((parents_of(edges, stop)[j], stop)));
    }
    lemma_flow_run_reach(c, s0, boxes, budget);
}

/// `a` is a use of a variable with the same members as `kv`.
pub open spec fn same_use(kv: VarView, a: ActionView) -> bool {
    a matches ActionView::Use(v, _) && compare_members(kv.0, v.0) == VariableComparison::Equal
}

/// `a` is a use of a variable that `kv` is, holds, or is held by.
pub open spec fn related_use(kv: VarView, a: ActionView) -> bool {
    a matches ActionView::Use(v, _) && compare_members(kv.0, v.0) != VariableComparison::NotEqual
}

/// The link that a kill of `kv` at `kid` makes with the use `a`.
pub open spec fn link_with(kv: VarView, kid: u32, a: ActionView) -> LinkView {
    match a {
        ActionView::Use(v, uid) => link_of(uid, kid, kv, v),
        ActionView::Kill(..) => arbitrary(),
    }
}

/// The kill of `kv` at `kid`, standing at `pos` of `acts`, applied to them:
/// each earlier use of a variable related to `kv` is linked to the kill; an
/// earlier use of exactly `kv` is dropped, so it goes no further back; every
/// other action but the kill itself is kept; and nothing else is kept or linked.
pub proof fn law_kill_filter(acts: Seq<ActionView>, pos: int, kv: VarView, kid: u32, cur: Set<ActionView>,
    links: Set<LinkView>, k: int)
    requires
        0 <= k <= acts.len(),
    ensures
        forall|i: int| 0 <= i < k && i != pos && !(i < pos && same_use(kv, acts[i]))
            ==> kill_filter(acts, pos, kv, kid, cur, links, k).0.contains(#[trigger] acts[i]),
        forall|x: ActionView| #[trigger] kill_filter(acts, pos, kv, kid, cur, links, k).0.contains(x) ==> exists|i: int|
            0 <= i < k && i != pos && acts[i] == x && !(i < pos && same_use(kv, x)),
        forall|i: int| 0 <= i < k && i < pos && related_use(kv, #[trigger] acts[i])
            ==> kill_filter(acts, pos, kv, kid, cur, links, k).2.contains(link_with(kv, kid, acts[i])),
        forall|l: LinkView| #[trigger] kill_filter(acts, pos, kv, kid, cur, links, k).2.contains(l) ==> links.contains(l)
            || exists|i: int| 0 <= i < k && i < pos && related_use(kv, acts[i]) && l == link_with(kv, kid, acts[i]),
        links.subset_of(kill_filter(acts, pos, kv, kid, cur, links, k).2),
    decreases k,
{
    if k > 0 {
        law_kill_filter(acts, pos, kv, kid, cur, links, k - 1);
        let (kept, c, l) = kill_filter(acts, pos, kv, kid, cur, links, k - 1);
        let r = kill_filter(acts, pos, kv, kid, cur, links, k);
        let a = acts[k - 1];
        assert forall|i: int| 0 <= i < k && i != pos && !(i < pos && same_use(kv, acts[i]))
            implies r.0.contains(#[trigger] acts[i]) by {
            if i < k - 1 {
                assert(kept.contains(acts[i]));
                let j = choose|j: int| 0 <= j < kept.len() && kept[j] == acts[i];
                if r.0 != kept {
                    assert(r.0 == kept.push(a));
                    assert(r.0[j] == kept[j]);
                }
            } else {
                assert(r.0 == kept.push(a));
                assert(r.0[kept.len() as int] == a);
            }
        }
        assert forall|x: ActionView| #[trigger] r.0.contains(x) implies exists|i: int|
            0 <= i < k && i != pos && acts[i] == x && !(i < pos && same_use(kv, x)) by {
            let j = choose|j: int| 0 <= j < r.0.len() && r.0[j] == x;
            if r.0 == kept || j < kept.len() {
                if r.0 != kept {
                    assert(r.0 == kept.push(a));
                    assert(r.0[j] == kept[j]);
                }
                assert(kept.contains(x));
            } else {
                assert(r.0 == kept.push(a));
                assert(x == a);
                assert(acts[k - 1] == x);
            }
        }
        assert forall|i: int| 0 <= i < k && i < pos && related_use(kv, #[trigger] acts[i])
            implies r.2.contains(link_with(kv, kid, acts[i])) by {
            if i < k - 1 {
                assert(l.contains(link_with(kv, kid, acts[i])));
            }
        }
        assert forall|m: LinkView| #[trigger] r.2.contains(m) implies links.contains(m)
            || exists|i: int| 0 <= i < k && i < pos && related_use(kv, acts[i]) && m == link_with(kv, kid, acts[i]) by {
            if !l.contains(m) {
                assert(related_use(kv, acts[k - 1]) && m == link_with(kv, kid, acts[k - 1]));
            }
        }
    }
}

/// The kills of an assignment: each variable set is killed; an update (any
/// operator but `=` and `delete`) also reads each variable it sets, so the
/// variable's earlier value flows into it; a plain assignment reads none.
pub proof fn law_kill_actions(lhs: Seq<VarView>, op: Operator, id: u32)
    ensures
        forall|i: int| 0 <= i < lhs.len() ==> kill_actions(lhs, op, id).contains(ActionView::Kill(#[trigger] lhs[i], id)),
        op == Operator::Other ==> forall|i: int| 0 <= i < lhs.len()
            ==> kill_actions(lhs, op, id).contains(ActionView::Use(#[trigger] lhs[i], id)),
        op == Operator::Equal ==> forall|j: int| 0 <= j < kill_actions(lhs, op, id).len()
            ==> (#[trigger] kill_actions(lhs, op, id)[j]) is Kill,
    decreases lhs.len(),
{
    if lhs.len() > 0 {
        law_kill_actions(lhs.drop_last(), op, id);
        let a = kill_actions(lhs.drop_last(), op, id);
        let l = lhs.last();
        let b = if op == Operator::Equal { seq![ActionView::Kill(l, id)] } else {
            seq![ActionView::Kill(l, id), ActionView::Use(l, id)] };
        let r = kill_actions(lhs, op, id);
        assert(r == a + b);
        assert forall|i: int| 0 <= i < lhs.len() implies r.contains(ActionView::Kill(#[trigger] lhs[i], id)) by {
            if i < lhs.len() - 1 {
                assert(lhs.drop_last()[i] == lhs[i]);
                let j = choose|j: int| 0 <= j < a.len() && a[j] == ActionView::Kill(lhs[i], id);
                assert(r[j] == a[j]);
            } else {
                assert(r[a.len() as int] == b[0]);
            }
        }
        if op == Operator::Other {
            assert forall|i: int| 0 <= i < lhs.len() implies r.contains(ActionView::Use(#[trigger] lhs[i], id)) by {
                if i < lhs.len() - 1 {
                    assert(lhs.drop_last()[i] == lhs[i]);
                    let j = choose|j: int| 0 <= j < a.len() && a[j] == ActionView::Use(lhs[i], id);
                    assert(r[j] == a[j]);
                } else {
                    assert(r[a.len() as int + 1] == b[1]);
                }
            }
        }
        if op == Operator::Equal {
            assert forall|j: int| 0 <= j < r.len() implies (#[trigger] r[j]) is Kill by {
                if j < a.len() {
                    assert(r[j] == a[j]);
                } else {
                    assert(r[j] == b[j - a.len()]);
                }
            }
        }
    }
}

/// With every kill applied, no kill is left among the actions carried back.
pub proof fn law_every_kill_applies_all(acts: Seq<ActionView>, cur: Set<ActionView>, links: Set<LinkView>)
    ensures
        forall|j: int| 0 <= j < every_kill(acts, cur, links).0.len() ==> !((#[trigger] every_kill(acts, cur, links).0[j]) is Kill),
        links.subset_of(every_kill(acts, cur, links).2),
    decreases acts.len(),
{
    lemma_first_kill(acts);
    match first_kill(acts) {
        None => {},
        Some(p) => {
            let (kv, kid) = match acts[p] {
                ActionView::Kill(kv, kid) => (kv, kid),
                _ => arbitrary(),
            };
            lemma_kill_filter_len(acts, p, kv, kid, cur, links, acts.len() as int);
            law_kill_filter(acts, p, kv, kid, cur, links, acts.len() as int);
            let (k2, c2, l2) = kill_filter(acts, p, kv, kid, cur, links, acts.len() as int);
            law_every_kill_applies_all(k2, c2, l2);
        },
    }
}

} // verus!
