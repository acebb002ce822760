//! The propagation of actions backwards through the control flow graph, from
//! its exit, that finds the data links of a function.
use std::collections::HashSet;
use vstd::prelude::*;
use crate::ast::AstNode;
use crate::shared::walker::{Walker, lemma_tree_ok_child};
use crate::shared::dict::{Dictionary, entry_of, key_of};
use crate::shared::variable::{Variable, VarView, VariableComparison, compare_members, var_set, vars_distinct,
    spec_parse, union_vars};
use crate::shared::assignment::{Assignment, AssignmentView, Operator, spec_parse_assignments};
use crate::graph::vertex::{Vertex, Shape};
use crate::graph::state::State;
use crate::dfg::action::{Action, ActionView, action_views, action_set, actions_distinct, copy_actions, table_insert,
    table_remove, table_extend};
use crate::dfg::link::{DataLink, LinkView, link_set, links_distinct, link_insert};

verus! {

/// How the kills of a node are applied to the actions met on a path.
#[derive(PartialEq, Eq, Structural, Clone, Copy)]
pub enum KillMode {
    /// Every kill, the first one first, until none is left
    EveryKill,
    /// The kills of the node, at the positions they were added at
    NodeKills,
}

/// The position of the first of `xs` that is `x`, or -1.
pub open spec fn index_of(xs: Seq<u32>, x: u32) -> int
    decreases xs.len(),
{
    if xs.len() == 0 {
        -1
    } else if index_of(xs.drop_last(), x) >= 0 {
        index_of(xs.drop_last(), x)
    } else if xs.last() == x {
        xs.len() - 1
    } else {
        -1
    }
}

pub proof fn lemma_index_of(xs: Seq<u32>, x: u32)
    ensures
        -1 <= index_of(xs, x) < xs.len(),
        index_of(xs, x) >= 0 ==> xs[index_of(xs, x)] == x,
        index_of(xs, x) >= 0 ==> forall|j: int| 0 <= j < index_of(xs, x) ==> xs[j] != x,
        index_of(xs, x) < 0 ==> forall|j: int| 0 <= j < xs.len() ==> xs[j] != x,
    decreases xs.len(),
{
    if xs.len() > 0 {
        lemma_index_of(xs.drop_last(), x);
        assert forall|j: int| 0 <= j < xs.len() - 1 implies xs[j] == xs.drop_last()[j] by {}
    }
}

/// The sources of the edges into `id`, in edge order.
pub open spec fn parents_of(edges: Seq<(u32, u32)>, id: u32) -> Seq<u32>
    decreases edges.len(),
{
    if edges.len() == 0 {
        seq![]
    } else if edges.last().1 == id {
        parents_of(edges.drop_last(), id).push(edges.last().0)
    } else {
        parents_of(edges.drop_last(), id)
    }
}

/// The first kill of `acts`, if there is one.
pub open spec fn first_kill(acts: Seq<ActionView>) -> Option<int>
    decreases acts.len(),
{
    if acts.len() == 0 {
        None
    } else {
        match first_kill(acts.drop_last()) {
            Some(p) => Some(p),
            None => if acts.last() is Kill { Some(acts.len() - 1) } else { None },
        }
    }
}

/// The link that a use of `v` at `uid` and a kill of `kv` at `kid` make.
pub open spec fn link_of(uid: u32, kid: u32, kv: VarView, v: VarView) -> LinkView {
    match compare_members(kv.0, v.0) {
        VariableComparison::Partial => (uid, kid, if kv.0.len() > v.0.len() { kv } else { v }),
        _ => (uid, kid, v),
    }
}

/// The kill of `kv` at `kid`, which stands at `pos` of `acts`, applied to the
/// first `k` actions: an earlier use of the same variable is linked to the
/// kill and dropped, an earlier use of a variable that holds `kv` is linked
/// and kept; the kill itself is dropped. Each use linked, and the kill, leave
/// the table `cur`.
pub open spec fn kill_filter(acts: Seq<ActionView>, pos: int, kv: VarView, kid: u32, cur: Set<ActionView>,
    links: Set<LinkView>, k: int) -> (Seq<ActionView>, Set<ActionView>, Set<LinkView>)
    decreases k,
{
    if k <= 0 {
        (seq![], cur, links)
    } else {
        let (kept, c, l) = kill_filter(acts, pos, kv, kid, cur, links, k - 1);
        let i = k - 1;
        let a = acts[i];
        if i < pos {
            match a {
                ActionView::Use(v, uid) => match compare_members(kv.0, v.0) {
                    VariableComparison::Equal => (kept, c.remove(a), l.insert(link_of(uid, kid, kv, v))),
                    VariableComparison::Partial => (kept.push(a), c.remove(a), l.insert(link_of(uid, kid, kv, v))),
                    VariableComparison::NotEqual => (kept.push(a), c, l),
                },
                ActionView::Kill(..) => (kept.push(a), c, l),
            }
        } else if i > pos {
            (kept.push(a), c, l)
        } else {
            (kept, c.remove(a), l)
        }
    }
}

/// The filter keeps at most the actions it has passed, less the kill.
pub proof fn lemma_kill_filter_len(acts: Seq<ActionView>, pos: int, kv: VarView, kid: u32, cur: Set<ActionView>,
    links: Set<LinkView>, k: int)
    requires
        0 <= pos < k,
    ensures
        kill_filter(acts, pos, kv, kid, cur, links, k).0.len() < k,
    decreases k,
{
    if k - 1 > pos {
        lemma_kill_filter_len(acts, pos, kv, kid, cur, links, k - 1);
    } else {
        lemma_kill_filter_short(acts, pos, kv, kid, cur, links, k - 1);
    }
}

pub proof fn lemma_kill_filter_short(acts: Seq<ActionView>, pos: int, kv: VarView, kid: u32, cur: Set<ActionView>,
    links: Set<LinkView>, k: int)
    ensures
        kill_filter(acts, pos, kv, kid, cur, links, k).0.len() <= if k < 0 { 0 } else { k },
    decreases k,
{
    if k > 0 {
        lemma_kill_filter_short(acts, pos, kv, kid, cur, links, k - 1);
    }
}

/// Every kill applied, the first one first, until none is left.
pub open spec fn every_kill(acts: Seq<ActionView>, cur: Set<ActionView>, links: Set<LinkView>)
    -> (Seq<ActionView>, Set<ActionView>, Set<LinkView>)
    decreases acts.len(),
{
    match first_kill(acts) {
        None => (acts, cur, links),
        Some(p) => {
            if 0 <= p < acts.len() && acts[p] is Kill {
                let (kv, kid) = match acts[p] {
                    ActionView::Kill(kv, kid) => (kv, kid),
                    _ => arbitrary(),
                };
                let (k2, c2, l2) = kill_filter(acts, p, kv, kid, cur, links, acts.len() as int);
                proof { lemma_kill_filter_len(acts, p, kv, kid, cur, links, acts.len() as int); }
                every_kill(k2, c2, l2)
            } else {
                (acts, cur, links)
            }
        },
    }
}

/// The positions of the kills of `new`, counted from `base`.
pub open spec fn kill_positions(base: int, new: Seq<ActionView>) -> Seq<int>
    decreases new.len(),
{
    if new.len() == 0 {
        seq![]
    } else if new.last() is Kill {
        kill_positions(base, new.drop_last()).push(base + new.len() - 1)
    } else {
        kill_positions(base, new.drop_last())
    }
}

/// The kills at the first `k` of `positions` applied in turn, each at its
/// position among the actions left; a position that holds a use is passed
/// over. `None` where a position lies beyond the actions left.
pub open spec fn node_kills(acts: Seq<ActionView>, positions: Seq<int>, k: int, cur: Set<ActionView>,
    links: Set<LinkView>) -> Option<(Seq<ActionView>, Set<ActionView>, Set<LinkView>)>
    decreases k,
{
    if k <= 0 {
        Some((acts, cur, links))
    } else {
        match node_kills(acts, positions, k - 1, cur, links) {
            None => None,
            Some((a, c, l)) => {
                let pos = positions[k - 1];
                if pos < 0 || pos >= a.len() {
                    None
                } else {
                    match a[pos] {
                        ActionView::Kill(kv, kid) => Some(kill_filter(a, pos, kv, kid, c, l, a.len() as int)),
                        ActionView::Use(..) => Some((a, c, l)),
                    }
                }
            },
        }
    }
}

/// The kills of a node applied, after its actions `new` were added to the
/// `base` actions met before it.
pub open spec fn apply_kills(mode: KillMode, acts: Seq<ActionView>, base: int, new: Seq<ActionView>,
    cur: Set<ActionView>, links: Set<LinkView>) -> Option<(Seq<ActionView>, Set<ActionView>, Set<LinkView>)>
{
    match mode {
        KillMode::EveryKill => Some(every_kill(acts, cur, links)),
        KillMode::NodeKills => {
            let ps = kill_positions(base, new);
            node_kills(acts, ps, ps.len() as int, cur, links)
        },
    }
}

/// What the propagation works on: the ids of the vertices and, for each, the
/// actions it makes (`None` where they cannot be found); the edges; and how
/// kills are applied.
pub struct FlowCtx {
    pub ids: Seq<u32>,
    pub acts: Seq<Option<Seq<ActionView>>>,
    pub edges: Seq<(u32, u32)>,
    pub mode: KillMode,
}

/// Where the propagation stands: the work left (from, vertex, actions met),
/// the table of each vertex (by the position of its id), the vertices
/// visited, the links found, and whether nothing failed.
pub struct Flow {
    pub stack: Seq<(u32, u32, Seq<ActionView>)>,
    pub tables: Seq<Set<ActionView>>,
    pub visited: Set<u32>,
    pub links: Set<LinkView>,
    pub ok: bool,
}

/// Work items from `id` to each of `parents`, with the actions `acts`.
pub open spec fn items_to(id: u32, parents: Seq<u32>, acts: Seq<ActionView>) -> Seq<(u32, u32, Seq<ActionView>)> {
    parents.map_values(|p: u32| (id, p, acts))
}

/// The propagation before its first step: work from the exit to each of its parents.
pub open spec fn flow_init(c: FlowCtx, stop: u32) -> Flow {
    Flow {
        stack: items_to(stop, parents_of(c.edges, stop), seq![]),
        tables: Seq::new(c.ids.len(), |i: int| Set::<ActionView>::empty()),
        visited: Set::empty(),
        links: Set::empty(),
        ok: true,
    }
}

/// One step: the last work item is taken; the actions of its vertex are added
/// to those met, the table of the vertex takes in that of the vertex it came
/// from and the new actions, and the kills are applied. When the table
/// changed or the vertex is met for the first time, the work goes on to its
/// parents. A vertex (or the one it came from) without an id fails the step.
pub open spec fn flow_step(c: FlowCtx, s: Flow) -> Flow {
    let (from, id, actions) = s.stack.last();
    let stack = s.stack.drop_last();
    let vi = index_of(c.ids, id);
    let fi = index_of(c.ids, from);
    if vi < 0 || fi < 0 || c.acts[vi] is None {
        Flow { ok: false, ..s }
    } else {
        let new = c.acts[vi]->0;
        let cur0 = s.tables[vi];
        let cur1 = cur0.union(s.tables[fi]).union(new.to_set());
        match apply_kills(c.mode, actions + new, actions.len() as int, new, cur1, s.links) {
            None => Flow { ok: false, ..s },
            Some((acts2, cur2, links2)) => {
                let tables = s.tables.update(vi, cur2);
                if cur2.len() != cur0.len() || !s.visited.contains(id) {
                    Flow {
                        stack: stack + items_to(id, parents_of(c.edges, id), acts2),
                        tables,
                        visited: s.visited.insert(id),
                        links: links2,
                        ok: true,
                    }
                } else {
                    Flow { stack, tables, links: links2, ..s }
                }
            },
        }
    }
}

/// The links found once no work is left, within `fuel` steps; `None` where a
/// step fails or the fuel runs out.
pub open spec fn flow_run(c: FlowCtx, s: Flow, fuel: nat) -> Option<Set<LinkView>>
    decreases fuel,
{
    if !s.ok {
        None
    } else if s.stack.len() == 0 {
        Some(s.links)
    } else if fuel == 0 {
        None
    } else {
        flow_run(c, flow_step(c, s), (fuel - 1) as nat)
    }
}

pub proof fn lemma_first_kill(acts: Seq<ActionView>)
    ensures
        first_kill(acts) matches Some(p) ==> 0 <= p < acts.len() && acts[p] is Kill
            && forall|j: int| 0 <= j < p ==> !(acts[j] is Kill),
        first_kill(acts) is None ==> forall|j: int| 0 <= j < acts.len() ==> !(acts[j] is Kill),
    decreases acts.len(),
{
    if acts.len() > 0 {
        lemma_first_kill(acts.drop_last());
        assert forall|j: int| 0 <= j < acts.len() - 1 implies acts[j] == acts.drop_last()[j] by {}
    }
}

/// The position of the first of `ids` that is `x`.
#[verifier::loop_isolation(false)]
pub fn index_of_id(ids: &Vec<u32>, x: u32) -> (r: Option<usize>)
    ensures
        match r {
            Some(i) => i as int == index_of(ids@, x),
            None => index_of(ids@, x) < 0,
        },
{
    proof { lemma_index_of(ids@, x); }
    let mut i: usize = 0;
    while i < ids.len()
        invariant
            i <= ids@.len(),
            forall|j: int| 0 <= j < i ==> ids@[j] != x,
        decreases ids@.len() - i,
    {
        if ids[i] == x {
            return Some(i);
        }
        i = i + 1;
    }
    None
}

/// The sources of the edges into `id`, in edge order.
pub fn parents(edges: &Vec<(u32, u32)>, id: u32) -> (r: Vec<u32>)
    ensures
        r@ == parents_of(edges@, id),
{
    let mut out: Vec<u32> = Vec::new();
    let mut i: usize = 0;
    while i < edges.len()
        invariant
            i <= edges@.len(),
            out@ == parents_of(edges@.take(i as int), id),
        decreases edges@.len() - i,
    {
        assert(edges@.take(i + 1).drop_last() =~= edges@.take(i as int));
        if edges[i].1 == id {
            out.push(edges[i].0);
        }
        i = i + 1;
    }
    assert(edges@.take(edges@.len() as int) =~= edges@);
    out
}

/// Applies the kill of `kv` at `kid`, which stands at `pos` of `acts`: see `kill_filter`.
pub fn apply_kill(acts: &Vec<Action>, pos: usize, kv: &Variable, kid: u32, cur: &mut Vec<Action>,
    links: &mut Vec<DataLink>) -> (r: Vec<Action>)
    requires
        actions_distinct(old(cur)@),
        links_distinct(old(links)@),
    ensures
        ({
            let (kept, c, l) = kill_filter(action_views(acts@), pos as int, kv@, kid, action_set(old(cur)@),
                link_set(old(links)@), acts@.len() as int);
            &&& action_views(r@) == kept
            &&& action_set(final(cur)@) == c
            &&& link_set(final(links)@) == l
        }),
        actions_distinct(final(cur)@),
        links_distinct(final(links)@),
{
    let ghost av = action_views(acts@);
    let ghost c0 = action_set(cur@);
    let ghost l0 = link_set(links@);
    let mut kept: Vec<Action> = Vec::new();
    let mut i: usize = 0;
    while i < acts.len()
        invariant
            i <= acts@.len(),
            av == action_views(acts@),
            actions_distinct(cur@),
            links_distinct(links@),
            ({
                let (k, c, l) = kill_filter(av, pos as int, kv@, kid, c0, l0, i as int);
                &&& action_views(kept@) == k
                &&& action_set(cur@) == c
                &&& link_set(links@) == l
            }),
        decreases acts@.len() - i,
    {
        let a = &acts[i];
        assert(av[i as int] == a@);
        let ghost before = kept@;
        if i < pos {
            match a {
                Action::Use(v, uid) => {
                    let relation = kv.contains(v);
                    match relation {
                        VariableComparison::Equal => {
                            link_insert(links, DataLink::new(*uid, kid, v.copy()));
                            table_remove(cur, a);
                        },
                        VariableComparison::Partial => {
                            let var = if kv.members.len() > v.members.len() { kv.copy() } else { v.copy() };
                            link_insert(links, DataLink::new(*uid, kid, var));
                            table_remove(cur, a);
                            kept.push(a.copy());
                        },
                        VariableComparison::NotEqual => {
                            kept.push(a.copy());
                        },
                    }
                },
                Action::Kill(..) => {
                    kept.push(a.copy());
                },
            }
        } else if i > pos {
            kept.push(a.copy());
        } else {
            table_remove(cur, a);
        }
        proof {
            let (k, c, l) = kill_filter(av, pos as int, kv@, kid, c0, l0, i as int);
            if kept@.len() > before.len() {
                assert(action_views(kept@) =~= action_views(before).push(a@));
            } else {
                assert(action_views(kept@) =~= action_views(before));
            }
        }
        i = i + 1;
    }
    kept
}

/// The position of the first kill of `acts`.
#[verifier::loop_isolation(false)]
pub fn find_first_kill(acts: &Vec<Action>) -> (r: Option<usize>)
    ensures
        match r {
            Some(p) => first_kill(action_views(acts@)) == Some(p as int),
            None => first_kill(action_views(acts@)) is None,
        },
{
    proof { lemma_first_kill(action_views(acts@)); }
    let mut i: usize = 0;
    while i < acts.len()
        invariant
            i <= acts@.len(),
            forall|j: int| 0 <= j < i ==> !(action_views(acts@)[j] is Kill),
        decreases acts@.len() - i,
    {
        match &acts[i] {
            Action::Kill(..) => {
                assert(action_views(acts@)[i as int] is Kill);
                return Some(i);
            },
            Action::Use(..) => {},
        }
        i = i + 1;
    }
    None
}

/// Applies every kill of `acts`, the first one first: see `every_kill`.
#[verifier::loop_isolation(false)]
pub fn apply_every_kill(acts: Vec<Action>, cur: &mut Vec<Action>, links: &mut Vec<DataLink>) -> (r: Vec<Action>)
    requires
        actions_distinct(old(cur)@),
        links_distinct(old(links)@),
    ensures
        ({
            let (k, c, l) = every_kill(action_views(acts@), action_set(old(cur)@), link_set(old(links)@));
            &&& action_views(r@) == k
            &&& action_set(final(cur)@) == c
            &&& link_set(final(links)@) == l
        }),
        actions_distinct(final(cur)@),
        links_distinct(final(links)@),
{
    let ghost goal = every_kill(action_views(acts@), action_set(cur@), link_set(links@));
    let mut acts = acts;
    loop
        invariant
            actions_distinct(cur@),
            links_distinct(links@),
            every_kill(action_views(acts@), action_set(cur@), link_set(links@)) == goal,
        decreases acts@.len(),
    {
        proof { lemma_first_kill(action_views(acts@)); }
        match find_first_kill(&acts) {
            None => {
                return acts;
            },
            Some(p) => {
                let next = match &acts[p] {
                    Action::Kill(kv, kid) => {
                        proof {
                            lemma_kill_filter_len(action_views(acts@), p as int, kv@, *kid, action_set(cur@),
                                link_set(links@), acts@.len() as int);
                        }
                        apply_kill(&acts, p, kv, *kid, cur, links)
                    },
                    Action::Use(..) => {
                        assert(false);
                        return acts;
                    },
                };
                acts = next;
            },
        }
    }
}

/// Applies the kills of a node, whose actions `new` came after the `base`
/// actions met before it: see `node_kills`.
#[verifier::loop_isolation(false)]
pub fn apply_node_kills(acts: Vec<Action>, base: usize, new: &Vec<Action>, cur: &mut Vec<Action>,
    links: &mut Vec<DataLink>) -> (r: Option<Vec<Action>>)
    requires
        actions_distinct(old(cur)@),
        links_distinct(old(links)@),
        base + new@.len() <= usize::MAX,
    ensures
        ({
            let ps = kill_positions(base as int, action_views(new@));
            let s = node_kills(action_views(acts@), ps, ps.len() as int, action_set(old(cur)@), link_set(old(links)@));
            &&& r is Some == s is Some
            &&& r matches Some(v) ==> (s matches Some((k, c, l)) && action_views(v@) == k
                && action_set(final(cur)@) == c && link_set(final(links)@) == l)
        }),
        actions_distinct(final(cur)@),
        links_distinct(final(links)@),
{
    let ghost nv = action_views(new@);
    let mut positions: Vec<usize> = Vec::new();
    let mut j: usize = 0;
    while j < new.len()
        invariant
            j <= new@.len(),
            base + new@.len() <= usize::MAX,
            nv == action_views(new@),
            positions@.map_values(|p: usize| p as int) == kill_positions(base as int, nv.take(j as int)),
        decreases new@.len() - j,
    {
        assert(nv.take(j + 1).drop_last() =~= nv.take(j as int));
        let ghost before = positions@;
        match &new[j] {
            Action::Kill(..) => {
                positions.push(base + j);
                assert(positions@.map_values(|p: usize| p as int) =~= before.map_values(|p: usize| p as int).push(base + j));
            },
            Action::Use(..) => {},
        }
        j = j + 1;
    }
    assert(nv.take(new@.len() as int) =~= nv);
    let ghost ps = kill_positions(base as int, nv);
    let ghost c0 = action_set(cur@);
    let ghost l0 = link_set(links@);
    let ghost a0 = action_views(acts@);
    let mut acts = acts;
    let mut k: usize = 0;
    while k < positions.len()
        invariant
            k <= positions@.len(),
            positions@.map_values(|p: usize| p as int) == ps,
            actions_distinct(cur@),
            links_distinct(links@),
            node_kills(a0, ps, k as int, c0, l0) matches Some((a, c, l)) && action_views(acts@) == a
                && action_set(cur@) == c && link_set(links@) == l,
        decreases positions@.len() - k,
    {
        let pos = positions[k];
        assert(ps[k as int] == pos as int);
        if pos >= acts.len() {
            proof { lemma_node_kills_none(a0, ps, k as int + 1, ps.len() as int, c0, l0); }
            return None;
        }
        let next = match &acts[pos] {
            Action::Kill(kv, kid) => apply_kill(&acts, pos, kv, *kid, cur, links),
            Action::Use(..) => {
                assert(action_views(acts@)[pos as int] is Use);
                let same = acts;
                same
            },
        };
        acts = next;
        k = k + 1;
    }
    Some(acts)
}

/// Once a position fails, the longer folds fail too.
pub proof fn lemma_node_kills_none(acts: Seq<ActionView>, positions: Seq<int>, k: int, m: int, cur: Set<ActionView>,
    links: Set<LinkView>)
    requires
        0 < k <= m,
        node_kills(acts, positions, k, cur, links) is None,
    ensures
        node_kills(acts, positions, m, cur, links) is None,
    decreases m - k,
{
    if m > k {
        lemma_node_kills_none(acts, positions, k, m - 1, cur, links);
    }
}

/// The work items as plain values.
pub open spec fn stack_view(st: Seq<(u32, u32, Vec<Action>)>) -> Seq<(u32, u32, Seq<ActionView>)> {
    st.map_values(|e: (u32, u32, Vec<Action>)| (e.0, e.1, action_views(e.2@)))
}

/// The tables as plain values.
pub open spec fn tables_view(ts: Seq<Vec<Action>>) -> Seq<Set<ActionView>> {
    ts.map_values(|t: Vec<Action>| action_set(t@))
}

/// The context of a propagation as plain values.
pub open spec fn ctx_of(ids: Seq<u32>, acts: Seq<Option<Vec<Action>>>, edges: Seq<(u32, u32)>, mode: KillMode) -> FlowCtx {
    FlowCtx { ids, acts: acts.map_values(|a: Option<Vec<Action>>| opt_views(a)), edges, mode }
}

/// The views of the actions, where there are any.
pub open spec fn opt_views(a: Option<Vec<Action>>) -> Option<Seq<ActionView>> {
    match a {
        Some(v) => Some(action_views(v@)),
        None => None,
    }
}

/// A table without repeats has as many actions as its set.
pub proof fn lemma_table_len(t: Seq<Action>)
    requires
        actions_distinct(t),
    ensures
        action_set(t).len() == t.len(),
{
    assert(action_views(t).no_duplicates()) by {
        assert forall|i: int, j: int| 0 <= i < action_views(t).len() && 0 <= j < action_views(t).len() && i != j
            implies action_views(t)[i] != action_views(t)[j] by {
            if i < j {
                assert(t[i]@ != t[j]@);
            } else {
                assert(t[j]@ != t[i]@);
            }
        }
    }
    action_views(t).unique_seq_to_set();
}

/// Whether `x` is one of `xs`.
pub fn contains_id(xs: &Vec<u32>, x: u32) -> (r: bool)
    ensures
        r == xs@.contains(x),
{
    let mut i: usize = 0;
    while i < xs.len()
        invariant
            i <= xs@.len(),
            forall|j: int| 0 <= j < i ==> xs@[j] != x,
        decreases xs@.len() - i,
    {
        if xs[i] == x {
            assert(xs@[i as int] == x);
            return true;
        }
        i = i + 1;
    }
    false
}

/// Pushes a work item from `id` to each of `parents`, with the actions `acts`.
fn push_items(stack: &mut Vec<(u32, u32, Vec<Action>)>, id: u32, parents: &Vec<u32>, acts: &Vec<Action>)
    ensures
        stack_view(final(stack)@) == stack_view(old(stack)@) + items_to(id, parents@, action_views(acts@)),
{
    let mut j: usize = 0;
    while j < parents.len()
        invariant
            j <= parents@.len(),
            stack_view(stack@) == stack_view(old(stack)@) + items_to(id, parents@.take(j as int), action_views(acts@)),
        decreases parents@.len() - j,
    {
        let ghost before = stack@;
        let item = (id, parents[j], copy_actions(acts));
        stack.push(item);
        assert(stack_view(stack@) =~= stack_view(before).push((id, parents@[j as int], action_views(acts@))));
        assert(items_to(id, parents@.take(j + 1), action_views(acts@)) =~= items_to(id, parents@.take(j as int),
            action_views(acts@)).push((id, parents@[j as int], action_views(acts@))));
        j = j + 1;
    }
    assert(parents@.take(parents@.len() as int) =~= parents@);
}

/// Runs the propagation from the exit `stop`, for at most `budget` steps:
/// the links that `flow_run` finds, or `None` where it fails.
#[verifier::loop_isolation(false)]
pub fn propagate(ids: &Vec<u32>, acts: &Vec<Option<Vec<Action>>>, edges: &Vec<(u32, u32)>, stop: u32, mode: KillMode,
    budget: u64) -> (r: Option<Vec<DataLink>>)
    requires
        ids@.len() == acts@.len(),
    ensures
        ({
            let c = ctx_of(ids@, acts@, edges@, mode);
            let res = flow_run(c, flow_init(c, stop), budget as nat);
            &&& r is Some == res is Some
            &&& r matches Some(ls) ==> links_distinct(ls@) && res == Some(link_set(ls@))
        }),
{
    let ghost c = ctx_of(ids@, acts@, edges@, mode);
    let mut stack: Vec<(u32, u32, Vec<Action>)> = Vec::new();
    let ps = parents(edges, stop);
    let empty: Vec<Action> = Vec::new();
    push_items(&mut stack, stop, &ps, &empty);
    assert(action_views(empty@) =~= Seq::<ActionView>::empty());
    assert(stack_view(stack@) =~= items_to(stop, parents_of(edges@, stop), seq![]));
    let mut tables: Vec<Vec<Action>> = Vec::new();
    let mut i: usize = 0;
    while i < ids.len()
        invariant
            i <= ids@.len(),
            tables@.len() == i,
            forall|j: int| 0 <= j < i ==> (#[trigger] tables@[j])@.len() == 0,
        decreases ids@.len() - i,
    {
        tables.push(Vec::new());
        i = i + 1;
    }
    assert(tables_view(tables@) =~= Seq::new(ids@.len(), |i: int| Set::<ActionView>::empty())) by {
        assert forall|j: int| 0 <= j < ids@.len() implies tables_view(tables@)[j] == Set::<ActionView>::empty() by {
            assert(action_set(tables@[j]@) =~= Set::<ActionView>::empty());
        }
    }
    let mut visited: Vec<u32> = Vec::new();
    let mut links: Vec<DataLink> = Vec::new();
    assert(visited@.to_set() =~= Set::<u32>::empty());
    assert(link_set(links@) =~= Set::<LinkView>::empty());
    let mut fuel: u64 = budget;
    while stack.len() > 0
        invariant
            tables@.len() == ids@.len(),
            forall|j: int| 0 <= j < tables@.len() ==> actions_distinct(#[trigger] tables@[j]@),
            links_distinct(links@),
            flow_run(c, flow_init(c, stop), budget as nat) == flow_run(c, Flow {
                stack: stack_view(stack@),
                tables: tables_view(tables@),
                visited: visited@.to_set(),
                links: link_set(links@),
                ok: true,
            }, fuel as nat),
        decreases fuel,
    {
        let ghost s = Flow {
            stack: stack_view(stack@),
            tables: tables_view(tables@),
            visited: visited@.to_set(),
            links: link_set(links@),
            ok: true,
        };
        if fuel == 0 {
            return None;
        }
        let ghost next = flow_step(c, s);
        assert(flow_run(c, s, fuel as nat) == flow_run(c, next, (fuel - 1) as nat));
        let (from, id, mut actions) = stack.pop().unwrap();
        assert(stack_view(stack@) =~= s.stack.drop_last());
        assert((from, id, action_views(actions@)) == s.stack.last());
        let vi = match index_of_id(ids, id) {
            Some(v) => v,
            None => {
                return None;
            },
        };
        let fi = match index_of_id(ids, from) {
            Some(f) => f,
            None => {
                return None;
            },
        };
        proof {
            lemma_index_of(ids@, id);
            lemma_index_of(ids@, from);
        }
        let pre = copy_actions(&tables[fi]);
        let mut cur: Vec<Action> = Vec::new();
        let ghost tables0 = tables@;
        tables.set_and_swap(vi, &mut cur);
        assert(cur == tables0[vi as int]);
        let len0 = cur.len();
        proof { lemma_table_len(cur@); }
        let new = match &acts[vi] {
            Some(n) => n,
            None => {
                return None;
            },
        };
        assert(c.acts[vi as int] == Some(action_views(new@)));
        let base = actions.len();
        let ghost a0 = action_views(actions@);
        let mut k: usize = 0;
        while k < new.len()
            invariant
                k <= new@.len(),
                base == a0.len(),
                action_views(actions@) == a0 + action_views(new@).take(k as int),
            decreases new@.len() - k,
        {
            let ghost before = actions@;
            actions.push(new[k].copy());
            assert(action_views(actions@) =~= action_views(before).push(new@[k as int]@));
            assert(action_views(new@).take(k + 1) =~= action_views(new@).take(k as int).push(new@[k as int]@));
            k = k + 1;
        }
        assert(action_views(new@).take(new@.len() as int) =~= action_views(new@));
        let total = actions.len();
        assert(total == base + new@.len());
        table_extend(&mut cur, &pre);
        table_extend(&mut cur, new);
        assert(action_views(pre@).to_set() == s.tables[fi as int]);
        let kept = match mode {
            KillMode::EveryKill => apply_every_kill(actions, &mut cur, &mut links),
            KillMode::NodeKills => {
                proof { assert(base + new@.len() == actions@.len()); }
                match apply_node_kills(actions, base, new, &mut cur, &mut links) {
                    Some(kept) => kept,
                    None => {
                        return None;
                    },
                }
            },
        };
        let changed = cur.len() != len0;
        proof { lemma_table_len(cur@); }
        let ghost cur_set = action_set(cur@);
        tables.set(vi, cur);
        assert(tables_view(tables@) =~= s.tables.update(vi as int, cur_set));
        let seen = contains_id(&visited, id);
        if changed || !seen {
            let ghost v0 = visited@;
            visited.push(id);
            proof { v0.lemma_push_to_set_commute(id); }
            let ps = parents(edges, id);
            push_items(&mut stack, id, &ps, &kept);
        }
        fuel = fuel - 1;
    }
    Some(links)
}

/// `vs` lists the set `s`, each once.
pub open spec fn lists(vs: Seq<VarView>, s: Set<VarView>) -> bool {
    vs.no_duplicates() && vs.to_set() == s
}

/// A use of each of `vs` at `id`.
pub open spec fn use_actions(vs: Seq<VarView>, id: u32) -> Seq<ActionView> {
    vs.map_values(|v: VarView| ActionView::Use(v, id))
}

/// The kills of an assignment at `id` to each of `lhs`: an update (`Other`)
/// also uses the variable it sets.
pub open spec fn kill_actions(lhs: Seq<VarView>, op: Operator, id: u32) -> Seq<ActionView>
    decreases lhs.len(),
{
    if lhs.len() == 0 {
        seq![]
    } else {
        let l = lhs.last();
        kill_actions(lhs.drop_last(), op, id) + if op == Operator::Equal {
            seq![ActionView::Kill(l, id)]
        } else {
            seq![ActionView::Kill(l, id), ActionView::Use(l, id)]
        }
    }
}

/// The actions of assignments at `id`, given by the lists of their sides.
pub open spec fn assignment_actions(asgs: Seq<(Seq<VarView>, Seq<VarView>, Operator)>, id: u32) -> Seq<ActionView>
    decreases asgs.len(),
{
    if asgs.len() == 0 {
        seq![]
    } else {
        let (lhs, rhs, op) = asgs.last();
        assignment_actions(asgs.drop_last(), id) + kill_actions(lhs, op, id) + use_actions(rhs, id)
    }
}

/// `l` lists the sides of the assignments `asgs`, in order.
pub open spec fn lists_assignments(l: Seq<(Seq<VarView>, Seq<VarView>, Operator)>, asgs: Seq<AssignmentView>) -> bool {
    &&& l.len() == asgs.len()
    &&& forall|i: int| 0 <= i < l.len() ==> lists((#[trigger] l[i]).0, asgs[i].0) && lists(l[i].1, asgs[i].1)
        && l[i].2 == asgs[i].2
}

/// The variables of the children of `n` from the second to the `k`-th.
pub open spec fn param_vars(n: AstNode, keys: Seq<(AstNode, Seq<char>)>, source: Seq<char>, fuel: nat, k: int) -> Set<VarView>
    decreases k,
{
    if k <= 1 || k > n.children@.len() {
        Set::empty()
    } else {
        param_vars(n, keys, source, fuel, k - 1).union(spec_parse(n.children@[k - 1], keys, Set::empty(), source, fuel).0)
    }
}

/// The actions `a` are those of the vertex `id` of shape `shape`: a call uses
/// the variables of its arguments, a condition those it reads, a statement
/// makes the kills and uses of its assignments (or, with none, uses the
/// variables it reads), a point nothing; each set of variables in some order.
/// `None` where the dictionary has no entry for the vertex or an assignment
/// cannot be read. With `NodeKills`, an `Mdiamond` makes nothing.
pub open spec fn actions_fit(shape: Shape, id: u32, keys: Seq<(AstNode, Seq<char>)>, fuel: nat, mode: KillMode,
    a: Option<Seq<ActionView>>) -> bool
{
    if shape == Shape::Point || (shape == Shape::Mdiamond && mode == KillMode::NodeKills) {
        a == Some(Seq::<ActionView>::empty())
    } else {
        match entry_of(keys, id) {
            None => a is None,
            Some((n, src)) => {
                if shape == Shape::DoubleCircle || shape == Shape::Mdiamond {
                    exists|vs: Seq<VarView>| lists(vs, param_vars(n, keys, src, fuel, n.children@.len() as int))
                        && a == Some(use_actions(vs, id))
                } else if shape == Shape::Diamond {
                    exists|vs: Seq<VarView>| lists(vs, spec_parse(n, keys, Set::empty(), src, fuel).0)
                        && a == Some(use_actions(vs, id))
                } else {
                    match spec_parse_assignments(n, keys, Set::empty(), src, fuel) {
                        None => a is None,
                        Some((asgs, _)) => if asgs.len() > 0 {
                            exists|l: Seq<(Seq<VarView>, Seq<VarView>, Operator)>| lists_assignments(l, asgs)
                                && a == Some(assignment_actions(l, id))
                        } else {
                            exists|vs: Seq<VarView>| lists(vs, spec_parse(n, keys, Set::empty(), src, fuel).0)
                                && a == Some(use_actions(vs, id))
                        },
                    }
                }
            },
        }
    }
}

/// The views of a list of variables.
pub open spec fn var_views(vs: Seq<Variable>) -> Seq<VarView> {
    vs.map_values(|v: Variable| v@)
}

pub proof fn lemma_var_views_lists(vs: Seq<Variable>)
    requires
        vars_distinct(vs),
    ensures
        lists(var_views(vs), var_set(vs)),
{
    assert forall|i: int, j: int| 0 <= i < var_views(vs).len() && 0 <= j < var_views(vs).len() && i != j
        implies var_views(vs)[i] != var_views(vs)[j] by {
        if i < j {
            assert(vs[i]@ != vs[j]@);
        } else {
            assert(vs[j]@ != vs[i]@);
        }
    }
}

/// Appends a use at `id` of each of `vars`.
fn push_uses(out: &mut Vec<Action>, vars: &Vec<Variable>, id: u32)
    ensures
        action_views(final(out)@) == action_views(old(out)@) + use_actions(var_views(vars@), id),
{
    let mut i: usize = 0;
    while i < vars.len()
        invariant
            i <= vars@.len(),
            action_views(out@) == action_views(old(out)@) + use_actions(var_views(vars@).take(i as int), id),
        decreases vars@.len() - i,
    {
        let ghost before = out@;
        out.push(Action::Use(vars[i].copy(), id));
        assert(action_views(out@) =~= action_views(before).push(ActionView::Use(vars@[i as int]@, id)));
        assert(use_actions(var_views(vars@).take(i + 1), id) =~= use_actions(var_views(vars@).take(i as int), id)
            .push(ActionView::Use(vars@[i as int]@, id)));
        i = i + 1;
    }
    assert(var_views(vars@).take(vars@.len() as int) =~= var_views(vars@));
}

/// Appends the kills of an assignment at `id` to each of `lhs`.
fn push_kills(out: &mut Vec<Action>, lhs: &Vec<Variable>, op: Operator, id: u32)
    ensures
        action_views(final(out)@) == action_views(old(out)@) + kill_actions(var_views(lhs@), op, id),
{
    let mut i: usize = 0;
    while i < lhs.len()
        invariant
            i <= lhs@.len(),
            action_views(out@) == action_views(old(out)@) + kill_actions(var_views(lhs@).take(i as int), op, id),
        decreases lhs@.len() - i,
    {
        let ghost before = action_views(out@);
        let ghost l = lhs@[i as int]@;
        assert(var_views(lhs@).take(i + 1).drop_last() =~= var_views(lhs@).take(i as int));
        match op {
            Operator::Equal => {
                out.push(Action::Kill(lhs[i].copy(), id));
                assert(action_views(out@) =~= before + seq![ActionView::Kill(l, id)]);
            },
            Operator::Other => {
                out.push(Action::Kill(lhs[i].copy(), id));
                out.push(Action::Use(lhs[i].copy(), id));
                assert(action_views(out@) =~= before + seq![ActionView::Kill(l, id), ActionView::Use(l, id)]);
            },
        }
        i = i + 1;
    }
    assert(var_views(lhs@).take(lhs@.len() as int) =~= var_views(lhs@));
}

/// The sides of assignments as lists of views.
pub open spec fn sides(asgs: Seq<Assignment>) -> Seq<(Seq<VarView>, Seq<VarView>, Operator)> {
    asgs.map_values(|a: Assignment| (var_views(a.lhs@), var_views(a.rhs@), a.op))
}

/// `r` holds the variables of the node `id` (see `spec_parse`), each once;
/// `None` where the dictionary has no entry for it.
pub open spec fn variables_found(keys: Seq<(AstNode, Seq<char>)>, fuel: nat, id: u32, r: Option<Vec<Variable>>) -> bool {
    match entry_of(keys, id) {
        None => r is None,
        Some((n, src)) => r matches Some(v) && vars_distinct(v@)
            && var_set(v@) == spec_parse(n, keys, Set::empty(), src, fuel).0,
    }
}

/// `r` holds the variables of the arguments of the call `id`, each once;
/// `None` where the dictionary has no entry for it.
pub open spec fn parameters_found(keys: Seq<(AstNode, Seq<char>)>, fuel: nat, id: u32, r: Option<Vec<Variable>>) -> bool {
    match entry_of(keys, id) {
        None => r is None,
        Some((n, src)) => r matches Some(v) && vars_distinct(v@)
            && var_set(v@) == param_vars(n, keys, src, fuel, n.children@.len() as int),
    }
}

/// `r` holds the assignments of the node `id` (see `spec_parse_assignments`);
/// `None` where the dictionary has no entry for it or they cannot be read.
pub open spec fn assignments_found(keys: Seq<(AstNode, Seq<char>)>, fuel: nat, id: u32, r: Option<Vec<Assignment>>) -> bool {
    match entry_of(keys, id) {
        None => r is None,
        Some((n, src)) => {
            let s = spec_parse_assignments(n, keys, Set::empty(), src, fuel);
            &&& r is Some == s is Some
            &&& r matches Some(v) ==> (s matches Some((asgs, _)) && v@.map_values(|a: Assignment| a@) == asgs)
            &&& r matches Some(v) ==> forall|i: int| 0 <= i < v@.len() ==> vars_distinct((#[trigger] v@[i]).lhs@)
                && vars_distinct(v@[i].rhs@)
        },
    }
}

/// The variables of the node `id`.
pub fn find_variables(id: u32, dict: &Dictionary) -> (r: Option<Vec<Variable>>)
    requires
        dict.wf(),
    ensures
        variables_found(dict.keys(), dict.entries@.len() as nat, id, r),
{
    match dict.walker_at(id) {
        Some(walker) => {
            let mut fresh: HashSet<u32> = HashSet::new();
            assert(fresh@ =~= Set::<u32>::empty());
            Some(Variable::parse(walker, dict, &mut fresh))
        },
        None => None,
    }
}

/// The variables of the arguments of the call `id`: those of its children but the first.
pub fn find_parameters(id: u32, dict: &Dictionary) -> (r: Option<Vec<Variable>>)
    requires
        dict.wf(),
    ensures
        parameters_found(dict.keys(), dict.entries@.len() as nat, id, r),
{
    match dict.walker_at(id) {
        Some(walker) => {
            let ghost n = walker.ast();
            let ghost src = walker.source@;
            proof { Walker::lemma_wf_fields(*walker); }
            let mut out: Vec<Variable> = Vec::new();
            assert(var_set(out@) =~= Set::<VarView>::empty());
            let mut k: usize = 1;
            while k < walker.node.children.len()
                invariant
                    dict.wf(),
                    walker.tree_wf(),
                    n == walker.ast(),
                    src == walker.source@,
                    walker.node.children@ == n.children@,
                    1 <= k,
                    k <= n.children@.len() || n.children@.len() == 0,
                    vars_distinct(out@),
                    var_set(out@) == param_vars(n, dict.keys(), src, dict.entries@.len() as nat, k as int),
                decreases n.children@.len() - k,
            {
                proof { lemma_tree_ok_child(n, src, k as int); }
                let child = Walker::new(&walker.node.children[k], walker.source);
                let mut fresh: HashSet<u32> = HashSet::new();
                assert(fresh@ =~= Set::<u32>::empty());
                let vars = Variable::parse(&child, dict, &mut fresh);
                union_vars(&mut out, vars);
                k = k + 1;
            }
            Some(out)
        },
        None => None,
    }
}

/// The assignments of the node `id`.
pub fn find_assignments(id: u32, dict: &Dictionary) -> (r: Option<Vec<Assignment>>)
    requires
        dict.wf(),
    ensures
        assignments_found(dict.keys(), dict.entries@.len() as nat, id, r),
{
    match dict.walker_at(id) {
        Some(walker) => {
            let mut fresh: HashSet<u32> = HashSet::new();
            assert(fresh@ =~= Set::<u32>::empty());
            Assignment::parse(walker, dict, &mut fresh)
        },
        None => None,
    }
}

/// The actions of a vertex: see `actions_fit`.
pub fn node_actions(vertex: &Vertex, dict: &Dictionary, mode: KillMode) -> (r: Option<Vec<Action>>)
    requires
        dict.wf(),
    ensures
        actions_fit(vertex.shape, vertex.id, dict.keys(), dict.entries@.len() as nat, mode, opt_views(r)),
{
    let id = vertex.id;
    let ghost keys = dict.keys();
    let ghost fuel = dict.entries@.len() as nat;
    match vertex.shape {
        Shape::Point => {
            let out: Vec<Action> = Vec::new();
            assert(action_views(out@) =~= Seq::<ActionView>::empty());
            Some(out)
        },
        Shape::DoubleCircle | Shape::Mdiamond => {
            if vertex.shape == Shape::Mdiamond && mode == KillMode::NodeKills {
                let out: Vec<Action> = Vec::new();
                assert(action_views(out@) =~= Seq::<ActionView>::empty());
                return Some(out);
            }
            match find_parameters(id, dict) {
                Some(vars) => {
                    let mut out: Vec<Action> = Vec::new();
                    push_uses(&mut out, &vars, id);
                    proof {
                        lemma_var_views_lists(vars@);
                        assert(action_views(out@) =~= use_actions(var_views(vars@), id));
                    }
                    Some(out)
                },
                None => None,
            }
        },
        Shape::Diamond => {
            match find_variables(id, dict) {
                Some(vars) => {
                    let mut out: Vec<Action> = Vec::new();
                    push_uses(&mut out, &vars, id);
                    proof {
                        lemma_var_views_lists(vars@);
                        assert(action_views(out@) =~= use_actions(var_views(vars@), id));
                    }
                    Some(out)
                },
                None => None,
            }
        },
        Shape::Box => {
            let assignments = match find_assignments(id, dict) {
                Some(a) => a,
                None => {
                    return None;
                },
            };
            if assignments.len() > 0 {
                let mut out: Vec<Action> = Vec::new();
                let mut i: usize = 0;
                while i < assignments.len()
                    invariant
                        i <= assignments@.len(),
                        action_views(out@) == assignment_actions(sides(assignments@).take(i as int), id),
                    decreases assignments@.len() - i,
                {
                    let a = &assignments[i];
                    let ghost before = action_views(out@);
                    push_kills(&mut out, &a.lhs, a.op, id);
                    push_uses(&mut out, &a.rhs, id);
                    assert(sides(assignments@).take(i + 1).drop_last() =~= sides(assignments@).take(i as int));
                    assert(action_views(out@) =~= assignment_actions(sides(assignments@).take(i + 1), id));
                    i = i + 1;
                }
                proof {
                    assert(sides(assignments@).take(assignments@.len() as int) =~= sides(assignments@));
                    let l = sides(assignments@);
                    let asgs = assignments@.map_values(|a: Assignment| a@);
                    assert forall|j: int| 0 <= j < l.len() implies lists((#[trigger] l[j]).0, asgs[j].0)
                        && lists(l[j].1, asgs[j].1) && l[j].2 == asgs[j].2 by {
                        lemma_var_views_lists(assignments@[j].lhs@);
                        lemma_var_views_lists(assignments@[j].rhs@);
                    }
                    assert(lists_assignments(l, asgs));
                }
                Some(out)
            } else {
                match find_variables(id, dict) {
                    Some(vars) => {
                        let mut out: Vec<Action> = Vec::new();
                        push_uses(&mut out, &vars, id);
                        proof {
                            lemma_var_views_lists(vars@);
                            assert(action_views(out@) =~= use_actions(var_views(vars@), id));
                        }
                        Some(out)
                    },
                    None => None,
                }
            }
        },
    }
}

/// The links found from the vertices of `state`, with actions `acts`.
pub open spec fn links_of(state_stop: u32, ids: Seq<u32>, acts: Seq<Option<Seq<ActionView>>>, edges: Seq<(u32, u32)>,
    mode: KillMode, budget: nat) -> Option<Set<LinkView>>
{
    let c = FlowCtx { ids, acts, edges, mode };
    flow_run(c, flow_init(c, state_stop), budget)
}

/// The ids of the vertices.
pub open spec fn vertex_ids(vs: Seq<Vertex>) -> Seq<u32> {
    vs.map_values(|v: Vertex| v.id)
}

/// The actions of each vertex and the propagation over them.
pub fn vertex_links(vertices: &Vec<Vertex>, edges: &Vec<(u32, u32)>, dict: &Dictionary, stop: u32, mode: KillMode)
    -> (r: Option<Vec<DataLink>>)
    requires
        dict.wf(),
    ensures
        exists|acts: Seq<Option<Seq<ActionView>>>| #![trigger links_of(stop, vertex_ids(vertices@), acts, edges@, mode, u64::MAX as nat)] {
            &&& acts.len() == vertices@.len()
            &&& forall|i: int| 0 <= i < acts.len() ==> actions_fit(vertices@[i].shape, vertices@[i].id, dict.keys(),
                dict.entries@.len() as nat, mode, #[trigger] acts[i])
            &&& {
                let res = links_of(stop, vertex_ids(vertices@), acts, edges@, mode, u64::MAX as nat);
                &&& r is Some == res is Some
                &&& r matches Some(ls) ==> links_distinct(ls@) && res == Some(link_set(ls@))
            }
        },
{
    let mut ids: Vec<u32> = Vec::new();
    let mut acts: Vec<Option<Vec<Action>>> = Vec::new();
    let mut i: usize = 0;
    while i < vertices.len()
        invariant
            dict.wf(),
            i <= vertices@.len(),
            ids@ == vertex_ids(vertices@).take(i as int),
            acts@.len() == i,
            forall|j: int| 0 <= j < i ==> actions_fit(vertices@[j].shape, vertices@[j].id, dict.keys(),
                dict.entries@.len() as nat, mode, #[trigger] opt_views(acts@[j])),
        decreases vertices@.len() - i,
    {
        ids.push(vertices[i].id);
        acts.push(node_actions(&vertices[i], dict, mode));
        assert(vertex_ids(vertices@).take(i + 1) =~= vertex_ids(vertices@).take(i as int).push(vertices@[i as int].id));
        i = i + 1;
    }
    assert(ids@ =~= vertex_ids(vertices@));
    let r = propagate(&ids, &acts, edges, stop, mode, u64::MAX);
    let ghost av = acts@.map_values(|a: Option<Vec<Action>>| opt_views(a));
    assert forall|j: int| 0 <= j < av.len() implies actions_fit(vertices@[j].shape, vertices@[j].id, dict.keys(),
        dict.entries@.len() as nat, mode, #[trigger] av[j]) by {
        assert(av[j] == opt_views(acts@[j]));
    }
    assert(ctx_of(ids@, acts@, edges@, mode) == (FlowCtx { ids: vertex_ids(vertices@), acts: av, edges: edges@, mode }));
    let ghost res = links_of(stop, vertex_ids(vertices@), av, edges@, mode, u64::MAX as nat);
    r
}

/// Data flow graph of a function
pub struct DataFlowGraph<'a> {
    pub state: &'a State<'a>,
}

impl<'a> DataFlowGraph<'a> {
    pub fn new(state: &'a State<'a>) -> (r: Self)
        ensures
            r.state == state,
    {
        DataFlowGraph { state }
    }

    /// The data links of the function: the actions of each vertex, propagated
    /// back from the exit, every kill applied in turn; `None` where the
    /// propagation fails (see `flow_step`) or takes more than `u64::MAX` steps.
    pub fn find_links(&self) -> (r: Option<Vec<DataLink>>)
        requires
            self.state.dict.wf(),
        ensures
            exists|acts: Seq<Option<Seq<ActionView>>>| #![trigger links_of(self.state.stop, vertex_ids(self.state.vertices@), acts, self.state.edges@, KillMode::EveryKill, u64::MAX as nat)] {
                &&& acts.len() == self.state.vertices@.len()
                &&& forall|i: int| 0 <= i < acts.len() ==> actions_fit(self.state.vertices@[i].shape,
                    self.state.vertices@[i].id, self.state.dict.keys(), self.state.dict.entries@.len() as nat,
                    KillMode::EveryKill, #[trigger] acts[i])
                &&& {
                    let res = links_of(self.state.stop, vertex_ids(self.state.vertices@), acts, self.state.edges@,
                        KillMode::EveryKill, u64::MAX as nat);
                    &&& r is Some == res is Some
                    &&& r matches Some(ls) ==> links_distinct(ls@) && res == Some(link_set(ls@))
                }
            },
    {
        vertex_links(self.state.vertices, self.state.edges, self.state.dict, self.state.stop, KillMode::EveryKill)
    }
}

} // verus!
