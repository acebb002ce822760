//! What a node does with a variable.
use vstd::prelude::*;
use crate::shared::variable::{Variable, VarView};

verus! {

/// The behaviour of a variable at a node
#[derive(Debug)]
pub enum Action {
    /// The variable is used at the node
    Use(Variable, u32),
    /// The variable is cleared at the node and stores new data
    Kill(Variable, u32),
}

/// An action as plain values.
pub enum ActionView {
    Use(VarView, u32),
    Kill(VarView, u32),
}

impl View for Action {
    type V = ActionView;

    open spec fn view(&self) -> ActionView {
        match self {
            Action::Use(v, id) => ActionView::Use(v@, *id),
            Action::Kill(v, id) => ActionView::Kill(v@, *id),
        }
    }
}

impl Action {
    /// The two actions are the same.
    pub fn same(&self, other: &Action) -> (r: bool)
        ensures
            r == (self@ == other@),
    {
        match (self, other) {
            (Action::Use(a, i), Action::Use(b, j)) => *i == *j && a.same(b),
            (Action::Kill(a, i), Action::Kill(b, j)) => *i == *j && a.same(b),
            _ => false,
        }
    }

    /// A copy of the action.
    pub fn copy(&self) -> (r: Action)
        ensures
            r@ == self@,
    {
        match self {
            Action::Use(v, id) => Action::Use(v.copy(), *id),
            Action::Kill(v, id) => Action::Kill(v.copy(), *id),
        }
    }
}

/// The views of a list of actions.
pub open spec fn action_views(acts: Seq<Action>) -> Seq<ActionView> {
    acts.map_values(|a: Action| a@)
}

/// The views of a list of actions, as a set.
pub open spec fn action_set(acts: Seq<Action>) -> Set<ActionView> {
    action_views(acts).to_set()
}

/// No two actions of the list are the same.
pub open spec fn actions_distinct(acts: Seq<Action>) -> bool {
    forall|i: int, j: int| 0 <= i < j < acts.len() ==> acts[i]@ != acts[j]@
}

/// A copy of a list of actions.
pub fn copy_actions(acts: &Vec<Action>) -> (r: Vec<Action>)
    ensures
        action_views(r@) == action_views(acts@),
{
    let mut out: Vec<Action> = Vec::new();
    let mut i: usize = 0;
    while i < acts.len()
        invariant
            i <= acts@.len(),
            action_views(out@) == action_views(acts@).take(i as int),
        decreases acts@.len() - i,
    {
        let ghost before = out@;
        let a = acts[i].copy();
        out.push(a);
        assert(action_views(out@) =~= action_views(before).push(acts@[i as int]@));
        assert(action_views(acts@).take(i + 1) =~= action_views(acts@).take(i as int).push(acts@[i as int]@));
        i = i + 1;
    }
    assert(action_views(acts@).take(acts@.len() as int) =~= action_views(acts@));
    out
}

/// Adds `a` to the table `t` unless it is there already.
pub fn table_insert(t: &mut Vec<Action>, a: Action)
    requires
        actions_distinct(old(t)@),
    ensures
        actions_distinct(final(t)@),
        action_set(final(t)@) == action_set(old(t)@).insert(a@),
{
    let ghost views = action_views(t@);
    let mut i: usize = 0;
    while i < t.len()
        invariant
            i <= t@.len(),
            views == action_views(t@),
            t@ == old(t)@,
            actions_distinct(old(t)@),
            forall|j: int| 0 <= j < i ==> t@[j]@ != a@,
        decreases t@.len() - i,
    {
        if t[i].same(&a) {
            assert(views[i as int] == a@);
            assert(action_set(t@).insert(a@) =~= action_set(t@));
            return;
        }
        i = i + 1;
    }
    assert(!views.contains(a@)) by {
        if views.contains(a@) {
            let j = choose|j: int| 0 <= j < views.len() && views[j] == a@;
            assert(t@[j]@ == a@);
        }
    }
    let ghost av = a@;
    let ghost before = t@;
    t.push(a);
    assert(action_views(t@) =~= views.push(av));
    proof { views.lemma_push_to_set_commute(av); }
    assert forall|x: int, y: int| 0 <= x < y < t@.len() implies t@[x]@ != t@[y]@ by {
        assert(t@[x] == before[x]);
        if y < before.len() {
            assert(t@[y] == before[y]);
        }
    }
}

/// Takes `a` out of the table `t`.
pub fn table_remove(t: &mut Vec<Action>, a: &Action)
    requires
        actions_distinct(old(t)@),
    ensures
        actions_distinct(final(t)@),
        action_set(final(t)@) == action_set(old(t)@).remove(a@),
{
    let ghost views = action_views(t@);
    let mut i: usize = 0;
    while i < t.len()
        invariant
            i <= t@.len(),
            views == action_views(t@),
            t@ == old(t)@,
            actions_distinct(old(t)@),
            forall|j: int| 0 <= j < i ==> t@[j]@ != a@,
        decreases t@.len() - i,
    {
        if t[i].same(a) {
            let ghost before = t@;
            t.remove(i);
            proof {
                assert(action_views(t@) =~= views.remove(i as int));
                assert forall|x: int, y: int| 0 <= x < y < t@.len() implies t@[x]@ != t@[y]@ by {
                    let x0 = if x < i { x } else { x + 1 };
                    let y0 = if y < i { y } else { y + 1 };
                    assert(t@[x] == before[x0]);
                    assert(t@[y] == before[y0]);
                }
                assert forall|v: ActionView| #[trigger] action_set(t@).contains(v) <==> action_set(before).remove(a@).contains(v) by {
                    if action_set(t@).contains(v) {
                        let j = choose|j: int| 0 <= j < action_views(t@).len() && action_views(t@)[j] == v;
                        let j0 = if j < i { j } else { j + 1 };
                        assert(views[j0] == v);
                        assert(before[j0]@ != before[i as int]@);
                    }
                    if action_set(before).remove(a@).contains(v) {
                        let j = choose|j: int| 0 <= j < views.len() && views[j] == v;
                        assert(j != i);
                        if j < i {
                            assert(action_views(t@)[j] == v);
                        } else {
                            assert(action_views(t@)[j - 1] == v);
                        }
                    }
                }
                assert(action_set(t@) =~= action_set(before).remove(a@));
            }
            return;
        }
        i = i + 1;
    }
    assert(!views.contains(a@)) by {
        if views.contains(a@) {
            let j = choose|j: int| 0 <= j < views.len() && views[j] == a@;
            assert(t@[j]@ == a@);
        }
    }
    assert(action_set(t@).remove(a@) =~= action_set(t@));
}

/// Adds the actions of `src` to the table `t`.
pub fn table_extend(t: &mut Vec<Action>, src: &Vec<Action>)
    requires
        actions_distinct(old(t)@),
    ensures
        actions_distinct(final(t)@),
        action_set(final(t)@) == action_set(old(t)@).union(action_views(src@).to_set()),
{
    let mut i: usize = 0;
    while i < src.len()
        invariant
            i <= src@.len(),
            actions_distinct(t@),
            action_set(t@) == action_set(old(t)@).union(action_views(src@).take(i as int).to_set()),
        decreases src@.len() - i,
    {
        let a = src[i].copy();
        let ghost av = a@;
        table_insert(t, a);
        proof {
            assert(action_views(src@).take(i + 1) =~= action_views(src@).take(i as int).push(av));
            action_views(src@).take(i as int).lemma_push_to_set_commute(av);
            assert(action_set(t@) =~= action_set(old(t)@).union(action_views(src@).take(i + 1).to_set()));
        }
        i = i + 1;
    }
    assert(action_views(src@).take(src@.len() as int) =~= action_views(src@));
}

} // verus!
