//! Assignments: the statements that move data between variables.
use std::collections::HashSet;
use vstd::prelude::*;
use crate::ast::{AstNode, attr_str_of, attr_str};
use crate::shared::walker::{Walker, Query, NodeTest, test_of, walk_seq, name_in, lemma_tree_ok_child,
    lemma_walk_mono, lemma_walk_holds};
use crate::shared::dict::Dictionary;
use crate::cfg::splitter::never_test;
use crate::shared::variable::{Variable, VarView, var_set, vars_distinct, spec_parse};
use crate::text::str_eq;

verus! {

broadcast use vstd::std_specs::hash::group_hash_axioms;

/// Operator in an assignment statement
///
/// - `Operator::Equal` : the variable in LHS clears it own value and create a data dependency on all variables in RHS
/// ```javascript
/// x = y;
/// KILL(x), USE(Y)
/// ```javascript
/// - `Operator::Other` : the variable in LHS is modified by using both its value and
/// RHS
/// ```javascript
/// x += y;
/// USE(x), USE(y)
/// ```
#[derive(Debug, PartialEq, Eq, Structural, Clone, Copy)]
pub enum Operator {
    /// Operator =
    Equal,
    /// Other operators: |=, ^=, &=, <<=, >>=, +=, -=, *=, /=, %=
    Other,
}

/// The statement edits the flow of data in a solidity program
///
/// The value of a variable can be passed to other variables through assignment statement or
/// combined with other variables. The assignment not only standard expression (LHS = RHS) but also LHS without RHS. The
/// full list of solidity tokens possibly including the assignment statement:
///
/// 1. __Assignment__ : a standard assignment inside body of a function.
/// 2. __VariableDeclaration__: a state variable declaration in a contract
/// 3. __ParameterList__: a list of parameters of a function
/// 4. __VariableDeclarationStatement__: local variable declaration
#[derive(Debug)]
pub struct Assignment {
    /// a list of variables in LHS of a assignment, each once
    pub lhs: Vec<Variable>,
    /// a list of variables in RHS of a assignment, each once
    pub rhs: Vec<Variable>,
    /// the operator in a assignment
    pub op: Operator,
}

/// An assignment as plain values.
pub type AssignmentView = (Set<VarView>, Set<VarView>, Operator);

impl View for Assignment {
    type V = AssignmentView;

    open spec fn view(&self) -> AssignmentView {
        (var_set(self.lhs@), var_set(self.rhs@), self.op)
    }
}

/// The operator of an assignment node: `=` and `delete` (or none) set the
/// left-hand side afresh, any other operator updates it.
pub open spec fn spec_operator(n: AstNode) -> Operator {
    match attr_str_of(n.attributes@, "operator"@) {
        Some(op) => if op == "="@ || op == "delete"@ { Operator::Equal } else { Operator::Other },
        None => Operator::Equal,
    }
}

/// An assignment sets its left-hand side afresh (`Equal`) exactly when its
/// operator is `=` or `delete`, or it names none; a compound operator such as
/// `+=` or `<<=` updates the old value (`Other`).
pub proof fn law_operator(n: AstNode)
    ensures
        spec_operator(n) == Operator::Equal <==> (attr_str_of(n.attributes@, "operator"@) is None
            || attr_str_of(n.attributes@, "operator"@) == Some("="@)
            || attr_str_of(n.attributes@, "operator"@) == Some("delete"@)),
        attr_str_of(n.attributes@, "operator"@) matches Some(op) && op.len() >= 2 && op.last() == '='
            ==> spec_operator(n) == Operator::Other,
{
    reveal_strlit("=");
    reveal_strlit("delete");
    assert("="@.len() == 1);
    assert("delete"@.last() == 'e');
}

/// The assignment that node `n` (read against `source`) makes; `None` when it
/// is no declaration and has no child to read its left-hand side from.
pub open spec fn spec_parse_one(n: AstNode, keys: Seq<(AstNode, Seq<char>)>, source: Seq<char>, fuel: nat)
    -> Option<AssignmentView>
{
    if n.name@ != "VariableDeclaration"@ && n.children@.len() == 0 {
        None
    } else {
        let lhs = if n.name@ == "VariableDeclaration"@ {
            spec_parse(n, keys, Set::empty(), source, fuel).0
        } else {
            spec_parse(n.children@[0], keys, Set::empty(), source, fuel).0
        };
        let rhs = if n.children@.len() >= 2 {
            spec_parse(n.children@[1], keys, Set::empty(), source, fuel).0
        } else {
            Set::empty()
        };
        Some((lhs, rhs, spec_operator(n)))
    }
}

/// What one assignment reads: the variables it sets come from its left-hand
/// side (its first child; a declaration sets the variable it declares), the
/// variables it reads from its right-hand side (its second child, if any),
/// and its operator tells whether the old value is set afresh.
pub proof fn law_parse_one_sides(n: AstNode, keys: Seq<(AstNode, Seq<char>)>, source: Seq<char>, fuel: nat)
    ensures
        n.name@ != "VariableDeclaration"@ && n.children@.len() == 0 ==> spec_parse_one(n, keys, source, fuel) is None,
        n.name@ != "VariableDeclaration"@ && n.children@.len() > 0 ==> spec_parse_one(n, keys, source, fuel) == Some((
            spec_parse(n.children@[0], keys, Set::empty(), source, fuel).0,
            if n.children@.len() >= 2 { spec_parse(n.children@[1], keys, Set::empty(), source, fuel).0 } else { Set::empty() },
            spec_operator(n))),
        n.name@ == "VariableDeclaration"@ ==> spec_parse_one(n, keys, source, fuel) == Some((
            spec_parse(n, keys, Set::empty(), source, fuel).0,
            if n.children@.len() >= 2 { spec_parse(n.children@[1], keys, Set::empty(), source, fuel).0 } else { Set::empty() },
            spec_operator(n))),
{
}

/// The names of the nodes that make an assignment.
pub open spec fn assignment_names() -> Seq<Seq<char>> {
    seq!["VariableDeclaration"@, "VariableDeclarationStatement"@, "Assignment"@]
}

/// The operators that make an assignment.
pub open spec fn assignment_operators() -> Seq<Seq<char>> {
    seq!["++"@, "--"@, "delete"@]
}

/// The nodes that `Assignment::parse` reads.
pub open spec fn assignment_test(visited: Set<u32>) -> NodeTest {
    |a: AstNode, p: Option<AstNode>| {
        ||| assignment_names().contains(a.name@)
        ||| assignment_operators().contains(crate::ast::attr_str_or_empty(a.attributes@, "operator"@))
        ||| visited.contains(a.id)
    }
}

/// The assignments of the first `k` nodes of `ws` that are not visited, and
/// their ids; `None` when one of them cannot be read.
pub open spec fn parse_assignments(ws: Seq<AstNode>, k: int, keys: Seq<(AstNode, Seq<char>)>, visited: Set<u32>,
    source: Seq<char>, fuel: nat) -> Option<(Seq<AssignmentView>, Set<u32>)>
    decreases k,
{
    if k <= 0 {
        Some((seq![], Set::empty()))
    } else {
        match parse_assignments(ws, k - 1, keys, visited, source, fuel) {
            None => None,
            Some((asg, nv)) => {
                let w = ws[k - 1];
                if visited.contains(w.id) {
                    Some((asg, nv))
                } else {
                    match spec_parse_one(w, keys, source, fuel) {
                        Some(a) => Some((asg.push(a), nv.insert(w.id))),
                        None => None,
                    }
                }
            },
        }
    }
}

/// What `Assignment::parse` finds in `n` with the nodes `visited` left out:
/// the assignments in walk order and the visited nodes after it.
pub open spec fn spec_parse_assignments(n: AstNode, keys: Seq<(AstNode, Seq<char>)>, visited: Set<u32>,
    source: Seq<char>, fuel: nat) -> Option<(Seq<AssignmentView>, Set<u32>)>
{
    let ws = walk_seq(n, None, true, never_test(), assignment_test(visited));
    match parse_assignments(ws, ws.len() as int, keys, visited, source, fuel) {
        Some((asg, nv)) => Some((asg, visited.union(nv))),
        None => None,
    }
}

proof fn lemma_parse_assignments_new(ws: Seq<AstNode>, k: int, keys: Seq<(AstNode, Seq<char>)>, visited: Set<u32>,
    source: Seq<char>, fuel: nat)
    requires
        k <= ws.len(),
    ensures
        parse_assignments(ws, k, keys, visited, source, fuel) matches Some((asg, nv)) ==> {
            &&& forall|x: u32| #[trigger] nv.contains(x) ==> exists|j: int| 0 <= j < k && (#[trigger] ws[j]).id == x
                && !visited.contains(x)
            &&& forall|j: int| 0 <= j < k && !visited.contains((#[trigger] ws[j]).id) ==> nv.contains(ws[j].id)
        },
    decreases k,
{
    if k > 0 {
        lemma_parse_assignments_new(ws, k - 1, keys, visited, source, fuel);
        if let Some((asg, nv)) = parse_assignments(ws, k, keys, visited, source, fuel) {
            let (asg0, nv0) = parse_assignments(ws, k - 1, keys, visited, source, fuel)->0;
            assert forall|x: u32| #[trigger] nv.contains(x) implies exists|j: int| 0 <= j < k
                && (#[trigger] ws[j]).id == x && !visited.contains(x) by {
                if nv0.contains(x) {
                    let j = choose|j: int| 0 <= j < k - 1 && (#[trigger] ws[j]).id == x && !visited.contains(x);
                    assert(0 <= j < k);
                } else {
                    assert(ws[k - 1].id == x);
                }
            }
        }
    }
}

proof fn lemma_parse_assignments_all_visited(ws: Seq<AstNode>, k: int, keys: Seq<(AstNode, Seq<char>)>, visited: Set<u32>,
    source: Seq<char>, fuel: nat)
    requires
        k <= ws.len(),
        forall|j: int| 0 <= j < k ==> visited.contains((#[trigger] ws[j]).id),
    ensures
        parse_assignments(ws, k, keys, visited, source, fuel) == Some((Seq::<AssignmentView>::empty(), Set::<u32>::empty())),
    decreases k,
{
    if k > 0 {
        lemma_parse_assignments_all_visited(ws, k - 1, keys, visited, source, fuel);
    }
}

/// Nodes already visited, with all below them, are left out: a node that
/// `Assignment::parse` is given as visited yields no assignment and leaves the
/// visited nodes as they were; a parse that succeeds only adds to the visited
/// nodes, among them every node it read; and parsing again with the visited
/// nodes after it yields no assignment and adds no node.
pub proof fn law_parse_assignments_visited(n: AstNode, keys: Seq<(AstNode, Seq<char>)>, visited: Set<u32>,
    source: Seq<char>, fuel: nat)
    ensures
        visited.contains(n.id) ==> spec_parse_assignments(n, keys, visited, source, fuel)
            == Some((Seq::<AssignmentView>::empty(), visited)),
        spec_parse_assignments(n, keys, visited, source, fuel) matches Some((asg, v2)) ==> {
            &&& visited.subset_of(v2)
            &&& forall|j: int| 0 <= j < walk_seq(n, None, true, never_test(), assignment_test(visited)).len()
                ==> v2.contains((#[trigger] walk_seq(n, None, true, never_test(), assignment_test(visited))[j]).id)
            &&& spec_parse_assignments(n, keys, v2, source, fuel) == Some((Seq::<AssignmentView>::empty(), v2))
        },
{
    let ws1 = walk_seq(n, None, true, never_test(), assignment_test(visited));
    if visited.contains(n.id) {
        assert(ws1 =~= seq![n]);
        lemma_parse_assignments_all_visited(ws1, ws1.len() as int, keys, visited, source, fuel);
        assert(visited.union(Set::<u32>::empty()) =~= visited);
    }
    lemma_parse_assignments_new(ws1, ws1.len() as int, keys, visited, source, fuel);
    if let Some((asg, nv)) = parse_assignments(ws1, ws1.len() as int, keys, visited, source, fuel) {
        let v2 = visited.union(nv);
        assert forall|j: int| 0 <= j < ws1.len() implies v2.contains((#[trigger] ws1[j]).id) by {
            if !visited.contains(ws1[j].id) {
                assert(nv.contains(ws1[j].id));
            }
        }
        let ws2 = walk_seq(n, None, true, never_test(), assignment_test(v2));
        let pr1 = |a: AstNode| assignment_names().contains(a.name@) || assignment_operators().contains(
            crate::ast::attr_str_or_empty(a.attributes@, "operator"@)) || visited.contains(a.id);
        lemma_walk_mono(n, None, never_test(), assignment_test(visited), assignment_test(v2), pr1);
        lemma_walk_holds(n, None, true, never_test(), assignment_test(v2), |a: AstNode|
            assignment_names().contains(a.name@) || assignment_operators().contains(
            crate::ast::attr_str_or_empty(a.attributes@, "operator"@)) || v2.contains(a.id));
        assert forall|j: int| 0 <= j < ws2.len() implies v2.contains((#[trigger] ws2[j]).id) by {
            if !v2.contains(ws2[j].id) {
                assert(pr1(ws2[j]));
                let x = choose|x: int| 0 <= x < ws1.len() && ws1[x] == ws2[j];
                assert(v2.contains(ws1[x].id));
            }
        }
        lemma_parse_assignments_all_visited(ws2, ws2.len() as int, keys, v2, source, fuel);
        assert(v2.union(Set::<u32>::empty()) =~= v2);
    }
}

impl Assignment {
    /// The two sides and the operator.
    pub fn to_tuple(&self) -> (r: (&Vec<Variable>, &Vec<Variable>, &Operator))
        ensures
            r.0@ == self.lhs@,
            r.1@ == self.rhs@,
            *r.2 == self.op,
    {
        (&self.lhs, &self.rhs, &self.op)
    }

    pub fn get_lhs(&self) -> (r: &Vec<Variable>)
        ensures
            r@ == self.lhs@,
    {
        &self.lhs
    }

    pub fn get_rhs(&self) -> (r: &Vec<Variable>)
        ensures
            r@ == self.rhs@,
    {
        &self.rhs
    }

    pub fn get_op(&self) -> (r: &Operator)
        ensures
            *r == self.op,
    {
        &self.op
    }

    /// Find all variables in current walker, the dictionary is used to identify global variables
    ///
    /// Ignore node and its childs if it is listed in visited_nodes. `None`
    /// where a node to read has no child to read its left-hand side from.
    pub fn parse(walker: &Walker, dict: &Dictionary, visited_nodes: &mut HashSet<u32>) -> (r: Option<Vec<Assignment>>)
        requires
            walker.tree_wf(),
            dict.wf(),
        ensures
            ({
                let s = spec_parse_assignments(walker.ast(), dict.keys(), old(visited_nodes)@, walker.source@,
                    dict.entries@.len() as nat);
                &&& r is Some == s is Some
                &&& r matches Some(v) ==> (s matches Some((asg, nv)) && v@.map_values(|a: Assignment| a@) == asg
                    && final(visited_nodes)@ == nv)
                &&& r matches Some(v) ==> forall|i: int| 0 <= i < v@.len() ==> vars_distinct((#[trigger] v@[i]).lhs@)
                    && vars_distinct(v@[i].rhs@)
            }),
    {
        let ghost n = walker.ast();
        let ghost keys = dict.keys();
        let ghost visited = visited_nodes@;
        let ghost source = walker.source@;
        let ghost fuel = dict.entries@.len() as nat;
        let fi = Query::NamesOperatorsOrIds(vec!["VariableDeclaration", "VariableDeclarationStatement", "Assignment"],
            vec!["++", "--", "delete"], visited_nodes);
        let ig = Query::Never;
        proof {
            reveal_strlit("VariableDeclaration");
            reveal_strlit("VariableDeclarationStatement");
            reveal_strlit("Assignment");
            reveal_strlit("++");
            reveal_strlit("--");
            reveal_strlit("delete");
            let names = fi->NamesOperatorsOrIds_0@;
            let ops = fi->NamesOperatorsOrIds_1@;
            assert forall|a: AstNode, p: Option<AstNode>| #[trigger] test_of(fi)(a, p) == assignment_test(visited)(a, p) by {
                let op = crate::ast::attr_str_or_empty(a.attributes@, "operator"@);
                if assignment_names().contains(a.name@) {
                    let k = choose|k: int| 0 <= k < assignment_names().len() && assignment_names()[k] == a.name@;
                    assert(names[k]@ == a.name@);
                }
                if name_in(names, a.name@) {
                    let k = choose|k: int| 0 <= k < names.len() && (#[trigger] names[k])@ == a.name@;
                    assert(assignment_names()[k] == a.name@);
                }
                if assignment_operators().contains(op) {
                    let k = choose|k: int| 0 <= k < assignment_operators().len() && assignment_operators()[k] == op;
                    assert(ops[k]@ == op);
                }
                if name_in(ops, op) {
                    let k = choose|k: int| 0 <= k < ops.len() && (#[trigger] ops[k])@ == op;
                    assert(assignment_operators()[k] == op);
                }
            }
            assert(test_of(fi) =~= assignment_test(visited));
            assert(test_of(ig) =~= never_test());
        }
        let walkers = walker.walk(true, &ig, &fi);
        let ghost ws = walk_seq(n, None, true, never_test(), assignment_test(visited));
        let mut assignments: Vec<Assignment> = Vec::new();
        let mut new_visited: Vec<u32> = Vec::new();
        let mut i: usize = 0;
        while i < walkers.len()
            invariant
                dict.wf(),
                keys == dict.keys(),
                fuel == dict.entries@.len() as nat,
                visited == visited_nodes@,
                visited == old(visited_nodes)@,
                n == walker.ast(),
                source == walker.source@,
                ws == walk_seq(n, None, true, never_test(), assignment_test(visited)),
                walkers@.len() == ws.len(),
                forall|x: int| 0 <= x < walkers@.len() ==> (#[trigger] walkers@[x]).reads(ws[x], walker.source),
                forall|x: int| 0 <= x < walkers@.len() ==> (#[trigger] walkers@[x]).tree_wf(),
                i <= walkers@.len(),
                parse_assignments(ws, i as int, keys, visited, source, fuel) matches Some((asg, nv))
                    && assignments@.map_values(|a: Assignment| a@) == asg && new_visited@.to_set() == nv,
                forall|x: int| 0 <= x < assignments@.len() ==> vars_distinct((#[trigger] assignments@[x]).lhs@)
                    && vars_distinct(assignments@[x].rhs@),
            decreases walkers@.len() - i,
        {
            let w = walkers[i];
            proof {
                Walker::lemma_wf_fields(w);
                assert(walkers@[i as int].reads(ws[i as int], walker.source));
                assert(w.source@ == source);
            }
            if !visited_nodes.contains(&w.node.id) {
                match Self::parse_one(&w, dict) {
                    Some(a) => {
                        let ghost before = assignments@;
                        let ghost av = a@;
                        assignments.push(a);
                        assert(assignments@.map_values(|a: Assignment| a@) =~= before.map_values(|a: Assignment| a@).push(av));
                        let ghost nv0 = new_visited@;
                        new_visited.push(w.node.id);
                        proof { nv0.lemma_push_to_set_commute(w.node.id); }
                    },
                    None => {
                        proof {
                            assert(w.ast() == ws[i as int]);
                            assert(spec_parse_one(ws[i as int], keys, source, fuel) is None);
                            assert(parse_assignments(ws, i as int, keys, visited, source, fuel) is Some);
                            lemma_parse_assignments_none(ws, i as int + 1, ws.len() as int, keys, visited, source, fuel);
                            assert(parse_assignments(ws, ws.len() as int, keys, visited, source, fuel) is None);
                            assert(spec_parse_assignments(n, keys, visited, source, fuel) is None);
                        }
                        return None;
                    },
                }
            }
            i = i + 1;
        }
        let ghost nv = new_visited@;
        let mut j: usize = 0;
        while j < new_visited.len()
            invariant
                j <= nv.len(),
                new_visited@ == nv,
                visited_nodes@ == visited.union(nv.take(j as int).to_set()),
            decreases nv.len() - j,
        {
            visited_nodes.insert(new_visited[j]);
            proof {
                assert(nv.take(j + 1) =~= nv.take(j as int).push(nv[j as int]));
                nv.take(j as int).lemma_push_to_set_commute(nv[j as int]);
                assert(visited_nodes@ =~= visited.union(nv.take(j + 1).to_set()));
            }
            j = j + 1;
        }
        assert(nv.take(nv.len() as int) =~= nv);
        Some(assignments)
    }

    /// Find a assignment of current walker; `None` when the node is no
    /// declaration and has no child to read its left-hand side from.
    fn parse_one(walker: &Walker, dict: &Dictionary) -> (r: Option<Assignment>)
        requires
            walker.tree_wf(),
            dict.wf(),
        ensures
            r is Some == spec_parse_one(walker.ast(), dict.keys(), walker.source@, dict.entries@.len() as nat) is Some,
            r matches Some(a) ==> a@ == spec_parse_one(walker.ast(), dict.keys(), walker.source@,
                dict.entries@.len() as nat)->0,
            r matches Some(a) ==> vars_distinct(a.lhs@) && vars_distinct(a.rhs@),
    {
        proof {
            Walker::lemma_wf_fields(*walker);
            reveal_strlit("operator");
            reveal_strlit("=");
            reveal_strlit("delete");
            reveal_strlit("VariableDeclaration");
        }
        let ghost n = walker.ast();
        let op = match attr_str(walker.node.attributes, "operator") {
            Some(o) => if str_eq(o.as_str(), "=") || str_eq(o.as_str(), "delete") { Operator::Equal } else { Operator::Other },
            None => Operator::Equal,
        };
        let is_declaration = str_eq(walker.node.name, "VariableDeclaration");
        if !is_declaration && walker.node.children.len() == 0 {
            return None;
        }
        let mut fresh: HashSet<u32> = HashSet::new();
        assert(fresh@ =~= Set::<u32>::empty());
        let lhs = if is_declaration {
            Variable::parse(walker, dict, &mut fresh)
        } else {
            proof { lemma_tree_ok_child(n, walker.source@, 0); }
            let first = Walker::new(&walker.node.children[0], walker.source);
            Variable::parse(&first, dict, &mut fresh)
        };
        let rhs = if walker.node.children.len() >= 2 {
            proof { lemma_tree_ok_child(n, walker.source@, 1); }
            let second = Walker::new(&walker.node.children[1], walker.source);
            let mut fresh2: HashSet<u32> = HashSet::new();
            assert(fresh2@ =~= Set::<u32>::empty());
            Variable::parse(&second, dict, &mut fresh2)
        } else {
            let v: Vec<Variable> = Vec::new();
            assert(var_set(v@) =~= Set::empty());
            v
        };
        Some(Assignment { lhs, rhs, op })
    }
}

/// Once a node cannot be read, the assignments of the longer prefixes cannot either.
pub proof fn lemma_parse_assignments_none(ws: Seq<AstNode>, k: int, m: int, keys: Seq<(AstNode, Seq<char>)>,
    visited: Set<u32>, source: Seq<char>, fuel: nat)
    requires
        0 < k <= m,
        parse_assignments(ws, k - 1, keys, visited, source, fuel) is Some,
        !visited.contains(ws[k - 1].id),
        spec_parse_one(ws[k - 1], keys, source, fuel) is None,
    ensures
        parse_assignments(ws, m, keys, visited, source, fuel) is None,
    decreases m - k,
{
    if m > k {
        lemma_parse_assignments_none(ws, k, m - 1, keys, visited, source, fuel);
    }
}

} // verus!
