//! The use of an element of an array.
use vstd::prelude::*;
use crate::ast::{AstNode, attr_u32_of, attr_str_or_empty, attr_u32, attr_str_or_default};
use crate::shared::walker::{Walker, Query, test_of, walk_seq, text_of, reads_all, lemma_tree_ok_child};
use crate::shared::access::index_access_test;
use crate::shared::dfg::utils::{normalize_kind, spec_kind, dvar_insert};
use crate::cfg::splitter::never_test;
use crate::shared::dict::{Dictionary, entry_of};
use crate::shared::dfg::assignment::{Assignment, DAsgView, dasg_views};
use crate::shared::dfg::variable::{Variable, DVarView, dvar_views};
use crate::shared::dfg::common::{Member, MemberView, member_views, Operator};
use crate::text::{str_eq, decimal, decimal_of, owned};

verus! {

/// The use of an element of an array
pub struct IndexUse {
    pub assignments: Vec<Assignment>,
    pub variables: Vec<Variable>,
}

/// The member that the reference of a node names: the reference itself when
/// the dictionary has an entry for it, else the global `name`.
pub open spec fn reference_member(reference: Option<u32>, keys: Seq<(AstNode, Seq<char>)>, name: Seq<char>,
    fallback: Seq<char>) -> MemberView
{
    match reference {
        Some(r) => if entry_of(keys, r) is Some { MemberView::Reference(r) } else { MemberView::Global(name) },
        None => MemberView::Global(fallback),
    }
}

/// The members of the variable that node `n` reads, last member first.
pub open spec fn index_members(n: AstNode, keys: Seq<(AstNode, Seq<char>)>) -> Seq<MemberView>
    decreases n, 1int, 0int,
{
    let reference = attr_u32_of(n.attributes@, "referencedDeclaration"@);
    let member_name = attr_str_or_empty(n.attributes@, "member_name"@);
    let value = attr_str_or_empty(n.attributes@, "value"@);
    if n.name@ == "Identifier"@ {
        seq![reference_member(reference, keys, value, member_name)]
    } else if n.name@ == "MemberAccess"@ {
        seq![reference_member(reference, keys, member_name, member_name)] + kids_index_members(n, n.children@.len() as int, keys)
    } else if n.name@ == "IndexAccess"@ {
        if n.children@.len() == 0 {
            seq![]
        } else {
            let first = index_members(n.children@[0], keys);
            if n.children@.len() >= 2 { seq![MemberView::IndexAccess] + first } else { first }
        }
    } else {
        seq![]
    }
}

/// The members of the first `k` children of `n`, one after the other.
pub open spec fn kids_index_members(n: AstNode, k: int, keys: Seq<(AstNode, Seq<char>)>) -> Seq<MemberView>
    decreases n, 0int, k,
{
    if k <= 0 || k > n.children@.len() {
        seq![]
    } else {
        kids_index_members(n, k - 1, keys) + index_members(
            {
                proof {
                    assert(decreases_to!(n => n.children));
                    assert(decreases_to!(n.children => n.children@));
                    assert(decreases_to!(n.children@ => n.children@[k - 1]));
                }
                n.children@[k - 1]
            },
            keys,
        )
    }
}

impl IndexUse {
    pub fn get_assignments(&self) -> (r: &Vec<Assignment>)
        ensures
            r@ == self.assignments@,
    {
        &self.assignments
    }

    pub fn get_variables(&self) -> (r: &Vec<Variable>)
        ensures
            r@ == self.variables@,
    {
        &self.variables
    }

    /// The members of the variable that `walker` reads: see `index_members`.
    pub fn find_members(walker: &Walker, dict: &Dictionary) -> (r: Vec<Member>)
        requires
            walker.tree_wf(),
            dict.wf(),
        ensures
            member_views(r@) == index_members(walker.ast(), dict.keys()),
        decreases *walker.node.ast,
    {
        let ghost n = walker.ast();
        let ghost keys = dict.keys();
        proof {
            Walker::lemma_wf_fields(*walker);
            reveal_strlit("Identifier");
            reveal_strlit("MemberAccess");
            reveal_strlit("IndexAccess");
            reveal_strlit("referencedDeclaration");
            reveal_strlit("member_name");
            reveal_strlit("value");
        }
        let reference = attr_u32(walker.node.attributes, "referencedDeclaration");
        let found = match reference {
            Some(r) => dict.walker_at(r).is_some(),
            None => false,
        };
        let member_name = attr_str_or_default(walker.node.attributes, "member_name");
        let value = attr_str_or_default(walker.node.attributes, "value");
        if str_eq(walker.node.name, "Identifier") {
            let m = match reference {
                Some(r) => if found { Member::Reference(r) } else { Member::Global(value) },
                None => Member::Global(member_name),
            };
            let ret = vec![m];
            assert(member_views(ret@) =~= seq![m@]);
            ret
        } else if str_eq(walker.node.name, "MemberAccess") {
            proof { assert("Identifier"@.len() != "MemberAccess"@.len()); }
            let m = match reference {
                Some(r) => if found { Member::Reference(r) } else { Member::Global(member_name) },
                None => Member::Global(member_name),
            };
            let mut ret = vec![m];
            assert(member_views(ret@) =~= seq![m@] + kids_index_members(n, 0, keys));
            let mut i: usize = 0;
            while i < walker.node.children.len()
                invariant
                    walker.tree_wf(),
                    dict.wf(),
                    n == walker.ast(),
                    keys == dict.keys(),
                    walker.node.children@ == n.children@,
                    i <= n.children@.len(),
                    member_views(ret@) == seq![m@] + kids_index_members(n, i as int, keys),
                decreases n.children@.len() - i,
            {
                proof {
                    lemma_tree_ok_child(n, walker.source@, i as int);
                    assert(decreases_to!(*walker.node.ast => walker.node.ast.children));
                    assert(decreases_to!(walker.node.ast.children => walker.node.ast.children@));
                    assert(decreases_to!(walker.node.ast.children@ => walker.node.ast.children@[i as int]));
                }
                let child = Walker::new(&walker.node.children[i], walker.source);
                let mut sub = Self::find_members(&child, dict);
                let ghost before = ret@;
                let ghost sv = sub@;
                ret.append(&mut sub);
                assert(member_views(ret@) =~= member_views(before) + member_views(sv));
                assert(seq![m@] + kids_index_members(n, i + 1, keys) =~= seq![m@] + kids_index_members(n, i as int, keys)
                    + index_members(n.children@[i as int], keys));
                i = i + 1;
            }
            ret
        } else if str_eq(walker.node.name, "IndexAccess") {
            proof {
                assert("Identifier"@.len() != "IndexAccess"@.len());
                assert("MemberAccess"@.len() != "IndexAccess"@.len());
            }
            if walker.node.children.len() == 0 {
                return Vec::new();
            }
            proof {
                lemma_tree_ok_child(n, walker.source@, 0);
                assert(decreases_to!(*walker.node.ast => walker.node.ast.children));
                assert(decreases_to!(walker.node.ast.children => walker.node.ast.children@));
                assert(decreases_to!(walker.node.ast.children@ => walker.node.ast.children@[0]));
            }
            let first = Walker::new(&walker.node.children[0], walker.source);
            let mut sub = Self::find_members(&first, dict);
            if walker.node.children.len() >= 2 {
                let mut ret = vec![Member::IndexAccess];
                let ghost sv = sub@;
                ret.append(&mut sub);
                assert(member_views(ret@) =~= seq![MemberView::IndexAccess] + member_views(sv));
                ret
            } else {
                sub
            }
        } else {
            Vec::new()
        }
    }
}

/// The variable that the index access `n`, read against `source`, stands for:
/// a global named by the id of the node, with the node's source and kind.
pub open spec fn index_use_var(n: AstNode, source: Seq<char>) -> DVarView {
    (seq![MemberView::Global(decimal_of(n.id as nat))], text_of(n, source), spec_kind(n), seq![])
}

/// What `IndexUse::parse` reads from `n`: an index access is the assignment of
/// its variable; any other node uses the variable of each outermost index
/// access within it.
pub open spec fn spec_index_use(n: AstNode, source: Seq<char>) -> (Seq<DAsgView>, Set<DVarView>) {
    if n.name@ == "IndexAccess"@ {
        (seq![(seq![index_use_var(n, source)], seq![], Operator::Equal)], Set::empty())
    } else {
        (seq![], walk_seq(n, None, true, never_test(), index_access_test()).map_values(
            |w: AstNode| index_use_var(w, source)).to_set())
    }
}

impl IndexUse {
    /// The variable that the index access of `walker` stands for: see `index_use_var`.
    pub fn to_var(walker: &Walker, _dict: &Dictionary) -> (r: Variable)
        requires
            walker.wf(),
        ensures
            r@ == index_use_var(walker.ast(), walker.source@),
    {
        proof { Walker::lemma_wf_fields(*walker); }
        let kind = normalize_kind(walker);
        let members = vec![Member::Global(decimal(walker.node.id))];
        assert(members@ =~= seq![members@[0]]);
        assert(member_views(members@) =~= seq![MemberView::Global(decimal_of(walker.ast().id as nat))]);
        Variable::new(members, owned(walker.node.source), kind, String::new())
    }

    /// The index accesses of the statement of `walker`: see `spec_index_use`.
    pub fn parse(walker: &Walker, dict: &Dictionary) -> (r: Vec<IndexUse>)
        requires
            walker.tree_wf(),
        ensures
            r@.len() == 1,
            dasg_views(r@[0].assignments@) == spec_index_use(walker.ast(), walker.source@).0,
            dvar_views(r@[0].variables@).no_duplicates(),
            dvar_views(r@[0].variables@).to_set() == spec_index_use(walker.ast(), walker.source@).1,
    {
        let ghost n = walker.ast();
        let ghost src = walker.source@;
        proof {
            Walker::lemma_wf_fields(*walker);
            reveal_strlit("IndexAccess");
        }
        let mut assignments: Vec<Assignment> = Vec::new();
        let mut variables: Vec<Variable> = Vec::new();
        if str_eq(walker.node.name, "IndexAccess") {
            let v = IndexUse::to_var(walker, dict);
            let lhs = vec![v];
            assert(lhs@ =~= seq![v]);
            let a = Assignment::new(lhs, Vec::new(), Operator::Equal);
            assignments.push(a);
            proof {
                assert(dvar_views(a.lhs@) =~= seq![index_use_var(n, src)]);
                assert(dvar_views(a.rhs@) =~= Seq::<DVarView>::empty());
                assert(dasg_views(assignments@) =~= spec_index_use(n, src).0);
                assert(dvar_views(variables@).to_set() =~= Set::<DVarView>::empty());
            }
        } else {
            let ig = Query::Never;
            let fi = Query::Names(vec!["IndexAccess"]);
            proof {
                assert(test_of(fi) =~= index_access_test()) by {
                    assert forall|a: AstNode, p: Option<AstNode>| #[trigger] test_of(fi)(a, p)
                        == index_access_test()(a, p) by {
                        if a.name@ == "IndexAccess"@ {
                            assert(fi->Names_0@[0]@ == a.name@);
                        }
                    }
                }
                assert(test_of(ig) =~= never_test());
            }
            let found = walker.walk(true, &ig, &fi);
            let ghost ws = walk_seq(n, None, true, never_test(), index_access_test());
            let mut i: usize = 0;
            assert(dvar_views(variables@).to_set() =~= Set::<DVarView>::empty());
            while i < found.len()
                invariant
                    src == walker.source@,
                    ws == walk_seq(n, None, true, never_test(), index_access_test()),
                    reads_all(found@, ws, walker.source),
                    i <= found@.len(),
                    dvar_views(variables@).no_duplicates(),
                    dvar_views(variables@).to_set() == ws.take(i as int).map_values(
                        |w: AstNode| index_use_var(w, src)).to_set(),
                decreases found@.len() - i,
            {
                let v = IndexUse::to_var(&found[i], dict);
                dvar_insert(&mut variables, v);
                proof {
                    let f = |w: AstNode| index_use_var(w, src);
                    lemma_take_map_set(ws, i as int, f);
                }
                i = i + 1;
            }
            proof {
                assert(ws.take(ws.len() as int) =~= ws);
                assert(dasg_views(assignments@) =~= Seq::<DAsgView>::empty());
            }
        }
        let r = vec![IndexUse { assignments, variables }];
        assert(r@ =~= seq![r@[0]]);
        r
    }
}

/// The set of the first `i + 1` images is that of the first `i` with the next one.
pub proof fn lemma_take_map_set<A, B>(s: Seq<A>, i: int, f: spec_fn(A) -> B)
    requires
        0 <= i < s.len(),
    ensures
        s.take(i + 1).map_values(f).to_set() == s.take(i).map_values(f).to_set().insert(f(s[i])),
{
    assert(s.take(i + 1).map_values(f) =~= s.take(i).map_values(f).push(f(s[i])));
    let a = s.take(i).map_values(f);
    let y = f(s[i]);
    let b = a.push(y);
    assert(b.to_set() =~= a.to_set().insert(y)) by {
        assert forall|x| b.to_set().contains(x) <==> a.to_set().insert(y).contains(x) by {
            if b.contains(x) {
                let j = choose|j: int| 0 <= j < b.len() && #[trigger] b[j] == x;
                if j < a.len() {
                    assert(a[j] == x);
                }
            }
            if a.contains(x) {
                let j = choose|j: int| 0 <= j < a.len() && #[trigger] a[j] == x;
                assert(b[j] == x);
            }
            if x == y {
                assert(b[a.len() as int] == x);
            }
        }
    }
}

} // verus!
