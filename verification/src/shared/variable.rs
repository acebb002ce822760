//! Variables of a Solidity program, as chains of members.
use std::collections::HashSet;
use vstd::prelude::*;
use crate::ast::{AstNode, attr_u32_of, attr_str_or_empty, attr_u32, attr_str_or_default};
use crate::shared::walker::{Walker, Query, NodeTest, test_of, walk_seq, text_of, name_in, lemma_tree_ok_child,
    lemma_walk_mono, lemma_walk_holds, within, lemma_within_trans};
use crate::shared::dict::{Dictionary, entry_of, key_of};
use crate::text::{str_eq, copy_string, owned};

verus! {

broadcast use vstd::std_specs::hash::group_hash_axioms;

/// Variable access
#[derive(Debug)]
pub enum Member {
    /// Link to node that defines current variable
    Reference(u32),
    /// Contains name of a global variable or function
    Global(String),
    /// Accesses a member in an array
    IndexAccess,
}

/// A member as a plain value.
pub enum MemberView {
    Reference(u32),
    Global(Seq<char>),
    IndexAccess,
}

impl View for Member {
    type V = MemberView;

    open spec fn view(&self) -> MemberView {
        match self {
            Member::Reference(id) => MemberView::Reference(*id),
            Member::Global(name) => MemberView::Global(name@),
            Member::IndexAccess => MemberView::IndexAccess,
        }
    }
}

impl Member {
    /// The two members are the same.
    pub fn same(&self, other: &Member) -> (r: bool)
        ensures
            r == (self@ == other@),
    {
        match (self, other) {
            (Member::Reference(a), Member::Reference(b)) => *a == *b,
            (Member::Global(a), Member::Global(b)) => str_eq(a.as_str(), b.as_str()),
            (Member::IndexAccess, Member::IndexAccess) => true,
            _ => false,
        }
    }

    /// A copy of the member.
    pub fn copy(&self) -> (r: Member)
        ensures
            r@ == self@,
    {
        match self {
            Member::Reference(id) => Member::Reference(*id),
            Member::Global(name) => Member::Global(copy_string(name)),
            Member::IndexAccess => Member::IndexAccess,
        }
    }
}

/// Relationship between two variables
#[derive(Debug, PartialEq, Eq, Structural, Clone, Copy)]
pub enum VariableComparison {
    /// Completely the same
    Equal,
    /// Completely different
    NotEqual,
    /// One variable contains other variable
    Partial,
}

/// Variable in solidity program
///
/// The variable can be `Array`, `Array Access`, `Struct`, `Struct Access`, `Primitive Type`,
/// `Global Access`. We use the `members` field to describe the different among them.
/// - `Array`, `Struct`, `Primitive`: `members` contains only one `Member::Reference`
/// - `Array Access`: `members` contains one `Member::Reference` and one `Member::IndexAccess`
/// - `Global Access`: `members` will contains at least one `Member::Global`
#[derive(Debug)]
pub struct Variable {
    pub members: Vec<Member>,
    pub source: String,
}

/// The members as plain values.
pub open spec fn member_views(ms: Seq<Member>) -> Seq<MemberView> {
    ms.map_values(|m: Member| m@)
}

/// A variable as plain values: its members and its source.
pub type VarView = (Seq<MemberView>, Seq<char>);

impl View for Variable {
    type V = VarView;

    open spec fn view(&self) -> VarView {
        (member_views(self.members@), self.source@)
    }
}

/// How the members `a` of one variable relate to the members `b` of another:
/// `Equal` when they are the same, `Partial` when one of them is longer and
/// ends with the other (what they share is one of them), else `NotEqual`.
pub open spec fn compare_members(a: Seq<MemberView>, b: Seq<MemberView>) -> VariableComparison {
    if a == b {
        VariableComparison::Equal
    } else if b.len() > a.len() && b.subrange(b.len() - a.len(), b.len() as int) == a {
        VariableComparison::Partial
    } else if a.len() > b.len() && a.subrange(a.len() - b.len(), a.len() as int) == b {
        VariableComparison::Partial
    } else {
        VariableComparison::NotEqual
    }
}

/// How variables compare: each is `Equal` to itself; two are `Equal` exactly
/// when their members are the same; `Partial` exactly when they differ and the
/// members of one end with those of the other; and the comparison is the same
/// whichever comes first.
pub proof fn law_compare_members(a: Seq<MemberView>, b: Seq<MemberView>)
    ensures
        compare_members(a, a) == VariableComparison::Equal,
        compare_members(a, b) == VariableComparison::Equal <==> a == b,
        compare_members(a, b) == VariableComparison::Partial <==> (a != b && (a.is_suffix_of(b) || b.is_suffix_of(a))),
        compare_members(a, b) == compare_members(b, a),
{
    if a.is_suffix_of(b) && a != b {
        assert(b.len() != a.len() || b.subrange(0, b.len() as int) =~= b);
    }
    if b.is_suffix_of(a) && a != b {
        assert(a.len() != b.len() || a.subrange(0, a.len() as int) =~= a);
    }
}

/// The members `a[from..]` are `b[..]`.
fn members_match(a: &Vec<Member>, from: usize, b: &Vec<Member>) -> (r: bool)
    requires
        from + b@.len() == a@.len(),
    ensures
        r == (member_views(a@).subrange(from as int, a@.len() as int) == member_views(b@)),
{
    let alen = a.len();
    let mut i: usize = 0;
    while i < b.len()
        invariant
            alen == a@.len(),
            from + b@.len() == a@.len(),
            i <= b@.len(),
            forall|j: int| 0 <= j < i ==> a@[from + j]@ == (#[trigger] b@[j])@,
        decreases b@.len() - i,
    {
        assert(from + i < a@.len());
        if !a[from + i].same(&b[i]) {
            assert(member_views(a@).subrange(from as int, a@.len() as int)[i as int] != member_views(b@)[i as int]);
            return false;
        }
        i = i + 1;
    }
    assert(member_views(a@).subrange(from as int, a@.len() as int) =~= member_views(b@));
    true
}

impl Variable {
    pub fn get_members(&self) -> (r: &Vec<Member>)
        ensures
            r@ == self.members@,
    {
        &self.members
    }

    pub fn get_source(&self) -> (r: &str)
        ensures
            r@ == self.source@,
    {
        self.source.as_str()
    }

    /// The two variables are the same: the same members and the same source.
    pub fn same(&self, other: &Variable) -> (r: bool)
        ensures
            r == (self@ == other@),
    {
        if self.members.len() != other.members.len() {
            return false;
        }
        if !members_match(&self.members, 0, &other.members) {
            assert(member_views(self.members@).subrange(0, self.members@.len() as int) =~= member_views(self.members@));
            return false;
        }
        assert(member_views(self.members@).subrange(0, self.members@.len() as int) =~= member_views(self.members@));
        str_eq(self.source.as_str(), other.source.as_str())
    }

    /// A copy of the variable.
    pub fn copy(&self) -> (r: Variable)
        ensures
            r@ == self@,
    {
        let mut members: Vec<Member> = Vec::new();
        let mut i: usize = 0;
        while i < self.members.len()
            invariant
                i <= self.members@.len(),
                member_views(members@) == member_views(self.members@).take(i as int),
            decreases self.members@.len() - i,
        {
            let ghost before = members@;
            let m = self.members[i].copy();
            members.push(m);
            assert(members@ == before.push(m));
            assert(member_views(members@) =~= member_views(before).push(self.members@[i as int]@));
            assert(member_views(self.members@).take(i + 1) =~= member_views(self.members@).take(i as int).push(self.members@[i as int]@));
            i = i + 1;
        }
        assert(member_views(self.members@).take(self.members@.len() as int) =~= member_views(self.members@));
        Variable { members, source: copy_string(&self.source) }
    }

    /// Use this to find the relationship between two variables
    /// The relationship is:
    /// - `Equal`: if all members fields are the same
    /// - `Partial`: if the intersection of two members fields are equal to one of them
    pub fn contains(&self, other: &Variable) -> (r: VariableComparison)
        ensures
            r == compare_members(self@.0, other@.0),
    {
        let a = &self.members;
        let b = &other.members;
        let ghost av = member_views(a@);
        let ghost bv = member_views(b@);
        if b.len() > a.len() {
            let offset = b.len() - a.len();
            assert(av != bv);
            if members_match(b, offset, a) {
                VariableComparison::Partial
            } else {
                VariableComparison::NotEqual
            }
        } else {
            let offset = a.len() - b.len();
            if members_match(a, offset, b) {
                if offset == 0 {
                    assert(av.subrange(0, av.len() as int) =~= av);
                    VariableComparison::Equal
                } else {
                    assert(av != bv);
                    VariableComparison::Partial
                }
            } else {
                if offset == 0 {
                    assert(av.subrange(0, av.len() as int) =~= av);
                }
                VariableComparison::NotEqual
            }
        }
    }
}

/// The views of a list of variables, as a set.
pub open spec fn var_set(vs: Seq<Variable>) -> Set<VarView> {
    vs.map_values(|v: Variable| v@).to_set()
}

/// No two variables of `vs` are the same.
pub open spec fn vars_distinct(vs: Seq<Variable>) -> bool {
    forall|i: int, j: int| 0 <= i < j < vs.len() ==> vs[i]@ != vs[j]@
}

/// Adds `v` to the set `vs` unless it is there already.
pub fn insert_var(vs: &mut Vec<Variable>, v: Variable)
    requires
        vars_distinct(old(vs)@),
    ensures
        vars_distinct(final(vs)@),
        var_set(final(vs)@) == var_set(old(vs)@).insert(v@),
{
    let ghost views = vs@.map_values(|v: Variable| v@);
    let mut i: usize = 0;
    while i < vs.len()
        invariant
            i <= vs@.len(),
            views == vs@.map_values(|v: Variable| v@),
            vs@ == old(vs)@,
            vars_distinct(old(vs)@),
            forall|j: int| 0 <= j < i ==> vs@[j]@ != v@,
        decreases vs@.len() - i,
    {
        if vs[i].same(&v) {
            assert(views[i as int] == v@);
            assert(var_set(vs@).insert(v@) =~= var_set(vs@));
            assert(vars_distinct(vs@));
            return;
        }
        i = i + 1;
    }
    assert(!views.contains(v@)) by {
        if views.contains(v@) {
            let j = choose|j: int| 0 <= j < views.len() && views[j] == v@;
            assert(vs@[j]@ == v@);
        }
    }
    let ghost vv = v@;
    let ghost before = vs@;
    vs.push(v);
    assert(vs@.map_values(|v: Variable| v@) =~= views.push(vv));
    assert forall|a: int, b: int| 0 <= a < b < vs@.len() implies vs@[a]@ != vs@[b]@ by {
        assert(vs@[a] == before[a]);
        if b < before.len() {
            assert(vs@[b] == before[b]);
        } else {
            assert(before[a]@ != vv);
        }
    }
    assert(vars_distinct(vs@));
    proof { views.lemma_push_to_set_commute(vv); }
}

/// The member that a reference names: the reference itself when the
/// dictionary has an entry for it, else the global `name`.
pub open spec fn referenced(reference: Option<u32>, keys: Seq<(AstNode, Seq<char>)>, name: Seq<char>,
    fallback: Seq<char>) -> MemberView
{
    match reference {
        Some(r) => if entry_of(keys, r) is Some { MemberView::Reference(r) } else { MemberView::Global(name) },
        None => MemberView::Global(fallback),
    }
}

/// The members of the variable that node `n` reads, and the ids of the index
/// expressions met on the way, in order.
pub open spec fn spec_find_members(n: AstNode, keys: Seq<(AstNode, Seq<char>)>) -> (Seq<MemberView>, Seq<u32>)
    decreases n, 1int, 0int,
{
    let reference = attr_u32_of(n.attributes@, "referencedDeclaration"@);
    let member_name = attr_str_or_empty(n.attributes@, "member_name"@);
    let value = attr_str_or_empty(n.attributes@, "value"@);
    if n.name@ == "VariableDeclaration"@ {
        (seq![MemberView::Reference(n.id)], seq![])
    } else if n.name@ == "Identifier"@ {
        (seq![referenced(reference, keys, value, member_name)], seq![])
    } else if n.name@ == "MemberAccess"@ {
        let kids = kids_members(n, n.children@.len() as int, keys);
        (seq![referenced(reference, keys, member_name, member_name)] + kids.0, kids.1)
    } else if n.name@ == "IndexAccess"@ {
        if n.children@.len() == 0 {
            (seq![], seq![])
        } else {
            let first = spec_find_members(n.children@[0], keys);
            if n.children@.len() >= 2 {
                (seq![MemberView::IndexAccess] + first.0, first.1.push(n.children@[1].id))
            } else {
                first
            }
        }
    } else {
        (seq![], seq![])
    }
}

/// The members of the first `k` children of `n`, one after the other.
pub open spec fn kids_members(n: AstNode, k: int, keys: Seq<(AstNode, Seq<char>)>) -> (Seq<MemberView>, Seq<u32>)
    decreases n, 0int, k,
{
    if k <= 0 || k > n.children@.len() {
        (seq![], seq![])
    } else {
        let prev = kids_members(n, k - 1, keys);
        let cur = spec_find_members(
            {
                proof {
                    assert(decreases_to!(n => n.children));
                    assert(decreases_to!(n.children => n.children@));
                    assert(decreases_to!(n.children@ => n.children@[k - 1]));
                }
                n.children@[k - 1]
            },
            keys,
        );
        (prev.0 + cur.0, prev.1 + cur.1)
    }
}

/// Some node within `n` has id `id`.
pub open spec fn id_within(n: AstNode, id: u32) -> bool {
    exists|x: AstNode| #[trigger] within(x, n) && x.id == id
}

/// Some variable declaration within `n` has id `id`.
pub open spec fn declared_within(n: AstNode, id: u32) -> bool {
    exists|d: AstNode| #[trigger] within(d, n) && d.id == id && d.name@ == "VariableDeclaration"@
}

/// The members `ms` and index expressions `ids` come from `n`: a reference
/// names an entry of the dictionary or a declaration within `n`, and each
/// index expression is a node within `n`.
pub open spec fn found_in(n: AstNode, keys: Seq<(AstNode, Seq<char>)>, ms: Seq<MemberView>, ids: Seq<u32>) -> bool {
    &&& forall|i: int| 0 <= i < ms.len() ==> (#[trigger] ms[i] matches MemberView::Reference(r) ==> entry_of(keys, r)
        is Some || declared_within(n, r))
    &&& forall|i: int| 0 <= i < ids.len() ==> id_within(n, #[trigger] ids[i])
}

proof fn lemma_found_in_concat(n: AstNode, keys: Seq<(AstNode, Seq<char>)>, m1: Seq<MemberView>, i1: Seq<u32>,
    m2: Seq<MemberView>, i2: Seq<u32>)
    requires
        found_in(n, keys, m1, i1),
        found_in(n, keys, m2, i2),
    ensures
        found_in(n, keys, m1 + m2, i1 + i2),
{
    assert forall|i: int| 0 <= i < (m1 + m2).len() implies (#[trigger] (m1 + m2)[i] matches MemberView::Reference(r)
        ==> entry_of(keys, r) is Some || declared_within(n, r)) by {
        if i < m1.len() {
            assert((m1 + m2)[i] == m1[i]);
        } else {
            assert((m1 + m2)[i] == m2[i - m1.len()]);
        }
    }
    assert forall|i: int| 0 <= i < (i1 + i2).len() implies id_within(n, #[trigger] (i1 + i2)[i]) by {
        if i < i1.len() {
            assert((i1 + i2)[i] == i1[i]);
        } else {
            assert((i1 + i2)[i] == i2[i - i1.len()]);
        }
    }
}

proof fn lemma_found_in_child(n: AstNode, k: int, keys: Seq<(AstNode, Seq<char>)>, ms: Seq<MemberView>, ids: Seq<u32>)
    requires
        0 <= k < n.children@.len(),
        found_in(n.children@[k], keys, ms, ids),
    ensures
        found_in(n, keys, ms, ids),
{
    let c = n.children@[k];
    assert(within(c, c));
    assert(within(c, n));
    assert forall|i: int| 0 <= i < ms.len() implies (#[trigger] ms[i] matches MemberView::Reference(r)
        ==> entry_of(keys, r) is Some || declared_within(n, r)) by {
        if let MemberView::Reference(r) = ms[i] {
            if entry_of(keys, r) is None {
                let d = choose|d: AstNode| #[trigger] within(d, c) && d.id == r && d.name@ == "VariableDeclaration"@;
                lemma_within_trans(d, c, n);
            }
        }
    }
    assert forall|i: int| 0 <= i < ids.len() implies id_within(n, #[trigger] ids[i]) by {
        let x = choose|x: AstNode| #[trigger] within(x, c) && x.id == ids[i];
        lemma_within_trans(x, c, n);
    }
}

/// What a variable is read into comes from the node it is read from: each
/// member that is a reference names a node that the dictionary holds, or a
/// declaration within the node; each index expression met is a node within it.
pub proof fn law_find_members(n: AstNode, keys: Seq<(AstNode, Seq<char>)>)
    ensures
        found_in(n, keys, spec_find_members(n, keys).0, spec_find_members(n, keys).1),
    decreases n, 1int, 0int,
{
    let reference = attr_u32_of(n.attributes@, "referencedDeclaration"@);
    let member_name = attr_str_or_empty(n.attributes@, "member_name"@);
    let value = attr_str_or_empty(n.attributes@, "value"@);
    let (ms, ids) = spec_find_members(n, keys);
    assert(within(n, n));
    if n.name@ == "VariableDeclaration"@ {
        assert(ms[0] == MemberView::Reference(n.id));
    } else if n.name@ == "Identifier"@ || n.name@ == "MemberAccess"@ {
        let head = if n.name@ == "Identifier"@ {
            referenced(reference, keys, value, member_name)
        } else {
            referenced(reference, keys, member_name, member_name)
        };
        assert(found_in(n, keys, seq![head], seq![]));
        if n.name@ == "MemberAccess"@ {
            lemma_kids_found_in(n, n.children@.len() as int, keys);
            let kids = kids_members(n, n.children@.len() as int, keys);
            lemma_found_in_concat(n, keys, seq![head], seq![], kids.0, kids.1);
            assert(seq![] + kids.1 =~= kids.1);
        }
    } else if n.name@ == "IndexAccess"@ && n.children@.len() > 0 {
        assert(decreases_to!(n => n.children));
        assert(decreases_to!(n.children => n.children@));
        assert(decreases_to!(n.children@ => n.children@[0]));
        law_find_members(n.children@[0], keys);
        let first = spec_find_members(n.children@[0], keys);
        lemma_found_in_child(n, 0, keys, first.0, first.1);
        if n.children@.len() >= 2 {
            let x = n.children@[1];
            assert(within(x, x));
            assert(within(x, n));
            lemma_found_in_concat(n, keys, seq![MemberView::IndexAccess], seq![], first.0, first.1);
            assert(seq![] + first.1 =~= first.1);
            assert(found_in(n, keys, seq![], seq![x.id]));
            lemma_found_in_concat(n, keys, seq![MemberView::IndexAccess] + first.0, first.1, seq![], seq![x.id]);
            assert(seq![MemberView::IndexAccess] + first.0 + seq![] =~= seq![MemberView::IndexAccess] + first.0);
            assert(first.1 + seq![x.id] =~= first.1.push(x.id));
        }
    }
}

proof fn lemma_kids_found_in(n: AstNode, k: int, keys: Seq<(AstNode, Seq<char>)>)
    ensures
        found_in(n, keys, kids_members(n, k, keys).0, kids_members(n, k, keys).1),
    decreases n, 0int, k,
{
    if !(k <= 0 || k > n.children@.len()) {
        lemma_kids_found_in(n, k - 1, keys);
        assert(decreases_to!(n => n.children));
        assert(decreases_to!(n.children => n.children@));
        assert(decreases_to!(n.children@ => n.children@[k - 1]));
        law_find_members(n.children@[k - 1], keys);
        let prev = kids_members(n, k - 1, keys);
        let cur = spec_find_members(n.children@[k - 1], keys);
        lemma_found_in_child(n, k - 1, keys, cur.0, cur.1);
        lemma_found_in_concat(n, keys, prev.0, prev.1, cur.0, cur.1);
    }
}

proof fn lemma_kids_members_last(n: AstNode, k: int, keys: Seq<(AstNode, Seq<char>)>)
    requires
        0 < k <= n.children@.len(),
    ensures
        spec_find_members(n.children@[k - 1], keys).0.is_suffix_of(kids_members(n, k, keys).0),
        spec_find_members(n.children@[k - 1], keys).1.is_suffix_of(kids_members(n, k, keys).1),
{
    let prev = kids_members(n, k - 1, keys);
    let cur = spec_find_members(n.children@[k - 1], keys);
    assert((prev.0 + cur.0).subrange(prev.0.len() as int, (prev.0 + cur.0).len() as int) =~= cur.0);
    assert((prev.1 + cur.1).subrange(prev.1.len() as int, (prev.1 + cur.1).len() as int) =~= cur.1);
}

/// A member access reads a part of the variable its base expression reads:
/// its members are the member it names followed by those of the base (its
/// last child), so they end with the base's members, are one longer, and the
/// two variables compare as `Partial`; the index expressions met are the
/// base's too. Where the base is a reference `s`, `s.a` is thus a part of `s`,
/// and `s.a` and `t.a` differ.
pub proof fn law_member_access_extends(n: AstNode, keys: Seq<(AstNode, Seq<char>)>)
    requires
        n.name@ == "MemberAccess"@,
        n.children@.len() > 0,
    ensures
        ({
            let base = spec_find_members(n.children@[n.children@.len() - 1], keys);
            let whole = spec_find_members(n, keys);
            &&& base.0.is_suffix_of(whole.0)
            &&& whole.0.len() >= base.0.len() + 1
            &&& compare_members(whole.0, base.0) == VariableComparison::Partial
            &&& base.1.is_suffix_of(whole.1)
        }),
        n.children@.len() == 1 ==> spec_find_members(n, keys).0.drop_first() == spec_find_members(n.children@[0], keys).0,
{
    reveal_strlit("MemberAccess");
    reveal_strlit("VariableDeclaration");
    reveal_strlit("Identifier");
    let k = n.children@.len() as int;
    lemma_kids_members_last(n, k, keys);
    let kids = kids_members(n, k, keys);
    let base = spec_find_members(n.children@[k - 1], keys);
    let whole = spec_find_members(n, keys);
    let head = seq![referenced(attr_u32_of(n.attributes@, "referencedDeclaration"@), keys,
        attr_str_or_empty(n.attributes@, "member_name"@), attr_str_or_empty(n.attributes@, "member_name"@))];
    assert(n.name@.len() != "VariableDeclaration"@.len());
    assert(n.name@.len() != "Identifier"@.len());
    assert(whole == (head + kids.0, kids.1));
    assert(kids.0.len() >= base.0.len());
    assert(whole.0.subrange(whole.0.len() - base.0.len(), whole.0.len() as int)
        =~= kids.0.subrange(kids.0.len() - base.0.len(), kids.0.len() as int));
    law_compare_members(whole.0, base.0);
    assert(whole.0 != base.0);
    if k == 1 {
        assert(kids_members(n, 0, keys).0 =~= Seq::<MemberView>::empty());
        assert(kids.0 =~= base.0);
        assert(whole.0.drop_first() =~= kids.0);
    }
}

/// An index access `b[e]` reads a part of the variable its base `b` reads:
/// its members are an index step followed by those of the base, so the two
/// compare as `Partial`; the index expressions met are the base's, then `e`.
/// A declaration reads itself, by its own id.
pub proof fn law_index_access_extends(n: AstNode, keys: Seq<(AstNode, Seq<char>)>)
    ensures
        n.name@ == "IndexAccess"@ && n.children@.len() >= 2 ==> {
            let base = spec_find_members(n.children@[0], keys);
            let whole = spec_find_members(n, keys);
            &&& whole.0 == seq![MemberView::IndexAccess] + base.0
            &&& compare_members(whole.0, base.0) == VariableComparison::Partial
            &&& whole.1 == base.1.push(n.children@[1].id)
        },
        n.name@ == "VariableDeclaration"@ ==> spec_find_members(n, keys).0 == seq![MemberView::Reference(n.id)],
{
    reveal_strlit("MemberAccess");
    reveal_strlit("VariableDeclaration");
    reveal_strlit("Identifier");
    reveal_strlit("IndexAccess");
    assert("MemberAccess"@.len() == 12);
    assert("VariableDeclaration"@.len() == 19);
    assert("Identifier"@.len() == 10);
    assert("IndexAccess"@.len() == 11);
    if n.name@ == "IndexAccess"@ && n.children@.len() >= 2 {
        let base = spec_find_members(n.children@[0], keys);
        let whole = spec_find_members(n, keys);
        law_compare_members(whole.0, base.0);
        assert(whole.0.subrange(1, whole.0.len() as int) =~= base.0);
        assert(whole.0 != base.0);
    }
}

/// An identifier reads one member: the declaration it refers to, where the
/// dictionary holds it; else the global of its name (`value`); with no
/// reference at all, the global of its `member_name`. It meets no index.
pub proof fn law_identifier(n: AstNode, keys: Seq<(AstNode, Seq<char>)>)
    requires
        n.name@ == "Identifier"@,
    ensures
        spec_find_members(n, keys).1.len() == 0,
        spec_find_members(n, keys).0.len() == 1,
        attr_u32_of(n.attributes@, "referencedDeclaration"@) matches Some(r) ==> spec_find_members(n, keys).0[0]
            == if entry_of(keys, r) is Some { MemberView::Reference(r) } else {
                MemberView::Global(attr_str_or_empty(n.attributes@, "value"@)) },
        attr_u32_of(n.attributes@, "referencedDeclaration"@) is None ==> spec_find_members(n, keys).0[0]
            == MemberView::Global(attr_str_or_empty(n.attributes@, "member_name"@)),
{
    reveal_strlit("VariableDeclaration");
    reveal_strlit("Identifier");
    assert("VariableDeclaration"@.len() == 19);
    assert("Identifier"@.len() == 10);
}

/// The names of the nodes that a variable is read from.
pub open spec fn variable_names() -> Seq<Seq<char>> {
    seq!["FunctionCall"@, "Identifier"@, "MemberAccess"@, "IndexAccess"@, "VariableDeclaration"@]
}

/// The nodes that `Variable::parse` reads: those named in `variable_names`, or
/// already visited.
pub open spec fn variable_test(visited: Set<u32>) -> NodeTest {
    |a: AstNode, p: Option<AstNode>| variable_names().contains(a.name@) || visited.contains(a.id)
}

/// The variables read from the first `k` nodes of `ws` (read against
/// `source`), the ids of their index expressions, and the ids of the nodes read.
pub open spec fn parse_walked(ws: Seq<AstNode>, k: int, keys: Seq<(AstNode, Seq<char>)>, visited: Set<u32>,
    source: Seq<char>) -> (Set<VarView>, Seq<u32>, Set<u32>)
    decreases k,
{
    if k <= 0 {
        (Set::empty(), seq![], Set::empty())
    } else {
        let (vs, ia, nv) = parse_walked(ws, k - 1, keys, visited, source);
        let w = ws[k - 1];
        if w.name@ != "FunctionCall"@ && !visited.contains(w.id) {
            let (ms, ids) = spec_find_members(w, keys);
            (if ms.len() > 0 { vs.insert((ms, text_of(w, source))) } else { vs }, ia + ids, nv.insert(w.id))
        } else {
            (vs, ia, nv)
        }
    }
}

/// What `Variable::parse` finds in `n` (read against `source`) with the nodes
/// `visited` left out: the variables, and the visited nodes after it. The
/// index expressions are looked up in the dictionary and parsed in turn, to a
/// depth of `fuel`.
pub open spec fn spec_parse(n: AstNode, keys: Seq<(AstNode, Seq<char>)>, visited: Set<u32>, source: Seq<char>,
    fuel: nat) -> (Set<VarView>, Set<u32>)
    decreases fuel, 1int, 0int,
{
    let ws = walk_seq(n, None, true, |a: AstNode, p: Option<AstNode>| false, variable_test(visited));
    let (vs, ia, nv) = parse_walked(ws, ws.len() as int, keys, visited, source);
    (vs.union(lookup_vars(ia, ia.len() as int, keys, fuel)), visited.union(nv))
}

proof fn lemma_parse_walked_new(ws: Seq<AstNode>, k: int, keys: Seq<(AstNode, Seq<char>)>, visited: Set<u32>,
    source: Seq<char>)
    requires
        k <= ws.len(),
    ensures
        forall|x: u32| #[trigger] parse_walked(ws, k, keys, visited, source).2.contains(x) ==> exists|j: int|
            0 <= j < k && (#[trigger] ws[j]).id == x && ws[j].name@ != "FunctionCall"@ && !visited.contains(x),
        forall|j: int| 0 <= j < k && (#[trigger] ws[j]).name@ != "FunctionCall"@ && !visited.contains(ws[j].id)
            ==> parse_walked(ws, k, keys, visited, source).2.contains(ws[j].id),
    decreases k,
{
    if k > 0 {
        lemma_parse_walked_new(ws, k - 1, keys, visited, source);
        let nv0 = parse_walked(ws, k - 1, keys, visited, source).2;
        let nv = parse_walked(ws, k, keys, visited, source).2;
        assert forall|x: u32| #[trigger] nv.contains(x) implies exists|j: int|
            0 <= j < k && (#[trigger] ws[j]).id == x && ws[j].name@ != "FunctionCall"@ && !visited.contains(x) by {
            if nv0.contains(x) {
                let j = choose|j: int| 0 <= j < k - 1 && (#[trigger] ws[j]).id == x && ws[j].name@ != "FunctionCall"@
                    && !visited.contains(x);
                assert(0 <= j < k);
            } else {
                assert(ws[k - 1].id == x);
            }
        }
    }
}

proof fn lemma_parse_walked_none(ws: Seq<AstNode>, k: int, keys: Seq<(AstNode, Seq<char>)>, visited: Set<u32>,
    source: Seq<char>)
    requires
        k <= ws.len(),
        forall|j: int| 0 <= j < k ==> (#[trigger] ws[j]).name@ == "FunctionCall"@ || visited.contains(ws[j].id),
    ensures
        parse_walked(ws, k, keys, visited, source) == (Set::<VarView>::empty(), Seq::<u32>::empty(), Set::<u32>::empty()),
    decreases k,
{
    if k > 0 {
        lemma_parse_walked_none(ws, k - 1, keys, visited, source);
    }
}

/// Nodes already visited, with all below them, are left out: a node that
/// `Variable::parse` is given as visited yields no variable; the visited nodes
/// only grow; and parsing again with the visited nodes after a first parse
/// yields nothing.
pub proof fn law_parse_visited(n: AstNode, keys: Seq<(AstNode, Seq<char>)>, visited: Set<u32>, source: Seq<char>,
    fuel: nat)
    ensures
        visited.subset_of(spec_parse(n, keys, visited, source, fuel).1),
        visited.contains(n.id) ==> spec_parse(n, keys, visited, source, fuel).0 == Set::<VarView>::empty(),
        spec_parse(n, keys, spec_parse(n, keys, visited, source, fuel).1, source, fuel).0 == Set::<VarView>::empty(),
{
    let ws1 = walk_seq(n, None, true, |a: AstNode, p: Option<AstNode>| false, variable_test(visited));
    if visited.contains(n.id) {
        assert(ws1 =~= seq![n]);
        lemma_parse_walked_none(ws1, ws1.len() as int, keys, visited, source);
        assert(Set::<VarView>::empty().union(Set::<VarView>::empty()) =~= Set::<VarView>::empty());
    }
    let (vs, ia, nv) = parse_walked(ws1, ws1.len() as int, keys, visited, source);
    let v2 = visited.union(nv);
    let ws2 = walk_seq(n, None, true, |a: AstNode, p: Option<AstNode>| false, variable_test(v2));
    let pr1 = |a: AstNode| variable_names().contains(a.name@) || visited.contains(a.id);
    lemma_parse_walked_new(ws1, ws1.len() as int, keys, visited, source);
    lemma_walk_mono(n, None, |a: AstNode, p: Option<AstNode>| false, variable_test(visited), variable_test(v2), pr1);
    lemma_walk_holds(n, None, true, |a: AstNode, p: Option<AstNode>| false, variable_test(v2),
        |a: AstNode| variable_names().contains(a.name@) || v2.contains(a.id));
    assert forall|j: int| 0 <= j < ws2.len() implies (#[trigger] ws2[j]).name@ == "FunctionCall"@
        || v2.contains(ws2[j].id) by {
        if ws2[j].name@ != "FunctionCall"@ && !v2.contains(ws2[j].id) {
            assert(pr1(ws2[j]));
            let x = choose|x: int| 0 <= x < ws1.len() && ws1[x] == ws2[j];
            assert(ws1[x].name@ != "FunctionCall"@ && !visited.contains(ws1[x].id));
            assert(nv.contains(ws1[x].id));
        }
    }
    lemma_parse_walked_none(ws2, ws2.len() as int, keys, v2, source);
    assert(Set::<VarView>::empty().union(Set::<VarView>::empty()) =~= Set::<VarView>::empty());
}

/// The variables of the entries of the first `k` of `ids`, each parsed anew.
pub open spec fn lookup_vars(ids: Seq<u32>, k: int, keys: Seq<(AstNode, Seq<char>)>, fuel: nat) -> Set<VarView>
    decreases fuel, 0int, k,
{
    if k <= 0 || fuel == 0 {
        Set::empty()
    } else {
        lookup_vars(ids, k - 1, keys, fuel).union(match entry_of(keys, ids[k - 1]) {
            Some((m, src)) => spec_parse(m, keys, Set::empty(), src, (fuel - 1) as nat).0,
            None => Set::empty(),
        })
    }
}

/// The set of a list that starts with `x`.
pub proof fn lemma_var_set_prepend(x: Variable, s: Seq<Variable>)
    ensures
        var_set(seq![x] + s) == var_set(s).insert(x@),
{
    let m1 = (seq![x] + s).map_values(|v: Variable| v@);
    let m2 = s.map_values(|v: Variable| v@);
    assert forall|y: VarView| #[trigger] m1.contains(y) <==> m2.to_set().insert(x@).contains(y) by {
        if m1.contains(y) {
            let j = choose|j: int| 0 <= j < m1.len() && #[trigger] m1[j] == y;
            if j > 0 {
                assert(m2[j - 1] == y);
            }
        }
        if m2.contains(y) {
            let j = choose|j: int| 0 <= j < m2.len() && #[trigger] m2[j] == y;
            assert(m1[j + 1] == y);
        }
        if y == x@ {
            assert(m1[0] == y);
        }
    }
    assert(var_set(seq![x] + s) =~= var_set(s).insert(x@));
}

/// Adds the variables of `src` to the set `dst`.
pub fn union_vars(dst: &mut Vec<Variable>, src: Vec<Variable>)
    requires
        vars_distinct(old(dst)@),
    ensures
        vars_distinct(final(dst)@),
        var_set(final(dst)@) == var_set(old(dst)@).union(var_set(src@)),
{
    let mut src = src;
    let ghost all = src@;
    while src.len() > 0
        invariant
            vars_distinct(dst@),
            src@.len() <= all.len(),
            src@ == all.take(src@.len() as int),
            var_set(dst@) == var_set(old(dst)@).union(var_set(all.skip(src@.len() as int))),
        decreases src@.len(),
    {
        let ghost m = src@.len() as int;
        let v = src.pop().unwrap();
        assert(v == all[m - 1]);
        let ghost vv = v@;
        insert_var(dst, v);
        proof {
            assert(all.skip(m - 1) =~= seq![all[m - 1]] + all.skip(m));
            lemma_var_set_prepend(all[m - 1], all.skip(m));
            assert(src@ =~= all.take(m - 1));
            assert(var_set(dst@) =~= var_set(old(dst)@).union(var_set(all.skip(m - 1))));
        }
    }
    assert(all.skip(0) =~= all);
}

impl Variable {
    /// Find members of a variable
    ///
    /// A member is reference to place where it is declared , global index, index access of array
    fn find_members(walker: &Walker, dict: &Dictionary, index_acceses: &mut Vec<u32>) -> (r: Vec<Member>)
        requires
            walker.tree_wf(),
            dict.wf(),
        ensures
            member_views(r@) == spec_find_members(walker.ast(), dict.keys()).0,
            final(index_acceses)@ == old(index_acceses)@ + spec_find_members(walker.ast(), dict.keys()).1,
        decreases *walker.node.ast,
    {
        let ghost n = walker.ast();
        let ghost keys = dict.keys();
        proof {
            Walker::lemma_wf_fields(*walker);
            reveal_strlit("VariableDeclaration");
            reveal_strlit("Identifier");
            reveal_strlit("MemberAccess");
            reveal_strlit("IndexAccess");
            reveal_strlit("referencedDeclaration");
            reveal_strlit("member_name");
            reveal_strlit("value");
        }
        let reference = attr_u32(walker.node.attributes, "referencedDeclaration");
        let member_name = attr_str_or_default(walker.node.attributes, "member_name");
        let value = attr_str_or_default(walker.node.attributes, "value");
        if str_eq(walker.node.name, "VariableDeclaration") {
            vec![Member::Reference(walker.node.id)]
        } else if str_eq(walker.node.name, "Identifier") {
            proof { assert("VariableDeclaration"@.len() != "Identifier"@.len()); }
            let m = match reference {
                Some(r) => if dict.walker_at(r).is_some() { Member::Reference(r) } else { Member::Global(value) },
                None => Member::Global(member_name),
            };
            let r = vec![m];
            assert(member_views(r@) =~= seq![m@]);
            r
        } else if str_eq(walker.node.name, "MemberAccess") {
            proof {
                assert("VariableDeclaration"@.len() != "MemberAccess"@.len());
                assert("Identifier"@.len() != "MemberAccess"@.len());
            }
            let m = match reference {
                Some(r) => if dict.walker_at(r).is_some() { Member::Reference(r) } else { Member::Global(member_name) },
                None => Member::Global(member_name),
            };
            let mut ret = vec![m];
            assert(member_views(ret@) =~= seq![m@] + kids_members(n, 0, keys).0);
            assert(index_acceses@ =~= old(index_acceses)@ + kids_members(n, 0, keys).1);
            let mut i: usize = 0;
            while i < walker.node.children.len()
                invariant
                    walker.tree_wf(),
                    dict.wf(),
                    n == walker.ast(),
                    keys == dict.keys(),
                    walker.node.children@ == n.children@,
                    i <= n.children@.len(),
                    member_views(ret@) == seq![m@] + kids_members(n, i as int, keys).0,
                    index_acceses@ == old(index_acceses)@ + kids_members(n, i as int, keys).1,
                decreases n.children@.len() - i,
            {
                proof {
                    lemma_tree_ok_child(n, walker.source@, i as int);
                    assert(decreases_to!(*walker.node.ast => walker.node.ast.children));
                    assert(decreases_to!(walker.node.ast.children => walker.node.ast.children@));
                    assert(decreases_to!(walker.node.ast.children@ => walker.node.ast.children@[i as int]));
                }
                let child = Walker::new(&walker.node.children[i], walker.source);
                let mut sub = Self::find_members(&child, dict, index_acceses);
                let ghost before = ret@;
                let ghost sv = sub@;
                ret.append(&mut sub);
                assert(member_views(ret@) =~= member_views(before) + member_views(sv));
                assert(seq![m@] + kids_members(n, i + 1, keys).0 =~= seq![m@] + kids_members(n, i as int, keys).0
                    + spec_find_members(n.children@[i as int], keys).0);
                assert(old(index_acceses)@ + kids_members(n, i + 1, keys).1 =~= old(index_acceses)@
                    + kids_members(n, i as int, keys).1 + spec_find_members(n.children@[i as int], keys).1);
                i = i + 1;
            }
            ret
        } else if str_eq(walker.node.name, "IndexAccess") {
            proof {
                assert("VariableDeclaration"@.len() != "IndexAccess"@.len());
                assert("Identifier"@.len() != "IndexAccess"@.len());
                assert("MemberAccess"@.len() != "IndexAccess"@.len());
            }
            if walker.node.children.len() == 0 {
                assert(index_acceses@ =~= old(index_acceses)@ + Seq::<u32>::empty());
                return Vec::new();
            }
            proof {
                lemma_tree_ok_child(n, walker.source@, 0);
                assert(decreases_to!(*walker.node.ast => walker.node.ast.children));
                assert(decreases_to!(walker.node.ast.children => walker.node.ast.children@));
                assert(decreases_to!(walker.node.ast.children@ => walker.node.ast.children@[0]));
            }
            let first = Walker::new(&walker.node.children[0], walker.source);
            let mut ret = Self::find_members(&first, dict, index_acceses);
            if walker.node.children.len() >= 2 {
                let ghost before = ret@;
                index_acceses.push(walker.node.children[1].id);
                ret.insert(0, Member::IndexAccess);
                assert(member_views(ret@) =~= seq![MemberView::IndexAccess] + member_views(before));
            }
            ret
        } else {
            Vec::new()
        }
    }

    fn parse_one(walker: &Walker, dict: &Dictionary, index_acceses: &mut Vec<u32>) -> (r: Option<Variable>)
        requires
            walker.tree_wf(),
            dict.wf(),
        ensures
            final(index_acceses)@ == old(index_acceses)@ + spec_find_members(walker.ast(), dict.keys()).1,
            match r {
                Some(v) => spec_find_members(walker.ast(), dict.keys()).0.len() > 0
                    && v@ == (spec_find_members(walker.ast(), dict.keys()).0, text_of(walker.ast(), walker.source@)),
                None => spec_find_members(walker.ast(), dict.keys()).0.len() == 0,
            },
    {
        proof { Walker::lemma_wf_fields(*walker); }
        let members = Self::find_members(walker, dict, index_acceses);
        if members.len() > 0 {
            Some(Variable { members, source: owned(walker.node.source) })
        } else {
            None
        }
    }

    /// Find all variables of the walker, we need the dictionary to identify `Member::Global`
    ///
    /// Ignore node and its childs if it is listed in visited_nodes. The index
    /// expressions met are looked up in the dictionary and parsed in turn, to
    /// a depth of the number of entries of the dictionary.
    pub fn parse(walker: &Walker, dict: &Dictionary, visited_nodes: &mut HashSet<u32>) -> (r: Vec<Variable>)
        requires
            walker.tree_wf(),
            dict.wf(),
        ensures
            vars_distinct(r@),
            var_set(r@) == spec_parse(walker.ast(), dict.keys(), old(visited_nodes)@, walker.source@,
                dict.entries@.len() as nat).0,
            final(visited_nodes)@ == spec_parse(walker.ast(), dict.keys(), old(visited_nodes)@, walker.source@,
                dict.entries@.len() as nat).1,
    {
        Self::parse_within(walker, dict, visited_nodes, dict.entries.len())
    }

    fn parse_within(walker: &Walker, dict: &Dictionary, visited_nodes: &mut HashSet<u32>, fuel: usize) -> (r: Vec<Variable>)
        requires
            walker.tree_wf(),
            dict.wf(),
        ensures
            vars_distinct(r@),
            var_set(r@) == spec_parse(walker.ast(), dict.keys(), old(visited_nodes)@, walker.source@, fuel as nat).0,
            final(visited_nodes)@ == spec_parse(walker.ast(), dict.keys(), old(visited_nodes)@, walker.source@,
                fuel as nat).1,
        decreases fuel,
    {
        let ghost n = walker.ast();
        let ghost keys = dict.keys();
        let ghost visited = visited_nodes@;
        let ghost source = walker.source@;
        let fi = Query::NamesOrIds(vec!["FunctionCall", "Identifier", "MemberAccess", "IndexAccess", "VariableDeclaration"],
            visited_nodes);
        let ig = Query::Never;
        proof {
            reveal_strlit("FunctionCall");
            reveal_strlit("Identifier");
            reveal_strlit("MemberAccess");
            reveal_strlit("IndexAccess");
            reveal_strlit("VariableDeclaration");
            let names = fi->NamesOrIds_0@;
            assert forall|a: AstNode, p: Option<AstNode>| #[trigger] test_of(fi)(a, p) == variable_test(visited)(a, p) by {
                if variable_names().contains(a.name@) {
                    let k = choose|k: int| 0 <= k < variable_names().len() && variable_names()[k] == a.name@;
                    assert(names[k]@ == a.name@);
                }
                if name_in(names, a.name@) {
                    let k = choose|k: int| 0 <= k < names.len() && (#[trigger] names[k])@ == a.name@;
                    assert(variable_names()[k] == a.name@);
                }
            }
            assert(test_of(fi) =~= variable_test(visited));
            assert(test_of(ig) =~= |a: AstNode, p: Option<AstNode>| false);
        }
        let walkers = walker.walk(true, &ig, &fi);
        let ghost ws = walk_seq(n, None, true, |a: AstNode, p: Option<AstNode>| false, variable_test(visited));
        let mut ret: Vec<Variable> = Vec::new();
        let mut index_acceses: Vec<u32> = Vec::new();
        let mut new_visited: Vec<u32> = Vec::new();
        let mut i: usize = 0;
        while i < walkers.len()
            invariant
                dict.wf(),
                keys == dict.keys(),
                visited == visited_nodes@,
                source == walker.source@,
                walkers@.len() == ws.len(),
                forall|x: int| 0 <= x < walkers@.len() ==> (#[trigger] walkers@[x]).reads(ws[x], walker.source),
                forall|x: int| 0 <= x < walkers@.len() ==> (#[trigger] walkers@[x]).tree_wf(),
                i <= walkers@.len(),
                vars_distinct(ret@),
                ({
                    let (vs, ia, nv) = parse_walked(ws, i as int, keys, visited, source);
                    &&& var_set(ret@) == vs
                    &&& index_acceses@ == ia
                    &&& new_visited@.to_set() == nv
                }),
            decreases walkers@.len() - i,
        {
            let w = walkers[i];
            proof {
                Walker::lemma_wf_fields(w);
                assert(walkers@[i as int].reads(ws[i as int], walker.source));
                assert(w.ast() == ws[i as int]);
                assert(w.source@ == source);
            }
            let ghost prev = parse_walked(ws, i as int, keys, visited, source);
            if !str_eq(w.node.name, "FunctionCall") && !visited_nodes.contains(&w.node.id) {
                let ghost fm = spec_find_members(ws[i as int], keys);
                match Self::parse_one(&w, dict, &mut index_acceses) {
                    Some(v) => {
                        assert(v@ == (fm.0, text_of(ws[i as int], source)));
                        insert_var(&mut ret, v);
                    },
                    None => {},
                }
                let ghost nv0 = new_visited@;
                new_visited.push(w.node.id);
                proof { nv0.lemma_push_to_set_commute(w.node.id); }
                assert(var_set(ret@) == parse_walked(ws, i + 1, keys, visited, source).0);
                assert(index_acceses@ == parse_walked(ws, i + 1, keys, visited, source).1);
                assert(new_visited@.to_set() == parse_walked(ws, i + 1, keys, visited, source).2);
            } else {
                assert(parse_walked(ws, i + 1, keys, visited, source) == prev);
            }
            i = i + 1;
        }
        let ghost vs0 = var_set(ret@);
        let ghost ia = index_acceses@;
        let mut k: usize = 0;
        while k < index_acceses.len()
            invariant
                dict.wf(),
                keys == dict.keys(),
                index_acceses@ == ia,
                k <= ia.len(),
                vars_distinct(ret@),
                var_set(ret@) == vs0.union(lookup_vars(ia, k as int, keys, fuel as nat)),
            decreases ia.len() - k,
        {
            if fuel > 0 {
                match dict.walker_at(index_acceses[k]) {
                    Some(found) => {
                        let mut fresh: HashSet<u32> = HashSet::new();
                        assert(fresh@ =~= Set::<u32>::empty());
                        let sub = Self::parse_within(found, dict, &mut fresh, fuel - 1);
                        proof {
                            assert(key_of(*found) == (found.ast(), found.source@));
                        }
                        union_vars(&mut ret, sub);
                        assert(var_set(ret@) =~= vs0.union(lookup_vars(ia, k + 1, keys, fuel as nat)));
                    },
                    None => {
                        assert(var_set(ret@) =~= vs0.union(lookup_vars(ia, k + 1, keys, fuel as nat)));
                    },
                }
            } else {
                assert(lookup_vars(ia, k + 1, keys, fuel as nat) =~= Set::empty());
                assert(lookup_vars(ia, k as int, keys, fuel as nat) =~= Set::empty());
            }
            k = k + 1;
        }
        let ghost nv = new_visited@;
        let mut j: usize = 0;
        while j < new_visited.len()
            invariant
                j <= nv.len(),
                new_visited@ == nv,
                visited_nodes@ == visited.union(nv.take(j as int).to_set()),
            decreases nv.len() - j,
        {
            visited_nodes.insert(new_visited[j]);
            proof {
                assert(nv.take(j + 1) =~= nv.take(j as int).push(nv[j as int]));
                nv.take(j as int).lemma_push_to_set_commute(nv[j as int]);
                assert(visited_nodes@ =~= visited.union(nv.take(j + 1).to_set()));
            }
            j = j + 1;
        }
        assert(nv.take(nv.len() as int) =~= nv);
        ret
    }
}

} // verus!
