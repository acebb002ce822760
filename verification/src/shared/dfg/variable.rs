//! A variable with its kind, and the links between the variables of two nodes.
use vstd::prelude::*;
use crate::text::{str_eq, copy_string, chars_of};
use crate::shared::dfg::common::{Member, MemberView, member_views, VariableComparison};
use crate::shared::dfg::link::{DataLink, DLinkView, dlink_set, dlinks_distinct, dlink_insert};

verus! {

/// A variable: its members, its source, its kind (the normalized type) and
/// the source of the variable it was flattened from.
///
/// Reading the variables of a node into this form (flattening a variable into
/// the variables it is made of) is not part of this library; the variables
/// of the core (`shared::variable`) are read by `shared::variable::Variable::parse`.
#[derive(Debug)]
pub struct Variable {
    pub members: Vec<Member>,
    pub source: String,
    pub kind: String,
    pub unflat: String,
}

/// A variable as plain values: members, source, kind, unflat.
pub type DVarView = (Seq<MemberView>, Seq<char>, Seq<char>, Seq<char>);

impl View for Variable {
    type V = DVarView;

    open spec fn view(&self) -> DVarView {
        (member_views(self.members@), self.source@, self.kind@, self.unflat@)
    }
}

/// How the members `a` relate to the members `b`: `Equal` when they are the
/// same, `Partial` when one starts with the other, else `NotEqual`.
pub open spec fn prefix_compare(a: Seq<MemberView>, b: Seq<MemberView>) -> VariableComparison {
    if a == b {
        VariableComparison::Equal
    } else if b.len() > a.len() && b.take(a.len() as int) == a {
        VariableComparison::Partial
    } else if a.len() > b.len() && a.take(b.len() as int) == b {
        VariableComparison::Partial
    } else {
        VariableComparison::NotEqual
    }
}

/// How data flow variables compare: each is `Equal` to itself; two are
/// `Equal` exactly when their members are the same; and the comparison is
/// symmetric, one variable holding the other (`Partial`) either way round.
pub proof fn law_prefix_compare(a: Seq<MemberView>, b: Seq<MemberView>)
    ensures
        prefix_compare(a, a) == VariableComparison::Equal,
        prefix_compare(a, b) == VariableComparison::Equal <==> a == b,
        prefix_compare(a, b) == prefix_compare(b, a),
{
}

/// Read from the last member backwards, `a` and `b` agree on index accesses
/// up to a member other than an index access, from position `j` on.
pub open spec fn same_property_from(a: Seq<MemberView>, b: Seq<MemberView>, j: int) -> bool
    decreases a.len() - j,
{
    if j < 0 || j >= a.len() || j >= b.len() {
        false
    } else {
        let x = a[a.len() - 1 - j];
        let y = b[b.len() - 1 - j];
        if x != y {
            false
        } else if x is IndexAccess {
            same_property_from(a, b, j + 1)
        } else {
            true
        }
    }
}

/// The source of `v` less the unflat `ku` and that of `w` less `uu` are the same.
pub open spec fn unflat_match(v: DVarView, ku: Seq<char>, w: DVarView, uu: Seq<char>) -> bool {
    &&& ku.is_prefix_of(v.1)
    &&& uu.is_prefix_of(w.1)
    &&& v.1.skip(ku.len() as int) == w.1.skip(uu.len() as int)
}

/// `v` and `w` are linked through the unflats of some variable of `ks` and some of `us`.
pub open spec fn linked(ks: Seq<DVarView>, us: Seq<DVarView>, v: DVarView, w: DVarView) -> bool {
    exists|i: int, j: int| 0 <= i < ks.len() && 0 <= j < us.len() && #[trigger] unflat_match(v, ks[i].3, w, us[j].3)
}

/// The links between the killed variables `ks` at `kid` and the used `us` at `uid`.
pub open spec fn links_between(ks: Seq<DVarView>, kid: u32, us: Seq<DVarView>, uid: u32) -> Set<DLinkView> {
    Set::new(|l: DLinkView| {
        &&& l.0.1 == kid
        &&& l.1.1 == uid
        &&& ks.contains(l.0.0)
        &&& us.contains(l.1.0)
        &&& linked(ks, us, l.0.0, l.1.0)
    })
}

/// The links between `ks` at `kid` and `us` at `uid` among the pairs before
/// (`a`, `b`): every pair of a killed variable before the `a`-th, and of the
/// `a`-th with a used variable before the `b`-th.
pub open spec fn links_upto(ks: Seq<DVarView>, kid: u32, us: Seq<DVarView>, uid: u32, a: int, b: int) -> Set<DLinkView> {
    Set::new(|l: DLinkView| {
        &&& l.0.1 == kid
        &&& l.1.1 == uid
        &&& linked(ks, us, l.0.0, l.1.0)
        &&& exists|x: int, y: int| #![trigger ks[x], us[y]] 0 <= x < ks.len() && 0 <= y < us.len()
            && (x < a || (x == a && y < b)) && ks[x] == l.0.0 && us[y] == l.1.0
    })
}

pub proof fn lemma_links_upto_step(ks: Seq<DVarView>, kid: u32, us: Seq<DVarView>, uid: u32, a: int, b: int)
    requires
        0 <= a < ks.len(),
        0 <= b < us.len(),
    ensures
        links_upto(ks, kid, us, uid, a, b + 1) == if linked(ks, us, ks[a], us[b]) {
            links_upto(ks, kid, us, uid, a, b).insert(((ks[a], kid), (us[b], uid)))
        } else {
            links_upto(ks, kid, us, uid, a, b)
        },
{
    let next = if linked(ks, us, ks[a], us[b]) {
        links_upto(ks, kid, us, uid, a, b).insert(((ks[a], kid), (us[b], uid)))
    } else {
        links_upto(ks, kid, us, uid, a, b)
    };
    assert forall|l: DLinkView| links_upto(ks, kid, us, uid, a, b + 1).contains(l) <==> next.contains(l) by {
        if links_upto(ks, kid, us, uid, a, b + 1).contains(l) {
            let (x, y) = choose|x: int, y: int| #![trigger ks[x], us[y]] 0 <= x < ks.len() && 0 <= y < us.len()
                && (x < a || (x == a && y < b + 1)) && ks[x] == l.0.0 && us[y] == l.1.0;
            if !(x < a || (x == a && y < b)) {
                assert(l == ((ks[a], kid), (us[b], uid)));
            }
        }
        if links_upto(ks, kid, us, uid, a, b).contains(l) {
            let (x, y) = choose|x: int, y: int| #![trigger ks[x], us[y]] 0 <= x < ks.len() && 0 <= y < us.len()
                && (x < a || (x == a && y < b)) && ks[x] == l.0.0 && us[y] == l.1.0;
            assert(ks[x] == l.0.0 && us[y] == l.1.0);
        }
        if l == ((ks[a], kid), (us[b], uid)) && linked(ks, us, ks[a], us[b]) {
            assert(ks[a] == l.0.0 && us[b] == l.1.0);
        }
    }
    assert(links_upto(ks, kid, us, uid, a, b + 1) =~= next);
}

pub proof fn lemma_links_upto_row(ks: Seq<DVarView>, kid: u32, us: Seq<DVarView>, uid: u32, a: int)
    requires
        0 <= a < ks.len(),
    ensures
        links_upto(ks, kid, us, uid, a, us.len() as int) == links_upto(ks, kid, us, uid, a + 1, 0),
{
    assert forall|l: DLinkView| links_upto(ks, kid, us, uid, a, us.len() as int).contains(l)
        <==> links_upto(ks, kid, us, uid, a + 1, 0).contains(l) by {
        if links_upto(ks, kid, us, uid, a, us.len() as int).contains(l) {
            let (x, y) = choose|x: int, y: int| #![trigger ks[x], us[y]] 0 <= x < ks.len() && 0 <= y < us.len()
                && (x < a || (x == a && y < us.len())) && ks[x] == l.0.0 && us[y] == l.1.0;
            assert(ks[x] == l.0.0 && us[y] == l.1.0);
        }
        if links_upto(ks, kid, us, uid, a + 1, 0).contains(l) {
            let (x, y) = choose|x: int, y: int| #![trigger ks[x], us[y]] 0 <= x < ks.len() && 0 <= y < us.len()
                && (x < a + 1 || (x == a + 1 && y < 0)) && ks[x] == l.0.0 && us[y] == l.1.0;
            assert(ks[x] == l.0.0 && us[y] == l.1.0);
        }
    }
    assert(links_upto(ks, kid, us, uid, a, us.len() as int) =~= links_upto(ks, kid, us, uid, a + 1, 0));
}

pub proof fn lemma_links_upto_all(ks: Seq<DVarView>, kid: u32, us: Seq<DVarView>, uid: u32)
    ensures
        links_upto(ks, kid, us, uid, ks.len() as int, 0) == links_between(ks, kid, us, uid),
{
    assert forall|l: DLinkView| links_upto(ks, kid, us, uid, ks.len() as int, 0).contains(l)
        <==> links_between(ks, kid, us, uid).contains(l) by {
        if links_upto(ks, kid, us, uid, ks.len() as int, 0).contains(l) {
            let (x, y) = choose|x: int, y: int| #![trigger ks[x], us[y]] 0 <= x < ks.len() && 0 <= y < us.len()
                && (x < ks.len() || (x == ks.len() && y < 0)) && ks[x] == l.0.0 && us[y] == l.1.0;
            assert(ks.contains(l.0.0) && us.contains(l.1.0));
        }
        if links_between(ks, kid, us, uid).contains(l) {
            let x = choose|x: int| 0 <= x < ks.len() && ks[x] == l.0.0;
            let y = choose|y: int| 0 <= y < us.len() && us[y] == l.1.0;
            assert(ks[x] == l.0.0 && us[y] == l.1.0);
        }
    }
    assert(links_upto(ks, kid, us, uid, ks.len() as int, 0) =~= links_between(ks, kid, us, uid));
}

/// The views of a list of variables.
pub open spec fn dvar_views(vs: Seq<Variable>) -> Seq<DVarView> {
    vs.map_values(|v: Variable| v@)
}

/// `p` is a prefix of `s`.
fn is_prefix(p: &Vec<char>, s: &Vec<char>) -> (r: bool)
    ensures
        r == p@.is_prefix_of(s@),
{
    if p.len() > s.len() {
        return false;
    }
    let mut i: usize = 0;
    while i < p.len()
        invariant
            p@.len() <= s@.len(),
            i <= p@.len(),
            forall|j: int| 0 <= j < i ==> p@[j] == s@[j],
        decreases p@.len() - i,
    {
        if p[i] != s[i] {
            return false;
        }
        i = i + 1;
    }
    assert(s@.subrange(0, p@.len() as int) =~= p@);
    true
}

/// `a` from `i` on and `b` from `j` on are the same.
fn same_tail(a: &Vec<char>, i: usize, b: &Vec<char>, j: usize) -> (r: bool)
    requires
        i <= a@.len(),
        j <= b@.len(),
    ensures
        r == (a@.skip(i as int) == b@.skip(j as int)),
{
    if a.len() - i != b.len() - j {
        assert(a@.skip(i as int).len() != b@.skip(j as int).len());
        return false;
    }
    let alen = a.len();
    let blen = b.len();
    let mut k: usize = 0;
    while k < a.len() - i
        invariant
            alen == a@.len(),
            blen == b@.len(),
            i <= a@.len(),
            j <= b@.len(),
            a@.len() - i == b@.len() - j,
            k <= a@.len() - i,
            forall|x: int| 0 <= x < k ==> #[trigger] a@.skip(i as int)[x] == b@.skip(j as int)[x],
        decreases a@.len() - i - k,
    {
        assert(a@.skip(i as int)[k as int] == a@[i + k]);
        assert(b@.skip(j as int)[k as int] == b@[j + k]);
        if a[i + k] != b[j + k] {
            return false;
        }
        k = k + 1;
    }
    assert(a@.skip(i as int) =~= b@.skip(j as int));
    true
}

impl Variable {
    pub fn new(members: Vec<Member>, source: String, kind: String, unflat: String) -> (r: Self)
        ensures
            r.members@ == members@,
            r.source@ == source@,
            r.kind@ == kind@,
            r.unflat@ == unflat@,
    {
        Variable { members, source, kind, unflat }
    }

    pub fn get_members(&self) -> (r: &Vec<Member>)
        ensures
            r@ == self.members@,
    {
        &self.members
    }

    pub fn get_source(&self) -> (r: &str)
        ensures
            r@ == self.source@,
    {
        self.source.as_str()
    }

    pub fn get_kind(&self) -> (r: &str)
        ensures
            r@ == self.kind@,
    {
        self.kind.as_str()
    }

    pub fn get_unflat(&self) -> (r: &str)
        ensures
            r@ == self.unflat@,
    {
        self.unflat.as_str()
    }

    /// A copy of the variable.
    pub fn copy(&self) -> (r: Variable)
        ensures
            r@ == self@,
    {
        let mut members: Vec<Member> = Vec::new();
        let mut i: usize = 0;
        while i < self.members.len()
            invariant
                i <= self.members@.len(),
                member_views(members@) == member_views(self.members@).take(i as int),
            decreases self.members@.len() - i,
        {
            let ghost before = members@;
            let m = self.members[i].copy();
            members.push(m);
            assert(member_views(members@) =~= member_views(before).push(self.members@[i as int]@));
            assert(member_views(self.members@).take(i + 1) =~= member_views(self.members@).take(i as int).push(self.members@[i as int]@));
            i = i + 1;
        }
        assert(member_views(self.members@).take(self.members@.len() as int) =~= member_views(self.members@));
        Variable {
            members,
            source: copy_string(&self.source),
            kind: copy_string(&self.kind),
            unflat: copy_string(&self.unflat),
        }
    }

    /// The two variables are the same in every field.
    pub fn same(&self, other: &Variable) -> (r: bool)
        ensures
            r == (self@ == other@),
    {
        if self.members.len() != other.members.len() {
            return false;
        }
        let mut i: usize = 0;
        while i < self.members.len()
            invariant
                self.members@.len() == other.members@.len(),
                i <= self.members@.len(),
                forall|j: int| 0 <= j < i ==> self.members@[j]@ == other.members@[j]@,
            decreases self.members@.len() - i,
        {
            if !self.members[i].same(&other.members[i]) {
                assert(member_views(self.members@)[i as int] != member_views(other.members@)[i as int]);
                return false;
            }
            i = i + 1;
        }
        assert(member_views(self.members@) =~= member_views(other.members@));
        let e1 = str_eq(self.source.as_str(), other.source.as_str());
        let e2 = str_eq(self.kind.as_str(), other.kind.as_str());
        let e3 = str_eq(self.unflat.as_str(), other.unflat.as_str());
        assert((self@ == other@) == (e1 && e2 && e3));
        e1 && e2 && e3
    }

    /// The two variables are of the same kind and, read from their last
    /// member backwards, agree on their index accesses up to a member other
    /// than an index access.
    pub fn equal_property(&self, other: &Variable) -> (r: bool)
        ensures
            r == (self.kind@ == other.kind@ && same_property_from(self@.0, other@.0, 0)),
    {
        if !str_eq(self.kind.as_str(), other.kind.as_str()) {
            return false;
        }
        let ghost a = self@.0;
        let ghost b = other@.0;
        let n = self.members.len();
        let m = other.members.len();
        let mut idx: usize = 0;
        while idx < n && idx < m
            invariant
                a == self@.0,
                b == other@.0,
                n == a.len(),
                m == b.len(),
                same_property_from(a, b, 0) == same_property_from(a, b, idx as int),
                self.kind@ == other.kind@,
            decreases n - idx,
        {
            let member = &self.members[n - 1 - idx];
            let other_member = &other.members[m - 1 - idx];
            assert(a[a.len() - 1 - idx] == member@);
            assert(b[b.len() - 1 - idx] == other_member@);
            if member.same(other_member) {
                match member {
                    Member::IndexAccess => {
                        idx = idx + 1;
                    },
                    _ => {
                        return true;
                    },
                }
            } else {
                return false;
            }
        }
        false
    }

    /// Use this to find the relationship between two variables
    /// - `Equal`: if all members fields are the same
    /// - `Partial`: if the members of one start with those of the other
    pub fn contains(&self, other: &Variable) -> (r: VariableComparison)
        ensures
            r == prefix_compare(self@.0, other@.0),
    {
        let ghost a = self@.0;
        let ghost b = other@.0;
        let short = if self.members.len() < other.members.len() { self.members.len() } else { other.members.len() };
        let mut i: usize = 0;
        while i < short
            invariant
                short <= self.members@.len(),
                short <= other.members@.len(),
                short == self.members@.len() || short == other.members@.len(),
                i <= short,
                forall|j: int| 0 <= j < i ==> a[j] == b[j],
                a == self@.0,
                b == other@.0,
            decreases short - i,
        {
            if !self.members[i].same(&other.members[i]) {
                proof {
                    assert(a[i as int] != b[i as int]);
                    if b.len() > a.len() {
                        assert(b.take(a.len() as int)[i as int] != a[i as int]);
                    }
                    if a.len() > b.len() {
                        assert(a.take(b.len() as int)[i as int] != b[i as int]);
                    }
                }
                return VariableComparison::NotEqual;
            }
            i = i + 1;
        }
        if self.members.len() == other.members.len() {
            assert(a =~= b);
            VariableComparison::Equal
        } else {
            proof {
                if b.len() > a.len() {
                    assert(b.take(a.len() as int) =~= a);
                } else {
                    assert(a.take(b.len() as int) =~= b);
                }
            }
            VariableComparison::Partial
        }
    }

    /// The links between the variables `kill_variables_tup.0`, killed at
    /// node `kill_variables_tup.1`, and those used at `use_variables_tup.1`: a
    /// killed and a used variable are linked when, less the unflat of some
    /// killed variable and of some used one, their sources are the same.
    pub fn links(kill_variables_tup: (Vec<Variable>, u32), use_variables_tup: (Vec<Variable>, u32)) -> (r: Vec<DataLink>)
        ensures
            dlinks_distinct(r@),
            dlink_set(r@) == links_between(dvar_views(kill_variables_tup.0@), kill_variables_tup.1,
                dvar_views(use_variables_tup.0@), use_variables_tup.1),
    {
        let (kill_variables, kill_id) = kill_variables_tup;
        let (use_variables, use_id) = use_variables_tup;
        let ghost ks = dvar_views(kill_variables@);
        let ghost us = dvar_views(use_variables@);
        let mut kill_chars: Vec<(Vec<char>, Vec<char>)> = Vec::new();
        let mut i: usize = 0;
        while i < kill_variables.len()
            invariant
                i <= kill_variables@.len(),
                kill_chars@.len() == i,
                forall|x: int| 0 <= x < i ==> (#[trigger] kill_chars@[x]).0@ == kill_variables@[x].source@
                    && kill_chars@[x].1@ == kill_variables@[x].unflat@,
            decreases kill_variables@.len() - i,
        {
            kill_chars.push((chars_of(kill_variables[i].source.as_str()), chars_of(kill_variables[i].unflat.as_str())));
            i = i + 1;
        }
        let mut use_chars: Vec<(Vec<char>, Vec<char>)> = Vec::new();
        let mut j: usize = 0;
        while j < use_variables.len()
            invariant
                j <= use_variables@.len(),
                use_chars@.len() == j,
                forall|x: int| 0 <= x < j ==> (#[trigger] use_chars@[x]).0@ == use_variables@[x].source@
                    && use_chars@[x].1@ == use_variables@[x].unflat@,
            decreases use_variables@.len() - j,
        {
            use_chars.push((chars_of(use_variables[j].source.as_str()), chars_of(use_variables[j].unflat.as_str())));
            j = j + 1;
        }
        let mut out: Vec<DataLink> = Vec::new();
        assert(dlink_set(out@) =~= links_upto(ks, kill_id, us, use_id, 0, 0));
        let mut a: usize = 0;
        while a < kill_variables.len()
            invariant
                ks == dvar_views(kill_variables@),
                us == dvar_views(use_variables@),
                kill_chars@.len() == kill_variables@.len(),
                use_chars@.len() == use_variables@.len(),
                forall|x: int| 0 <= x < kill_chars@.len() ==> (#[trigger] kill_chars@[x]).0@ == ks[x].1
                    && kill_chars@[x].1@ == ks[x].3,
                forall|x: int| 0 <= x < use_chars@.len() ==> (#[trigger] use_chars@[x]).0@ == us[x].1
                    && use_chars@[x].1@ == us[x].3,
                a <= kill_variables@.len(),
                dlinks_distinct(out@),
                dlink_set(out@) == links_upto(ks, kill_id, us, use_id, a as int, 0),
            decreases kill_variables@.len() - a,
        {
            let mut b: usize = 0;
            while b < use_variables.len()
                invariant
                    ks == dvar_views(kill_variables@),
                    us == dvar_views(use_variables@),
                    kill_chars@.len() == kill_variables@.len(),
                    use_chars@.len() == use_variables@.len(),
                    forall|x: int| 0 <= x < kill_chars@.len() ==> (#[trigger] kill_chars@[x]).0@ == ks[x].1
                        && kill_chars@[x].1@ == ks[x].3,
                    forall|x: int| 0 <= x < use_chars@.len() ==> (#[trigger] use_chars@[x]).0@ == us[x].1
                        && use_chars@[x].1@ == us[x].3,
                    a < kill_variables@.len(),
                    b <= use_variables@.len(),
                    dlinks_distinct(out@),
                    dlink_set(out@) == links_upto(ks, kill_id, us, use_id, a as int, b as int),
                decreases use_variables@.len() - b,
            {
                let found = Self::unflats_link(&kill_chars, &use_chars, &kill_chars[a].0, &use_chars[b].0);
                let ghost kv = ks[a as int];
                let ghost uv = us[b as int];
                proof {
                    assert(ks[a as int] == kill_variables@[a as int]@);
                    assert(us[b as int] == use_variables@[b as int]@);
                    if found {
                        let (x, y) = choose|x: int, y: int| 0 <= x < kill_chars@.len() && 0 <= y < use_chars@.len() && {
                            let ku = (#[trigger] kill_chars@[x]).1@;
                            let uu = (#[trigger] use_chars@[y]).1@;
                            ku.is_prefix_of(kill_chars@[a as int].0@) && uu.is_prefix_of(use_chars@[b as int].0@)
                                && kill_chars@[a as int].0@.skip(ku.len() as int) == use_chars@[b as int].0@.skip(uu.len() as int)
                        };
                        assert(unflat_match(kv, ks[x].3, uv, us[y].3));
                    } else {
                        assert forall|x: int, y: int| 0 <= x < ks.len() && 0 <= y < us.len()
                            implies !#[trigger] unflat_match(kv, ks[x].3, uv, us[y].3) by {
                            assert(kill_chars@[x].1@ == ks[x].3);
                            assert(use_chars@[y].1@ == us[y].3);
                        }
                    }
                    assert(found == linked(ks, us, kv, uv));
                    lemma_links_upto_step(ks, kill_id, us, use_id, a as int, b as int);
                }
                if found {
                    let link = DataLink::new((kill_variables[a].copy(), kill_id), (use_variables[b].copy(), use_id));
                    dlink_insert(&mut out, link);
                }
                b = b + 1;
            }
            proof { lemma_links_upto_row(ks, kill_id, us, use_id, a as int); }
            a = a + 1;
        }
        proof { lemma_links_upto_all(ks, kill_id, us, use_id); }
        out
    }

    /// Whether some unflat of `kills` and some of `uses` make `kill_source`
    /// and `use_source` the same: see `unflat_match`.
    fn unflats_link(kills: &Vec<(Vec<char>, Vec<char>)>, uses: &Vec<(Vec<char>, Vec<char>)>, kill_source: &Vec<char>,
        use_source: &Vec<char>) -> (r: bool)
        ensures
            r == exists|i: int, j: int| 0 <= i < kills@.len() && 0 <= j < uses@.len() && {
                let ku = (#[trigger] kills@[i]).1@;
                let uu = (#[trigger] uses@[j]).1@;
                ku.is_prefix_of(kill_source@) && uu.is_prefix_of(use_source@)
                    && kill_source@.skip(ku.len() as int) == use_source@.skip(uu.len() as int)
            },
    {
        let mut i: usize = 0;
        while i < kills.len()
            invariant
                i <= kills@.len(),
                forall|x: int, y: int| 0 <= x < i && 0 <= y < uses@.len() ==> !{
                    let ku = (#[trigger] kills@[x]).1@;
                    let uu = (#[trigger] uses@[y]).1@;
                    ku.is_prefix_of(kill_source@) && uu.is_prefix_of(use_source@)
                        && kill_source@.skip(ku.len() as int) == use_source@.skip(uu.len() as int)
                },
            decreases kills@.len() - i,
        {
            let ku = &kills[i].1;
            if is_prefix(ku, kill_source) {
                let mut j: usize = 0;
                while j < uses.len()
                    invariant
                        i < kills@.len(),
                        ku@ == kills@[i as int].1@,
                        ku@.is_prefix_of(kill_source@),
                        j <= uses@.len(),
                        forall|x: int, y: int| 0 <= x < i && 0 <= y < uses@.len() ==> !{
                            let ku = (#[trigger] kills@[x]).1@;
                            let uu = (#[trigger] uses@[y]).1@;
                            ku.is_prefix_of(kill_source@) && uu.is_prefix_of(use_source@)
                                && kill_source@.skip(ku.len() as int) == use_source@.skip(uu.len() as int)
                        },
                        forall|y: int| 0 <= y < j ==> !{
                            let uu = (#[trigger] uses@[y]).1@;
                            uu.is_prefix_of(use_source@)
                                && kill_source@.skip(ku@.len() as int) == use_source@.skip(uu.len() as int)
                        },
                    decreases uses@.len() - j,
                {
                    let uu = &uses[j].1;
                    if is_prefix(uu, use_source) {
                        if same_tail(kill_source, ku.len(), use_source, uu.len()) {
                            assert(kills@[i as int].1@ == ku@);
                            assert(uses@[j as int].1@ == uu@);
                            return true;
                        }
                    }
                    j = j + 1;
                }
            }
            i = i + 1;
        }
        false
    }
}

} // verus!
