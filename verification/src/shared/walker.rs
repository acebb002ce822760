//! A pointer into the AST, with the source text that the node covers.
use std::collections::HashSet;
use vstd::prelude::*;
use vstd::utf8::{decode_utf8, encode_utf8, is_char_boundary, encode_utf8_valid_utf8, valid_utf8_split, is_char_boundary_iff_not_is_continuation_byte, is_char_boundary_start_end_of_seq};
use vstd::string::StringSliceAdditionalSpecFns;
use crate::ast::{AstNode, AttrValue, attr_str_or_empty, attr_str_or_default};
use crate::text::{split_on, spec_parse_u32, split_char, parse_u32, str_eq};

verus! {

broadcast use {vstd::utf8::encode_utf8_decode_utf8, vstd::std_specs::hash::group_hash_axioms};

/// AST node
#[derive(Clone, Copy)]
pub struct Node<'a> {
    pub id: u32,
    pub name: &'a str,
    /// The part of the source that the node covers
    pub source: &'a str,
    pub attributes: &'a Vec<(String, AttrValue)>,
    pub children: &'a Vec<AstNode>,
    /// The AST node itself
    pub ast: &'a AstNode,
}

/// A pointer to a node of AST tree
#[derive(Clone, Copy)]
pub struct Walker<'a> {
    pub node: Node<'a>,
    /// The whole source file
    pub source: &'a str,
}

/// Start and length of the node's source range, when its `src` is well formed:
/// at least two `:`-separated parts, each of them a `u32`.
pub open spec fn src_range(src: Seq<char>) -> Option<(int, int)> {
    let parts = split_on(src, ':');
    if parts.len() >= 2 && forall|i: int| 0 <= i < parts.len() ==> (#[trigger] spec_parse_u32(parts[i])) is Some {
        let from = spec_parse_u32(parts[0])->0 as int;
        let len = spec_parse_u32(parts[1])->0 as int;
        Some((from, from + len))
    } else {
        None
    }
}

/// Start of the node's source range.
pub open spec fn range_start(src: Seq<char>) -> int {
    match src_range(src) {
        Some((from, _)) => from,
        None => 0,
    }
}

/// End of the node's source range.
pub open spec fn range_end(src: Seq<char>) -> int {
    match src_range(src) {
        Some((_, to)) => to,
        None => 0,
    }
}

/// The node can be read against `source`: its position parses and lies on
/// character boundaries inside the source.
pub open spec fn node_ok(n: AstNode, source: Seq<char>) -> bool {
    match src_range(n.src@) {
        Some((from, to)) => {
            &&& to <= encode_utf8(source).len()
            &&& to <= usize::MAX
            &&& is_char_boundary(encode_utf8(source), from)
            &&& is_char_boundary(encode_utf8(source), to)
        },
        None => false,
    }
}

/// The source text that node `n` covers.
pub open spec fn text_of(n: AstNode, source: Seq<char>) -> Seq<char> {
    decode_utf8(encode_utf8(source).subrange(range_start(n.src@), range_end(n.src@)))
}

/// Every node of the tree can be read against `source`.
pub open spec fn tree_ok(n: AstNode, source: Seq<char>) -> bool
    decreases n,
{
    &&& node_ok(n, source)
    &&& forall|i: int| #![trigger n.children@[i]] 0 <= i < n.children@.len() ==> tree_ok(n.children@[i], source)
}

/// Whether node `n` can be read against `source`: see `node_ok`.
pub fn node_fits(n: &AstNode, source: &str) -> (r: bool)
    ensures
        r == node_ok(*n, source@),
{
    let parts = split_char(n.src.as_str(), ':');
    let ghost ps = split_on(n.src@, ':');
    if parts.len() < 2 {
        return false;
    }
    let mut nums: Vec<u32> = Vec::new();
    let mut i: usize = 0;
    while i < parts.len()
        invariant
            ps == split_on(n.src@, ':'),
            parts@.len() == ps.len(),
            forall|k: int| 0 <= k < parts@.len() ==> #[trigger] parts@[k]@ == ps[k],
            i <= parts@.len(),
            nums@.len() == i,
            forall|k: int| 0 <= k < i ==> spec_parse_u32(#[trigger] ps[k]) == Some(nums@[k]),
        decreases parts@.len() - i,
    {
        match parse_u32(parts[i].as_str()) {
            Some(v) => nums.push(v),
            None => {
                assert(spec_parse_u32(ps[i as int]) is None);
                return false;
            },
        }
        i = i + 1;
    }
    assert(spec_parse_u32(ps[0]) == Some(nums@[0]));
    assert(spec_parse_u32(ps[1]) == Some(nums@[1]));
    let from = nums[0] as usize;
    let len = nums[1] as usize;
    let to = match from.checked_add(len) {
        Some(t) => t,
        None => {
            return false;
        },
    };
    proof {
        encode_utf8_valid_utf8(source@);
        assert(is_char_boundary(encode_utf8(source@), to as int) ==> to <= encode_utf8(source@).len());
    }
    source.is_char_boundary(from) && source.is_char_boundary(to)
}

/// Whether every node of the tree of `n` can be read against `source`: see `tree_ok`.
pub fn tree_fits(n: &AstNode, source: &str) -> (r: bool)
    ensures
        r == tree_ok(*n, source@),
    decreases *n,
{
    if !node_fits(n, source) {
        return false;
    }
    let mut k: usize = 0;
    while k < n.children.len()
        invariant
            node_ok(*n, source@),
            k <= n.children@.len(),
            forall|j: int| #![trigger n.children@[j]] 0 <= j < k ==> tree_ok(n.children@[j], source@),
        decreases n.children@.len() - k,
    {
        proof {
            assert(decreases_to!(*n => n.children));
            assert(decreases_to!(n.children => n.children@));
            assert(decreases_to!(n.children@ => n.children@[k as int]));
        }
        if !tree_fits(&n.children[k], source) {
            return false;
        }
        k = k + 1;
    }
    true
}

pub proof fn lemma_tree_ok_child(n: AstNode, source: Seq<char>, i: int)
    requires
        tree_ok(n, source),
        0 <= i < n.children@.len(),
    ensures
        tree_ok(n.children@[i], source),
{
    reveal_with_fuel(tree_ok, 2);
    assert(n.children@[i] == n.children@[i]);
}

impl<'a> Walker<'a> {
    /// The AST node this walker points at.
    pub open spec fn ast(self) -> AstNode {
        *self.node.ast
    }

    /// The walker is the reading of its AST node against its source.
    pub closed spec fn wf(self) -> bool {
        &&& node_ok(*self.node.ast, self.source@)
        &&& self.node.id == self.node.ast.id
        &&& self.node.name@ == self.node.ast.name@
        &&& self.node.attributes == &self.node.ast.attributes
        &&& self.node.children == &self.node.ast.children
        &&& self.node.source@ == decode_utf8(
            self.source.spec_bytes().subrange(range_start(self.node.ast.src@), range_end(self.node.ast.src@)),
        )
    }

    /// `self` is the walker that `Walker::new(ast, source)` gives.
    pub open spec fn reads(self, ast: AstNode, source: &str) -> bool {
        &&& self.wf()
        &&& self.ast() == ast
        &&& self.source == source
    }

    pub broadcast proof fn lemma_wf_fields(self)
        requires
            #[trigger] self.wf(),
        ensures
            self.node.id == self.ast().id,
            self.node.name@ == self.ast().name@,
            self.node.attributes@ == self.ast().attributes@,
            self.node.children@ == self.ast().children@,
            node_ok(self.ast(), self.source@),
            self.node.source@ == text_of(self.ast(), self.source@),
    {
    }

    pub fn new(value: &'a AstNode, source: &'a str) -> (r: Walker<'a>)
        requires
            node_ok(*value, source@),
        ensures
            r.reads(*value, source),
    {
        let parts = split_char(value.src.as_str(), ':');
        let ghost range = src_range(value.src@);
        assert(spec_parse_u32(split_on(value.src@, ':')[0]) is Some);
        assert(spec_parse_u32(split_on(value.src@, ':')[1]) is Some);
        let from = parse_u32(parts[0].as_str()).unwrap() as usize;
        let len = parse_u32(parts[1].as_str()).unwrap() as usize;
        assert(from + len <= source.spec_bytes().len());
        let to = from + len;
        let (head, _) = source.split_at(to);
        proof {
            let bytes = source.spec_bytes();
            let prefix = bytes.subrange(0, to as int);
            assert(head.spec_bytes() =~= prefix);
            encode_utf8_valid_utf8(source@);
            valid_utf8_split(bytes, to as int);
            if from < to {
                is_char_boundary_iff_not_is_continuation_byte(bytes, from as int);
                is_char_boundary_iff_not_is_continuation_byte(prefix, from as int);
            } else {
                is_char_boundary_start_end_of_seq(prefix);
            }
        }
        let (_, piece) = head.split_at(from);
        proof {
            assert(piece.spec_bytes() =~= source.spec_bytes().subrange(from as int, to as int));
        }
        let node = Node {
            id: value.id,
            name: value.name.as_str(),
            source: piece,
            attributes: &value.attributes,
            children: &value.children,
            ast: value,
        };
        Walker { node, source }
    }
}


/// A test on a node during a walk, given the node and (for the nodes below the
/// start of the walk) its parent.
pub enum Query<'q> {
    /// Holds of every node
    Always,
    /// Holds of no node
    Never,
    /// The node's name is one of these
    Names(Vec<&'q str>),
    /// The node's name is one of the first list, or its `operator` attribute one of the second
    NamesOrOperators(Vec<&'q str>, Vec<&'q str>),
    /// A `VariableDeclarationStatement`, or a `VariableDeclaration` that is not
    /// the direct child of one
    Declarations,
    /// The node's name is one of these, or its id is in the set
    NamesOrIds(Vec<&'q str>, &'q HashSet<u32>),
    /// The node's name is one of the first list, its `operator` attribute one
    /// of the second, or its id is in the set
    NamesOperatorsOrIds(Vec<&'q str>, Vec<&'q str>, &'q HashSet<u32>),
}

/// `name` is one of `names`.
pub open spec fn name_in(names: Seq<&str>, name: Seq<char>) -> bool {
    exists|i: int| 0 <= i < names.len() && (#[trigger] names[i])@ == name
}

/// Checks whether `name` is one of `names`.
pub fn name_is_one_of(names: &Vec<&str>, name: &str) -> (r: bool)
    ensures
        r == name_in(names@, name@),
{
    let mut i: usize = 0;
    while i < names.len()
        invariant
            i <= names.len(),
            forall|k: int| 0 <= k < i ==> (#[trigger] names@[k])@ != name@,
        decreases names.len() - i,
    {
        if str_eq(names[i], name) {
            assert(names@[i as int]@ == name@);
            return true;
        }
        i = i + 1;
    }
    false
}

impl<'q> Query<'q> {
    pub open spec fn spec_holds(&self, n: AstNode, parent: Option<AstNode>) -> bool {
        match self {
            Query::Always => true,
            Query::Never => false,
            Query::Names(names) => name_in(names@, n.name@),
            Query::NamesOrOperators(names, ops) => {
                name_in(names@, n.name@) || name_in(ops@, attr_str_or_empty(n.attributes@, "operator"@))
            },
            Query::Declarations => {
                ||| n.name@ == "VariableDeclarationStatement"@
                ||| n.name@ == "VariableDeclaration"@ && !(parent matches Some(p)
                    && p.name@ == "VariableDeclarationStatement"@)
            },
            Query::NamesOrIds(names, ids) => name_in(names@, n.name@) || ids@.contains(n.id),
            Query::NamesOperatorsOrIds(names, ops, ids) => {
                ||| name_in(names@, n.name@)
                ||| name_in(ops@, attr_str_or_empty(n.attributes@, "operator"@))
                ||| ids@.contains(n.id)
            },
        }
    }

    /// Whether the query holds of `w`, whose parent in the walk is `parent`.
    pub fn holds(&self, w: &Walker, parent: Option<&Walker>) -> (r: bool)
        requires
            w.wf(),
            parent matches Some(p) ==> p.wf(),
        ensures
            r == self.spec_holds(w.ast(), match parent {
                Some(p) => Some(p.ast()),
                None => None,
            }),
    {
        proof {
            reveal_strlit("operator");
            reveal_strlit("VariableDeclarationStatement");
            reveal_strlit("VariableDeclaration");
        }
        match self {
            Query::Always => true,
            Query::Never => false,
            Query::Names(names) => name_is_one_of(names, w.node.name),
            Query::NamesOrOperators(names, ops) => {
                if name_is_one_of(names, w.node.name) {
                    true
                } else {
                    let op = attr_str_or_default(w.node.attributes, "operator");
                    name_is_one_of(ops, op.as_str())
                }
            },
            Query::Declarations => {
                if str_eq(w.node.name, "VariableDeclarationStatement") {
                    true
                } else if str_eq(w.node.name, "VariableDeclaration") {
                    match parent {
                        Some(p) => !str_eq(p.node.name, "VariableDeclarationStatement"),
                        None => true,
                    }
                } else {
                    false
                }
            },
            Query::NamesOrIds(names, ids) => {
                proof { Walker::lemma_wf_fields(*w); }
                name_is_one_of(names, w.node.name) || ids.contains(&w.node.id)
            },
            Query::NamesOperatorsOrIds(names, ops, ids) => {
                proof { Walker::lemma_wf_fields(*w); }
                if name_is_one_of(names, w.node.name) {
                    true
                } else {
                    let op = attr_str_or_default(w.node.attributes, "operator");
                    name_is_one_of(ops, op.as_str()) || ids.contains(&w.node.id)
                }
            },
        }
    }
}

/// A test on a node, given its parent inside the walk.
pub type NodeTest = spec_fn(AstNode, Option<AstNode>) -> bool;

/// The test that a query stands for.
pub open spec fn test_of(q: Query) -> NodeTest {
    |n: AstNode, p: Option<AstNode>| q.spec_holds(n, p)
}

/// The nodes that `Walker::walk` gives back, starting at `n` whose parent
/// (inside the walk) is `parent`: the nodes on which `fi` holds, children before
/// parents and siblings left to right. Below a node on which `ig` holds the
/// walk does not go, nor (when `bf` is set) below a node on which `fi` holds.
pub open spec fn walk_seq(n: AstNode, parent: Option<AstNode>, bf: bool, ig: NodeTest, fi: NodeTest) -> Seq<AstNode>
    decreases n, n.children@.len() + 1,
{
    let expand = !ig(n, parent) && !(fi(n, parent) && bf);
    let below = if expand { walk_kids(n, n.children@.len() as int, bf, ig, fi) } else { Seq::empty() };
    if fi(n, parent) { below.push(n) } else { below }
}

/// The walk of the first `k` children of `n`, one after the other.
pub open spec fn walk_kids(n: AstNode, k: int, bf: bool, ig: NodeTest, fi: NodeTest) -> Seq<AstNode>
    decreases n, k,
{
    if k <= 0 || k > n.children@.len() {
        Seq::empty()
    } else {
        walk_kids(n, k - 1, bf, ig, fi) + walk_seq(n.children@[k - 1], Some(n), bf, ig, fi)
    }
}

/// `a` is `n` or a node below it.
pub open spec fn within(a: AstNode, n: AstNode) -> bool
    decreases n,
{
    a == n || exists|i: int| #![trigger n.children@[i]] 0 <= i < n.children@.len() && within(a, n.children@[i])
}

/// The nodes of a walk lie within its start.
pub proof fn lemma_walk_within(n: AstNode, parent: Option<AstNode>, bf: bool, ig: NodeTest, fi: NodeTest)
    ensures
        forall|x: int| 0 <= x < walk_seq(n, parent, bf, ig, fi).len() ==> within(#[trigger] walk_seq(n, parent, bf, ig, fi)[x], n),
    decreases n, n.children@.len() + 1,
{
    lemma_walk_kids_within(n, n.children@.len() as int, bf, ig, fi);
    let expand = !ig(n, parent) && !(fi(n, parent) && bf);
    let below = if expand { walk_kids(n, n.children@.len() as int, bf, ig, fi) } else { Seq::empty() };
    assert forall|x: int| 0 <= x < walk_seq(n, parent, bf, ig, fi).len() implies within(#[trigger] walk_seq(n, parent, bf, ig, fi)[x], n) by {
        if x < below.len() {
            assert(walk_seq(n, parent, bf, ig, fi)[x] == below[x]);
        }
    }
}

pub proof fn lemma_walk_kids_within(n: AstNode, k: int, bf: bool, ig: NodeTest, fi: NodeTest)
    ensures
        forall|x: int| 0 <= x < walk_kids(n, k, bf, ig, fi).len() ==> within(#[trigger] walk_kids(n, k, bf, ig, fi)[x], n),
    decreases n, k,
{
    if k > 0 && k <= n.children@.len() {
        let c = n.children@[k - 1];
        lemma_walk_kids_within(n, k - 1, bf, ig, fi);
        lemma_walk_within(c, Some(n), bf, ig, fi);
        let a = walk_kids(n, k - 1, bf, ig, fi);
        let b = walk_seq(c, Some(n), bf, ig, fi);
        assert forall|x: int| 0 <= x < (a + b).len() implies within(#[trigger] (a + b)[x], n) by {
            if x < a.len() {
                assert((a + b)[x] == a[x]);
            } else {
                assert((a + b)[x] == b[x - a.len()]);
                let y = b[x - a.len()];
                assert(within(y, c));
                assert(within(y, n));
            }
        }
    }
}

/// Each node of a walk passes `pr`, where every node that `fi` finds passes it.
pub proof fn lemma_walk_holds(n: AstNode, parent: Option<AstNode>, bf: bool, ig: NodeTest, fi: NodeTest,
    pr: spec_fn(AstNode) -> bool)
    requires
        forall|a: AstNode, p: Option<AstNode>| #[trigger] fi(a, p) ==> pr(a),
    ensures
        forall|x: int| 0 <= x < walk_seq(n, parent, bf, ig, fi).len() ==> pr(#[trigger] walk_seq(n, parent, bf, ig, fi)[x]),
    decreases n, n.children@.len() + 1,
{
    lemma_walk_kids_holds(n, n.children@.len() as int, bf, ig, fi, pr);
    let expand = !ig(n, parent) && !(fi(n, parent) && bf);
    let below = if expand { walk_kids(n, n.children@.len() as int, bf, ig, fi) } else { Seq::empty() };
    assert forall|x: int| 0 <= x < walk_seq(n, parent, bf, ig, fi).len() implies pr(#[trigger] walk_seq(n, parent, bf, ig, fi)[x]) by {
        if x < below.len() {
            assert(walk_seq(n, parent, bf, ig, fi)[x] == below[x]);
        } else {
            assert(fi(n, parent));
        }
    }
}

pub proof fn lemma_walk_kids_holds(n: AstNode, k: int, bf: bool, ig: NodeTest, fi: NodeTest, pr: spec_fn(AstNode) -> bool)
    requires
        forall|a: AstNode, p: Option<AstNode>| #[trigger] fi(a, p) ==> pr(a),
    ensures
        forall|x: int| 0 <= x < walk_kids(n, k, bf, ig, fi).len() ==> pr(#[trigger] walk_kids(n, k, bf, ig, fi)[x]),
    decreases n, k,
{
    if k > 0 && k <= n.children@.len() {
        let c = n.children@[k - 1];
        lemma_walk_kids_holds(n, k - 1, bf, ig, fi, pr);
        lemma_walk_holds(c, Some(n), bf, ig, fi, pr);
        let a = walk_kids(n, k - 1, bf, ig, fi);
        let b = walk_seq(c, Some(n), bf, ig, fi);
        assert forall|x: int| 0 <= x < (a + b).len() implies pr(#[trigger] (a + b)[x]) by {
            if x < a.len() {
                assert((a + b)[x] == a[x]);
            } else {
                assert((a + b)[x] == b[x - a.len()]);
            }
        }
    }
}

/// With `bf` set, a walk that finds more nodes (`fi2` holds wherever `fi1`
/// does, and `fi1` looks at the node alone, as `pr1`) still meets every node
/// that `fi1` would find: each node of the larger walk that passes `pr1` lies
/// in the smaller one.
pub proof fn lemma_walk_mono(n: AstNode, parent: Option<AstNode>, ig: NodeTest, fi1: NodeTest, fi2: NodeTest,
    pr1: spec_fn(AstNode) -> bool)
    requires
        forall|a: AstNode, p: Option<AstNode>| #[trigger] fi1(a, p) == pr1(a),
        forall|a: AstNode, p: Option<AstNode>| #[trigger] fi1(a, p) ==> fi2(a, p),
    ensures
        forall|x: int| 0 <= x < walk_seq(n, parent, true, ig, fi2).len() && pr1(#[trigger] walk_seq(n, parent, true, ig, fi2)[x])
            ==> walk_seq(n, parent, true, ig, fi1).contains(walk_seq(n, parent, true, ig, fi2)[x]),
    decreases n, n.children@.len() + 1,
{
    let ws1 = walk_seq(n, parent, true, ig, fi1);
    let ws2 = walk_seq(n, parent, true, ig, fi2);
    if fi2(n, parent) {
        assert(ws2 =~= seq![n]);
        assert forall|x: int| 0 <= x < ws2.len() && pr1(#[trigger] ws2[x]) implies ws1.contains(ws2[x]) by {
            assert(fi1(n, parent));
            assert(ws1 =~= seq![n]);
            assert(ws1[0] == n);
        }
    } else {
        assert(!fi1(n, parent));
        lemma_walk_kids_mono(n, n.children@.len() as int, ig, fi1, fi2, pr1);
        if ig(n, parent) {
            assert(ws2 =~= Seq::<AstNode>::empty());
        } else {
            assert(ws1 == walk_kids(n, n.children@.len() as int, true, ig, fi1));
            assert(ws2 == walk_kids(n, n.children@.len() as int, true, ig, fi2));
        }
    }
}

pub proof fn lemma_walk_kids_mono(n: AstNode, k: int, ig: NodeTest, fi1: NodeTest, fi2: NodeTest,
    pr1: spec_fn(AstNode) -> bool)
    requires
        forall|a: AstNode, p: Option<AstNode>| #[trigger] fi1(a, p) == pr1(a),
        forall|a: AstNode, p: Option<AstNode>| #[trigger] fi1(a, p) ==> fi2(a, p),
    ensures
        forall|x: int| 0 <= x < walk_kids(n, k, true, ig, fi2).len() && pr1(#[trigger] walk_kids(n, k, true, ig, fi2)[x])
            ==> walk_kids(n, k, true, ig, fi1).contains(walk_kids(n, k, true, ig, fi2)[x]),
    decreases n, k,
{
    if k > 0 && k <= n.children@.len() {
        let c = n.children@[k - 1];
        lemma_walk_kids_mono(n, k - 1, ig, fi1, fi2, pr1);
        lemma_walk_mono(c, Some(n), ig, fi1, fi2, pr1);
        let a1 = walk_kids(n, k - 1, true, ig, fi1);
        let b1 = walk_seq(c, Some(n), true, ig, fi1);
        let a2 = walk_kids(n, k - 1, true, ig, fi2);
        let b2 = walk_seq(c, Some(n), true, ig, fi2);
        assert forall|x: int| 0 <= x < (a2 + b2).len() && pr1(#[trigger] (a2 + b2)[x]) implies (a1 + b1).contains((a2 + b2)[x]) by {
            if x < a2.len() {
                assert((a2 + b2)[x] == a2[x]);
                let j = choose|j: int| 0 <= j < a1.len() && a1[j] == a2[x];
                assert((a1 + b1)[j] == a1[j]);
            } else {
                assert((a2 + b2)[x] == b2[x - a2.len()]);
                let j = choose|j: int| 0 <= j < b1.len() && b1[j] == b2[x - a2.len()];
                assert((a1 + b1)[a1.len() + j] == b1[j]);
            }
        }
    }
}

/// A node within a node within `n` is within `n`.
pub proof fn lemma_within_trans(a: AstNode, b: AstNode, n: AstNode)
    requires
        within(a, b),
        within(b, n),
    ensures
        within(a, n),
    decreases n,
{
    if b != n {
        let i = choose|i: int| #![trigger n.children@[i]] 0 <= i < n.children@.len() && within(b, n.children@[i]);
        lemma_within_trans(a, b, n.children@[i]);
    }
}

/// A node within `n` is `n` or strictly below it.
pub proof fn lemma_within_decreases(a: AstNode, n: AstNode)
    requires
        within(a, n),
    ensures
        a == n || decreases_to!(n => a),
    decreases n,
{
    if a != n {
        let i = choose|i: int| #![trigger n.children@[i]] 0 <= i < n.children@.len() && within(a, n.children@[i]);
        let c = n.children@[i];
        assert(decreases_to!(n => n.children));
        assert(decreases_to!(n.children => n.children@));
        assert(decreases_to!(n.children@ => n.children@[i]));
        lemma_within_decreases(a, c);
    }
}

/// `ws` are the walkers that read `asts` against `source`, in order.
pub open spec fn reads_all(ws: Seq<Walker>, asts: Seq<AstNode>, source: &str) -> bool {
    &&& ws.len() == asts.len()
    &&& forall|i: int| 0 <= i < ws.len() ==> (#[trigger] ws[i]).reads(asts[i], source)
}

impl<'a> Walker<'a> {
    /// The walker and every node below it can be read against the source.
    pub open spec fn tree_wf(self) -> bool {
        self.wf() && tree_ok(self.ast(), self.source@)
    }

    /// The children of the node on which `fi` holds, in order.
    pub open spec fn spec_direct_childs(self, fi: Query) -> Seq<AstNode> {
        self.ast().children@.filter(|c: AstNode| fi.spec_holds(c, None))
    }

    /// Find all direct childrens
    pub fn direct_childs(&self, fi: &Query) -> (r: Vec<Walker<'a>>)
        requires
            self.tree_wf(),
        ensures
            reads_all(r@, self.spec_direct_childs(*fi), self.source),
            forall|i: int| 0 <= i < r@.len() ==> (#[trigger] r@[i]).tree_wf(),
    {
        let ghost kids = self.ast().children@;
        let mut walkers: Vec<Walker<'a>> = Vec::new();
        let mut i: usize = 0;
        proof { Walker::lemma_wf_fields(*self); }
        while i < self.node.children.len()
            invariant
                self.tree_wf(),
                self.node.children@ == kids,
                i <= kids.len(),
                reads_all(walkers@, kids.take(i as int).filter(|c: AstNode| fi.spec_holds(c, None)), self.source),
                forall|k: int| 0 <= k < walkers@.len() ==> (#[trigger] walkers@[k]).tree_wf(),
            decreases kids.len() - i,
        {
            proof { lemma_tree_ok_child(self.ast(), self.source@, i as int); }
            let child = &self.node.children[i];
            let walker = Walker::new(child, self.source);
            assert(kids.take(i + 1).drop_last() =~= kids.take(i as int));
            proof { reveal_with_fuel(Seq::<_>::filter, 1); }
            let ghost before = walkers@;
            if fi.holds(&walker, None) {
                walkers.push(walker);
                proof {
                    lemma_reads_all_concat(before, kids.take(i as int).filter(|c: AstNode| fi.spec_holds(c, None)),
                        seq![walker], seq![kids[i as int]], self.source);
                    assert(walkers@ =~= before + seq![walker]);
                }
            }
            i = i + 1;
        }
        assert(kids.take(kids.len() as int) =~= kids);
        walkers
    }

    /// The nodes below and including this one on which `fi` holds, children
    /// before parents; the walk does not go below a node on which `ig` holds,
    /// nor, when `bf` is set, below a node on which `fi` holds.
    pub fn walk(&self, bf: bool, ig: &Query, fi: &Query) -> (r: Vec<Walker<'a>>)
        requires
            self.tree_wf(),
        ensures
            reads_all(r@, walk_seq(self.ast(), None, bf, test_of(*ig), test_of(*fi)), self.source),
            forall|i: int| 0 <= i < r@.len() ==> (#[trigger] r@[i]).tree_wf(),
    {
        self.walk_from(None, bf, ig, fi)
    }

    fn walk_from(&self, parent: Option<&Walker<'a>>, bf: bool, ig: &Query, fi: &Query) -> (r: Vec<Walker<'a>>)
        requires
            self.tree_wf(),
            parent matches Some(p) ==> p.wf(),
        ensures
            reads_all(r@, walk_seq(self.ast(), match parent {
                Some(p) => Some(p.ast()),
                None => None,
            }, bf, test_of(*ig), test_of(*fi)), self.source),
            forall|i: int| 0 <= i < r@.len() ==> (#[trigger] r@[i]).tree_wf(),
        decreases *self.node.ast,
    {
        let ghost n = self.ast();
        let ghost par = match parent {
            Some(p) => Some(p.ast()),
            None => None,
        };
        proof { Walker::lemma_wf_fields(*self); }
        let ignored = ig.holds(self, parent);
        let found = fi.holds(self, parent);
        let mut walkers: Vec<Walker<'a>> = Vec::new();
        if !ignored && !(found && bf) {
            let mut i: usize = 0;
            while i < self.node.children.len()
                invariant
                    self.tree_wf(),
                    n == self.ast(),
                    self.node.children@ == n.children@,
                    i <= n.children@.len(),
                    reads_all(walkers@, walk_kids(n, i as int, bf, test_of(*ig), test_of(*fi)), self.source),
                    forall|k: int| 0 <= k < walkers@.len() ==> (#[trigger] walkers@[k]).tree_wf(),
                decreases n.children@.len() - i,
            {
                proof {
                    lemma_tree_ok_child(n, self.source@, i as int);
                    assert(decreases_to!(*self.node.ast => self.node.ast.children));
                    assert(decreases_to!(self.node.ast.children => self.node.ast.children@));
                    assert(decreases_to!(self.node.ast.children@ => self.node.ast.children@[i as int]));
                }
                let child = Walker::new(&self.node.children[i], self.source);
                let mut below = child.walk_from(Some(self), bf, ig, fi);
                let ghost before = walkers@;
                walkers.append(&mut below);
                proof {
                    lemma_reads_all_concat(before, walk_kids(n, i as int, bf, test_of(*ig), test_of(*fi)),
                        walkers@.subrange(before.len() as int, walkers@.len() as int),
                        walk_seq(n.children@[i as int], Some(n), bf, test_of(*ig), test_of(*fi)), self.source);
                    assert(walkers@ =~= before + walkers@.subrange(before.len() as int, walkers@.len() as int));
                }
                i = i + 1;
            }
        }
        if found {
            let ghost before = walkers@;
            walkers.push(*self);
            proof {
                lemma_reads_all_concat(before, walk_seq(n, par, bf, test_of(*ig), test_of(*fi)).drop_last(), seq![*self], seq![n], self.source);
                assert(walkers@ =~= before + seq![*self]);
                assert(walk_seq(n, par, bf, test_of(*ig), test_of(*fi)).drop_last() + seq![n] =~= walk_seq(n, par, bf, test_of(*ig), test_of(*fi)));
            }
        }
        walkers
    }
}

/// Walkers read a concatenation piece by piece.
pub proof fn lemma_reads_all_concat(w1: Seq<Walker>, a1: Seq<AstNode>, w2: Seq<Walker>, a2: Seq<AstNode>, source: &str)
    requires
        reads_all(w1, a1, source),
        reads_all(w2, a2, source),
    ensures
        reads_all(w1 + w2, a1 + a2, source),
{
    assert forall|i: int| 0 <= i < (w1 + w2).len() implies (#[trigger] (w1 + w2)[i]).reads((a1 + a2)[i], source) by {
        if i < w1.len() {
            assert((w1 + w2)[i] == w1[i]);
        } else {
            assert((w1 + w2)[i] == w2[i - w1.len()]);
        }
    }
}

} // verus!
