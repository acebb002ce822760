//! Reads the AST of a function into blocks for the control flow graph.
//!
//! A function is split into its parameters and its body; the body is read
//! statement by statement (`build_items`), and each control flow statement into
//! its components (`build_node`). The graph starts at `build_node` with
//! `NodeKind::Root`.
use vstd::prelude::*;
use crate::ast::{AstNode, AttrValue};
use crate::shared::walker::{Walker, lemma_tree_ok_child};
use crate::cfg::block::{CodeBlock, SimpleBlockNode, SimpleKind, BlockNode, IfStatement, WhileStatement,
    DoWhileStatement, ForStatement, ReturnStatement, CodeView, NodeView, code_matches, codes_match,
    node_matches, lemma_codes_match_concat, simple_reads};
use crate::text::str_eq;

verus! {

/// Kind of a graph node
pub enum BlockKind {
    /// Parameter list of a function
    Param,
    /// Body of a function
    Body,
}

/// Kind of node in graph, detected from the token kind of the AST
pub enum NodeKind {
    /// Root of a function
    Root,
    IfStatement,
    WhileStatement,
    ForStatement,
    DoWhileStatement,
}

pub open spec fn named(n: AstNode, name: &str) -> bool {
    n.name@ == name@
}

/// The components of a `for` statement that have a child, in child order: the
/// four components less those that the attributes list (they are absent).
pub open spec fn for_props(attrs: Seq<(String, AttrValue)>) -> Seq<Seq<char>>
    decreases attrs.len(),
{
    if attrs.len() == 0 {
        seq!["initializationExpression"@, "condition"@, "loopExpression"@, "body"@]
    } else {
        without(for_props(attrs.drop_last()), attrs.last().0@)
    }
}

/// `v` with every occurrence of `key` left out.
pub open spec fn without(v: Seq<Seq<char>>, key: Seq<char>) -> Seq<Seq<char>>
    decreases v.len(),
{
    if v.len() == 0 {
        seq![]
    } else if v.last() == key {
        without(v.drop_last(), key)
    } else {
        without(v.drop_last(), key).push(v.last())
    }
}

/// The blocks of a statement of a body.
pub open spec fn items_view(n: AstNode) -> Seq<CodeView>
    decreases n, 3int, 0int,
{
    if n.name@ == "IfStatement"@ {
        seq![CodeView::Link(Box::new(if_view(n)))]
    } else if n.name@ == "WhileStatement"@ {
        seq![CodeView::Link(Box::new(while_view(n)))]
    } else if n.name@ == "ForStatement"@ {
        seq![CodeView::Link(Box::new(for_view(n)))]
    } else if n.name@ == "DoWhileStatement"@ {
        seq![CodeView::Link(Box::new(do_while_view(n)))]
    } else if n.name@ == "Return"@ {
        seq![CodeView::Link(Box::new(NodeView::ReturnStatement(Box::new(CodeView::Block(n)))))]
    } else if n.name@ == "Throw"@ {
        seq![CodeView::SimpleBlocks(seq![(SimpleKind::Throw, n)])]
    } else if n.name@ == "Continue"@ {
        seq![CodeView::SimpleBlocks(seq![(SimpleKind::Continue, n)])]
    } else if n.name@ == "Break"@ {
        seq![CodeView::SimpleBlocks(seq![(SimpleKind::Break, n)])]
    } else {
        seq![CodeView::Block(n)]
    }
}

/// The blocks of the first `k` statements of the body `n`.
pub open spec fn body_items(n: AstNode, k: int) -> Seq<CodeView>
    decreases n, 1int, k,
{
    if k <= 0 || k > n.children@.len() {
        seq![]
    } else {
        body_items(n, k - 1) + items_view(n.children@[k - 1])
    }
}

/// The blocks of the body of a control flow statement: a `Block` is read
/// statement by statement, anything else as one statement.
pub open spec fn body_view(c: AstNode) -> Seq<CodeView>
    decreases c, 4int, 0int,
{
    if c.name@ == "Block"@ {
        body_items(c, c.children@.len() as int)
    } else {
        items_view(c)
    }
}

/// The child `i` of `n` as a plain block, or `Empty`.
pub open spec fn child_block(n: AstNode, i: int) -> CodeView {
    if i < n.children@.len() { CodeView::Block(n.children@[i]) } else { CodeView::Empty }
}

pub open spec fn if_view(n: AstNode) -> NodeView
    decreases n, 2int, 0int,
{
    NodeView::IfStatement(
        Box::new(child_block(n, 0)),
        if n.children@.len() > 1 { body_view(n.children@[1]) } else { seq![] },
        if n.children@.len() > 2 { body_view(n.children@[2]) } else { seq![] },
    )
}

pub open spec fn while_view(n: AstNode) -> NodeView
    decreases n, 2int, 0int,
{
    NodeView::WhileStatement(
        Box::new(child_block(n, 0)),
        if n.children@.len() > 1 { body_view(n.children@[1]) } else { seq![] },
    )
}

pub open spec fn do_while_view(n: AstNode) -> NodeView
    decreases n, 2int, 0int,
{
    NodeView::DoWhileStatement(
        Box::new(child_block(n, 0)),
        if n.children@.len() > 1 { body_view(n.children@[1]) } else { seq![] },
    )
}

/// The components of a `for` statement read from its first `k` children:
/// condition, init, loop expression and body.
pub open spec fn for_fold(n: AstNode, k: int) -> (CodeView, CodeView, CodeView, Seq<CodeView>)
    decreases n, 2int, k,
{
    if k <= 0 || k > n.children@.len() {
        (CodeView::Empty, CodeView::Empty, CodeView::Empty, seq![])
    } else {
        let (c, i, e, b) = for_fold(n, k - 1);
        let child = n.children@[k - 1];
        let label = for_props(n.attributes@)[k - 1];
        if label == "initializationExpression"@ {
            (c, CodeView::Block(child), e, b)
        } else if label == "condition"@ {
            (CodeView::Block(child), i, e, b)
        } else if label == "loopExpression"@ {
            (c, i, CodeView::Block(child), b)
        } else if child.name@ == "Block"@ {
            (c, i, e, body_view(child))
        } else {
            (c, i, e, b + items_view(child))
        }
    }
}

pub open spec fn for_view(n: AstNode) -> NodeView
    decreases n, 2int, n.children@.len() + 1,
{
    let (c, i, e, b) = for_fold(n, n.children@.len() as int);
    NodeView::ForStatement(Box::new(c), Box::new(i), Box::new(e), b)
}

/// The blocks of a function read from its first `k` children: the parameters
/// of the first parameter list, the body, and the modifier invocations.
pub open spec fn param_fold(n: AstNode, k: int) -> Seq<CodeView>
    decreases n, 2int, k,
{
    if k <= 0 || k > n.children@.len() {
        seq![]
    } else {
        let prev = param_fold(n, k - 1);
        let child = n.children@[k - 1];
        if child.name@ == "ParameterList"@ {
            if k - 1 == 0 {
                prev + child.children@.map_values(|g: AstNode| CodeView::Block(g))
            } else {
                prev
            }
        } else if child.name@ == "Block"@ {
            prev + body_items(child, child.children@.len() as int)
        } else if child.name@ == "ModifierInvocation"@ {
            prev.push(CodeView::Block(child))
        } else {
            prev
        }
    }
}

/// The root of the function `n`.
pub open spec fn root_view(n: AstNode) -> NodeView {
    NodeView::Root(param_fold(n, n.children@.len() as int))
}

/// The parameters of a function: the ids of the entries of its first child,
/// when that is a parameter list.
pub open spec fn spec_parameters(n: AstNode) -> Seq<u32> {
    if n.children@.len() > 0 && n.children@[0].name@ == "ParameterList"@ {
        n.children@[0].children@.map_values(|g: AstNode| g.id)
    } else {
        seq![]
    }
}

/// Reading the statement `n` does not hit what the reader leaves unimplemented:
/// inline assembly, a loop or `if` with more children than it has components.
pub open spec fn items_ok(n: AstNode) -> bool
    decreases n, 3int, 0int,
{
    if n.name@ == "IfStatement"@ {
        &&& n.children@.len() <= 3
        &&& (n.children@.len() > 1 ==> body_ok(n.children@[1]))
        &&& (n.children@.len() > 2 ==> body_ok(n.children@[2]))
    } else if n.name@ == "WhileStatement"@ || n.name@ == "DoWhileStatement"@ {
        &&& n.children@.len() <= 2
        &&& (n.children@.len() > 1 ==> body_ok(n.children@[1]))
    } else if n.name@ == "ForStatement"@ {
        &&& n.children@.len() <= for_props(n.attributes@).len()
        &&& for_ok(n, n.children@.len() as int)
    } else {
        n.name@ != "InlineAssemblyStatement"@
    }
}

/// Every statement of the first `k` of the body `n` can be read.
pub open spec fn body_items_ok(n: AstNode, k: int) -> bool
    decreases n, 1int, k,
{
    k <= 0 || k > n.children@.len() || (body_items_ok(n, k - 1) && items_ok(n.children@[k - 1]))
}

pub open spec fn body_ok(c: AstNode) -> bool
    decreases c, 4int, 0int,
{
    if c.name@ == "Block"@ {
        body_items_ok(c, c.children@.len() as int)
    } else {
        items_ok(c)
    }
}

/// The bodies among the first `k` children of a `for` statement can be read.
pub open spec fn for_ok(n: AstNode, k: int) -> bool
    decreases n, 2int, k,
{
    if k <= 0 || k > n.children@.len() {
        true
    } else {
        let label = for_props(n.attributes@)[k - 1];
        &&& for_ok(n, k - 1)
        &&& (label != "initializationExpression"@ && label != "condition"@ && label != "loopExpression"@
            ==> body_ok(n.children@[k - 1]))
    }
}

/// The bodies among the first `k` children of a function can be read.
pub open spec fn param_ok(n: AstNode, k: int) -> bool
    decreases n, 2int, k,
{
    if k <= 0 || k > n.children@.len() {
        true
    } else {
        let child = n.children@[k - 1];
        &&& param_ok(n, k - 1)
        &&& (child.name@ != "ParameterList"@ && child.name@ == "Block"@ ==> body_items_ok(child, child.children@.len() as int))
    }
}

/// The function `n` can be read.
pub open spec fn root_ok(n: AstNode) -> bool {
    param_ok(n, n.children@.len() as int)
}


/// Views of `&str`s.
pub open spec fn str_views(v: Seq<&str>) -> Seq<Seq<char>> {
    v.map_values(|s: &str| s@)
}

/// The components of a `for` statement that have a child.
fn props_of_for(attrs: &Vec<(String, AttrValue)>) -> (r: Vec<&'static str>)
    ensures
        str_views(r@) == for_props(attrs@),
{
    let mut props: Vec<&'static str> = vec!["initializationExpression", "condition", "loopExpression", "body"];
    proof {
        reveal_strlit("initializationExpression");
        reveal_strlit("condition");
        reveal_strlit("loopExpression");
        reveal_strlit("body");
        assert(attrs@.take(0) =~= Seq::<(String, AttrValue)>::empty());
        assert(str_views(props@) =~= for_props(attrs@.take(0)));
    }
    let mut k: usize = 0;
    while k < attrs.len()
        invariant
            k <= attrs@.len(),
            str_views(props@) == for_props(attrs@.take(k as int)),
        decreases attrs@.len() - k,
    {
        let key = attrs[k].0.as_str();
        let mut kept: Vec<&'static str> = Vec::new();
        let mut j: usize = 0;
        while j < props.len()
            invariant
                j <= props@.len(),
                str_views(kept@) == without(str_views(props@).take(j as int), key@),
            decreases props@.len() - j,
        {
            assert(str_views(props@).take(j + 1).drop_last() =~= str_views(props@).take(j as int));
            let ghost before = kept@;
            if !str_eq(props[j], key) {
                kept.push(props[j]);
                assert(str_views(kept@) =~= str_views(before).push(props@[j as int]@));
            }
            j = j + 1;
        }
        assert(str_views(props@).take(props@.len() as int) =~= str_views(props@));
        assert(attrs@.take(k + 1).drop_last() =~= attrs@.take(k as int));
        props = kept;
        k = k + 1;
    }
    assert(attrs@.take(attrs@.len() as int) =~= attrs@);
    props
}

/// Process AST tree into blocks for `ControlFlowGraph`.
pub struct Graph<'a> {
    pub walker: Walker<'a>,
    pub root: BlockNode<'a>,
    /// Ids of the parameters of the function
    pub parameters: Vec<u32>,
}

impl<'a> Graph<'a> {
    pub fn new(walker: Walker<'a>) -> (r: Graph<'a>)
        ensures
            r.walker == walker,
            r.root is Empty,
            r.parameters@ == Seq::<u32>::empty(),
    {
        Graph { walker, root: BlockNode::Empty, parameters: Vec::new() }
    }

    /// Ids of the parameters of the function, once the graph is built.
    pub fn get_parameters(&self) -> (r: &Vec<u32>)
        ensures
            r@ == self.parameters@,
    {
        &self.parameters
    }

    /// Reads a statement of a body; a control flow statement is read into its
    /// components by `build_node`.
    pub fn build_items(&mut self, walker: Walker<'a>) -> (r: Vec<CodeBlock<'a>>)
        requires
            walker.tree_wf(),
            items_ok(walker.ast()),
        ensures
            codes_match(r@, items_view(walker.ast()), walker.source@),
            final(self).walker == old(self).walker,
            final(self).root == old(self).root,
            final(self).parameters@ == old(self).parameters@,
        decreases *walker.node.ast, 3int, 0int,
    {
        let ghost n = walker.ast();
        let ghost src = walker.source@;
        proof {
            Walker::lemma_wf_fields(walker);
            reveal_strlit("IfStatement");
            reveal_strlit("WhileStatement");
            reveal_strlit("ForStatement");
            reveal_strlit("DoWhileStatement");
            reveal_strlit("Return");
            reveal_strlit("Throw");
            reveal_strlit("Continue");
            reveal_strlit("Break");
            reveal_strlit("InlineAssemblyStatement");
        }
        let name = walker.node.name;
        let b = if str_eq(name, "IfStatement") {
            let node = self.build_node(NodeKind::IfStatement, walker);
            assert(node_matches(node, if_view(n), src));
            let b = CodeBlock::Link(Box::new(node));
            assert(code_matches(b, CodeView::Link(Box::new(if_view(n))), src));
            assert(items_view(n)[0] == CodeView::Link(Box::new(if_view(n))));
            b
        } else if str_eq(name, "WhileStatement") {
            let node = self.build_node(NodeKind::WhileStatement, walker);
            CodeBlock::Link(Box::new(node))
        } else if str_eq(name, "ForStatement") {
            let node = self.build_node(NodeKind::ForStatement, walker);
            CodeBlock::Link(Box::new(node))
        } else if str_eq(name, "DoWhileStatement") {
            let node = self.build_node(NodeKind::DoWhileStatement, walker);
            CodeBlock::Link(Box::new(node))
        } else if str_eq(name, "Return") {
            let body = CodeBlock::Block(walker);
            assert(code_matches(body, CodeView::Block(n), src));
            let node = BlockNode::ReturnStatement(ReturnStatement { body });
            assert(node_matches(node, NodeView::ReturnStatement(Box::new(CodeView::Block(n))), src));
            CodeBlock::Link(Box::new(node))
        } else if str_eq(name, "Throw") {
            let mut v = Vec::new();
            v.push(SimpleBlockNode::Throw(walker));
            assert(simple_reads(v@, seq![(SimpleKind::Throw, n)], src));
            CodeBlock::SimpleBlocks(v)
        } else if str_eq(name, "Continue") {
            let mut v = Vec::new();
            v.push(SimpleBlockNode::Continue(walker));
            assert(simple_reads(v@, seq![(SimpleKind::Continue, n)], src));
            CodeBlock::SimpleBlocks(v)
        } else if str_eq(name, "Break") {
            let mut v = Vec::new();
            v.push(SimpleBlockNode::Break(walker));
            assert(simple_reads(v@, seq![(SimpleKind::Break, n)], src));
            CodeBlock::SimpleBlocks(v)
        } else {
            let b = CodeBlock::Block(walker);
            assert(code_matches(b, CodeView::Block(n), src));
            assert(items_view(n)[0] == CodeView::Block(n));
            b
        };
        assert(code_matches(b, items_view(n)[0], src));
        let mut r = Vec::new();
        r.push(b);
        proof {
            assert(codes_match(r@, items_view(n), src)) by {
                assert(r@.len() == 1);
                assert(r@[0] == b);
            }
        }
        r
    }

    /// Reads the parameters, modifier invocations and body of a function
    /// (`Param`), or the statements of a body (`Body`).
    pub fn build_block(&mut self, kind: BlockKind, walker: Walker<'a>) -> (r: Vec<CodeBlock<'a>>)
        requires
            walker.tree_wf(),
            kind is Body ==> body_items_ok(walker.ast(), walker.ast().children@.len() as int),
            kind is Param ==> root_ok(walker.ast()),
        ensures
            kind is Body ==> codes_match(r@, body_items(walker.ast(), walker.ast().children@.len() as int), walker.source@),
            kind is Param ==> codes_match(r@, param_fold(walker.ast(), walker.ast().children@.len() as int), walker.source@),
            final(self).walker == old(self).walker,
            final(self).root == old(self).root,
            kind is Body ==> final(self).parameters@ == old(self).parameters@,
            kind is Param ==> final(self).parameters@ == old(self).parameters@ + spec_parameters(walker.ast()),
        decreases *walker.node.ast, 1int, 0int,
    {
        let ghost n = walker.ast();
        let ghost src = walker.source@;
        proof { Walker::lemma_wf_fields(walker); }
        let mut blocks: Vec<CodeBlock<'a>> = Vec::new();
        match kind {
            BlockKind::Body => {
                let mut i: usize = 0;
                while i < walker.node.children.len()
                    invariant
                        walker.tree_wf(),
                        n == walker.ast(),
                        src == walker.source@,
                        walker.node.children@ == n.children@,
                        body_items_ok(n, n.children@.len() as int),
                        i <= n.children@.len(),
                        codes_match(blocks@, body_items(n, i as int), src),
                        self.walker == old(self).walker,
                        self.root == old(self).root,
                        self.parameters@ == old(self).parameters@,
                    decreases n.children@.len() - i,
                {
                    proof {
                        lemma_tree_ok_child(n, src, i as int);
                        lemma_body_items_ok(n, n.children@.len() as int, i as int);
                        assert(decreases_to!(*walker.node.ast => walker.node.ast.children));
                        assert(decreases_to!(walker.node.ast.children => walker.node.ast.children@));
                        assert(decreases_to!(walker.node.ast.children@ => walker.node.ast.children@[i as int]));
                    }
                    let child = Walker::new(&walker.node.children[i], walker.source);
                    let mut items = self.build_items(child);
                    let ghost before = blocks@;
                    let ghost iv = items@;
                    blocks.append(&mut items);
                    proof {
                        lemma_codes_match_concat(before, body_items(n, i as int), iv, items_view(n.children@[i as int]), src);
                    }
                    i = i + 1;
                }
            },
            BlockKind::Param => {
                let ghost p0 = self.parameters@;
                let mut i: usize = 0;
                while i < walker.node.children.len()
                    invariant
                        walker.tree_wf(),
                        n == walker.ast(),
                        src == walker.source@,
                        walker.node.children@ == n.children@,
                        root_ok(n),
                        i <= n.children@.len(),
                        codes_match(blocks@, param_fold(n, i as int), src),
                        self.walker == old(self).walker,
                        self.root == old(self).root,
                        self.parameters@ == p0 + (if i > 0 { spec_parameters(n) } else { seq![] }),
                        p0 == old(self).parameters@,
                    decreases n.children@.len() - i,
                {
                    proof {
                        lemma_tree_ok_child(n, src, i as int);
                        lemma_param_ok(n, n.children@.len() as int, i as int);
                        assert(decreases_to!(*walker.node.ast => walker.node.ast.children));
                        assert(decreases_to!(walker.node.ast.children => walker.node.ast.children@));
                        assert(decreases_to!(walker.node.ast.children@ => walker.node.ast.children@[i as int]));
                        reveal_strlit("ParameterList");
                        reveal_strlit("Block");
                        reveal_strlit("ModifierInvocation");
                        assert("ParameterList"@.len() != "Block"@.len());
                        assert("ParameterList"@.len() != "ModifierInvocation"@.len());
                        assert("Block"@.len() != "ModifierInvocation"@.len());
                    }
                    let child = Walker::new(&walker.node.children[i], walker.source);
                    let ghost c = n.children@[i as int];
                    proof { Walker::lemma_wf_fields(child); }
                    let ghost before = blocks@;
                    let ghost params_before = self.parameters@;
                    if str_eq(child.node.name, "ParameterList") {
                        if i == 0 {
                            let mut j: usize = 0;
                            assert(c.children@.take(0).map_values(|g: AstNode| CodeView::Block(g)) =~= Seq::<CodeView>::empty());
                            assert(c.children@.take(0).map_values(|g: AstNode| g.id) =~= Seq::<u32>::empty());
                            assert(param_fold(n, i as int) + Seq::<CodeView>::empty() =~= param_fold(n, i as int));
                            assert(params_before + Seq::<u32>::empty() =~= params_before);
                            while j < child.node.children.len()
                                invariant
                                    child.tree_wf(),
                                    c == child.ast(),
                                    child.source@ == src,
                                    child.node.children@ == c.children@,
                                    j <= c.children@.len(),
                                    codes_match(blocks@, param_fold(n, i as int) + c.children@.take(j as int).map_values(|g: AstNode| CodeView::Block(g)), src),
                                    self.parameters@ == params_before + c.children@.take(j as int).map_values(|g: AstNode| g.id),
                                    self.walker == old(self).walker,
                                    self.root == old(self).root,
                                decreases c.children@.len() - j,
                            {
                                proof { lemma_tree_ok_child(c, src, j as int); }
                                let param = Walker::new(&child.node.children[j], child.source);
                                let ghost b2 = blocks@;
                                blocks.push(CodeBlock::Block(param));
                                self.parameters.push(child.node.children[j].id);
                                proof {
                                    assert(c.children@.take(j + 1) =~= c.children@.take(j as int).push(c.children@[j as int]));
                                    assert(c.children@.take(j + 1).map_values(|g: AstNode| CodeView::Block(g))
                                        =~= c.children@.take(j as int).map_values(|g: AstNode| CodeView::Block(g)).push(CodeView::Block(c.children@[j as int])));
                                    assert(c.children@.take(j + 1).map_values(|g: AstNode| g.id)
                                        =~= c.children@.take(j as int).map_values(|g: AstNode| g.id).push(c.children@[j as int].id));
                                    lemma_codes_match_concat(b2, param_fold(n, i as int) + c.children@.take(j as int).map_values(|g: AstNode| CodeView::Block(g)),
                                        seq![CodeBlock::Block(param)], seq![CodeView::Block(c.children@[j as int])], src);
                                    assert(blocks@ =~= b2 + seq![CodeBlock::Block(param)]);
                                    assert(param_fold(n, i as int) + c.children@.take(j as int).map_values(|g: AstNode| CodeView::Block(g)) + seq![CodeView::Block(c.children@[j as int])]
                                        =~= param_fold(n, i as int) + c.children@.take(j + 1).map_values(|g: AstNode| CodeView::Block(g)));
                                }
                                j = j + 1;
                            }
                            assert(c.children@.take(c.children@.len() as int) =~= c.children@);
                            assert(spec_parameters(n) == c.children@.map_values(|g: AstNode| g.id));
                        }
                    } else if str_eq(child.node.name, "Block") {
                        let mut items = self.build_block(BlockKind::Body, child);
                        let ghost iv = items@;
                        blocks.append(&mut items);
                        proof {
                            lemma_codes_match_concat(before, param_fold(n, i as int), iv, body_items(c, c.children@.len() as int), src);
                        }
                    } else if str_eq(child.node.name, "ModifierInvocation") {
                        blocks.push(CodeBlock::Block(child));
                        proof {
                            lemma_codes_match_concat(before, param_fold(n, i as int), seq![CodeBlock::Block(child)], seq![CodeView::Block(c)], src);
                            assert(blocks@ =~= before + seq![CodeBlock::Block(child)]);
                        }
                    }
                    proof {
                        if i == 0 && c.name@ != "ParameterList"@ {
                            assert(spec_parameters(n) =~= Seq::<u32>::empty());
                        }
                    }
                    i = i + 1;
                }
                proof {
                    if n.children@.len() == 0 {
                        assert(spec_parameters(n) =~= Seq::<u32>::empty());
                    }
                    assert(self.parameters@ =~= p0 + spec_parameters(n));
                }
            },
        }
        blocks
    }
}

impl<'a> Graph<'a> {
    /// Reads a control flow statement into its components, or (`Root`) a
    /// function into its blocks.
    pub fn build_node(&mut self, kind: NodeKind, walker: Walker<'a>) -> (r: BlockNode<'a>)
        requires
            walker.tree_wf(),
            kind is Root ==> root_ok(walker.ast()),
            kind is IfStatement ==> walker.ast().name@ == "IfStatement"@ && items_ok(walker.ast()),
            kind is WhileStatement ==> walker.ast().name@ == "WhileStatement"@ && items_ok(walker.ast()),
            kind is DoWhileStatement ==> walker.ast().name@ == "DoWhileStatement"@ && items_ok(walker.ast()),
            kind is ForStatement ==> walker.ast().name@ == "ForStatement"@ && items_ok(walker.ast()),
        ensures
            node_matches(r, match kind {
                NodeKind::Root => root_view(walker.ast()),
                NodeKind::IfStatement => if_view(walker.ast()),
                NodeKind::WhileStatement => while_view(walker.ast()),
                NodeKind::DoWhileStatement => do_while_view(walker.ast()),
                NodeKind::ForStatement => for_view(walker.ast()),
            }, walker.source@),
            final(self).walker == old(self).walker,
            final(self).root == old(self).root,
            !(kind is Root) ==> final(self).parameters@ == old(self).parameters@,
            kind is Root ==> final(self).parameters@ == old(self).parameters@ + spec_parameters(walker.ast()),
        decreases *walker.node.ast, 2int, 0int,
    {
        let ghost n = walker.ast();
        let ghost src = walker.source@;
        proof {
            Walker::lemma_wf_fields(walker);
            reveal_strlit("IfStatement");
            reveal_strlit("WhileStatement");
            reveal_strlit("ForStatement");
            reveal_strlit("DoWhileStatement");
            reveal_strlit("Block");
            assert("ForStatement"@.len() != "IfStatement"@.len());
            assert("ForStatement"@.len() != "WhileStatement"@.len());
            assert("ForStatement"@.len() != "DoWhileStatement"@.len());
            assert("IfStatement"@.len() != "WhileStatement"@.len());
            assert("IfStatement"@.len() != "DoWhileStatement"@.len());
            assert("WhileStatement"@.len() != "DoWhileStatement"@.len());
        }
        match kind {
            NodeKind::Root => {
                let blocks = self.build_block(BlockKind::Param, walker);
                BlockNode::Root(blocks)
            },
            NodeKind::ForStatement => {
                let props = props_of_for(walker.node.attributes);
                assert(n.children@.len() <= props@.len());
                assert(for_ok(n, n.children@.len() as int));
                let mut blocks: Vec<CodeBlock<'a>> = Vec::new();
                let mut condition = CodeBlock::Empty;
                let mut init = CodeBlock::Empty;
                let mut expression = CodeBlock::Empty;
                let mut i: usize = 0;
                while i < walker.node.children.len()
                    invariant
                        walker.tree_wf(),
                        n == walker.ast(),
                        src == walker.source@,
                        walker.node.children@ == n.children@,
                        walker.node.attributes@ == n.attributes@,
                        n.children@.len() <= props@.len(),
                        for_ok(n, n.children@.len() as int),
                        str_views(props@) == for_props(n.attributes@),
                        i <= n.children@.len(),
                        code_matches(condition, for_fold(n, i as int).0, src),
                        code_matches(init, for_fold(n, i as int).1, src),
                        code_matches(expression, for_fold(n, i as int).2, src),
                        codes_match(blocks@, for_fold(n, i as int).3, src),
                        self.walker == old(self).walker,
                        self.root == old(self).root,
                        self.parameters@ == old(self).parameters@,
                    decreases n.children@.len() - i,
                {
                    proof {
                        lemma_tree_ok_child(n, src, i as int);
                        lemma_for_ok(n, n.children@.len() as int, i as int);
                        assert(decreases_to!(*walker.node.ast => walker.node.ast.children));
                        assert(decreases_to!(walker.node.ast.children => walker.node.ast.children@));
                        assert(decreases_to!(walker.node.ast.children@ => walker.node.ast.children@[i as int]));
                        reveal_strlit("initializationExpression");
                        reveal_strlit("condition");
                        reveal_strlit("loopExpression");
                    }
                    let child = Walker::new(&walker.node.children[i], walker.source);
                    let ghost c = n.children@[i as int];
                    proof { Walker::lemma_wf_fields(child); }
                    assert(str_views(props@)[i as int] == props@[i as int]@);
                    let label = props[i];
                    if str_eq(label, "initializationExpression") {
                        init = CodeBlock::Block(child);
                    } else if str_eq(label, "condition") {
                        condition = CodeBlock::Block(child);
                    } else if str_eq(label, "loopExpression") {
                        expression = CodeBlock::Block(child);
                    } else if str_eq(child.node.name, "Block") {
                        blocks = self.build_block(BlockKind::Body, child);
                        assert(body_view(c) == body_items(c, c.children@.len() as int));
                        assert(for_fold(n, i + 1).3 == body_view(c));
                    } else {
                        let mut items = self.build_items(child);
                        let ghost before = blocks@;
                        let ghost iv = items@;
                        blocks.append(&mut items);
                        proof {
                            lemma_codes_match_concat(before, for_fold(n, i as int).3, iv, items_view(c), src);
                        }
                    }
                    i = i + 1;
                }
                BlockNode::ForStatement(ForStatement { condition, init, expression, blocks })
            },
            _ => {
                let mut condition = CodeBlock::Empty;
                let mut tblocks: Vec<CodeBlock<'a>> = Vec::new();
                let mut fblocks: Vec<CodeBlock<'a>> = Vec::new();
                let mut i: usize = 0;
                while i < walker.node.children.len()
                    invariant
                        walker.tree_wf(),
                        n == walker.ast(),
                        src == walker.source@,
                        walker.node.children@ == n.children@,
                        items_ok(n),
                        !(kind is Root) && !(kind is ForStatement),
                        kind is IfStatement ==> n.name@ == "IfStatement"@,
                        kind is WhileStatement ==> n.name@ == "WhileStatement"@,
                        kind is DoWhileStatement ==> n.name@ == "DoWhileStatement"@,
                        i <= n.children@.len(),
                        code_matches(condition, if i > 0 { child_block(n, 0) } else { CodeView::Empty }, src),
                        codes_match(tblocks@, if i > 1 { body_view(n.children@[1]) } else { seq![] }, src),
                        codes_match(fblocks@, if i > 2 { body_view(n.children@[2]) } else { seq![] }, src),
                        self.walker == old(self).walker,
                        self.root == old(self).root,
                        self.parameters@ == old(self).parameters@,
                    decreases n.children@.len() - i,
                {
                    proof {
                        lemma_tree_ok_child(n, src, i as int);
                        assert(decreases_to!(*walker.node.ast => walker.node.ast.children));
                        assert(decreases_to!(walker.node.ast.children => walker.node.ast.children@));
                        assert(decreases_to!(walker.node.ast.children@ => walker.node.ast.children@[i as int]));
                    }
                    let child = Walker::new(&walker.node.children[i], walker.source);
                    let ghost c = n.children@[i as int];
                    proof { Walker::lemma_wf_fields(child); }
                    if i == 0 {
                        condition = CodeBlock::Block(child);
                    } else if i == 1 {
                        if str_eq(child.node.name, "Block") {
                            tblocks = self.build_block(BlockKind::Body, child);
                        } else {
                            tblocks = self.build_items(child);
                        }
                    } else {
                        if str_eq(child.node.name, "Block") {
                            fblocks = self.build_block(BlockKind::Body, child);
                        } else {
                            fblocks = self.build_items(child);
                        }
                    }
                    i = i + 1;
                }
                match kind {
                    NodeKind::IfStatement => BlockNode::IfStatement(IfStatement { condition, tblocks, fblocks }),
                    NodeKind::WhileStatement => BlockNode::WhileStatement(WhileStatement { condition, blocks: tblocks }),
                    _ => BlockNode::DoWhileStatement(DoWhileStatement { condition, blocks: tblocks }),
                }
            },
        }
    }

    /// The root of the graph, built on first use.
    pub fn update(&mut self) -> (r: &BlockNode<'a>)
        requires
            old(self).walker.tree_wf(),
            old(self).root is Empty ==> root_ok(old(self).walker.ast()),
        ensures
            old(self).root is Empty ==> node_matches(*r, root_view(old(self).walker.ast()), old(self).walker.source@)
                && final(self).parameters@ == old(self).parameters@ + spec_parameters(old(self).walker.ast()),
            !(old(self).root is Empty) ==> *r == old(self).root && final(self).parameters@ == old(self).parameters@,
            *r == final(self).root,
            final(self).walker == old(self).walker,
    {
        match self.root {
            BlockNode::Empty => {
                let root = self.build_node(NodeKind::Root, self.walker);
                self.root = root;
                &self.root
            },
            _ => &self.root,
        }
    }
}

/// Whether the statement `n` can be read: see `items_ok`.
#[verifier::loop_isolation(false)]
fn items_fit(n: &AstNode) -> (r: bool)
    ensures
        r == items_ok(*n),
    decreases *n, 3int, 0int,
{
    proof {
        reveal_strlit("IfStatement");
        reveal_strlit("WhileStatement");
        reveal_strlit("DoWhileStatement");
        reveal_strlit("ForStatement");
        reveal_strlit("InlineAssemblyStatement");
        reveal_strlit("initializationExpression");
        reveal_strlit("condition");
        reveal_strlit("loopExpression");
    }
    let len = n.children.len();
    if str_eq(n.name.as_str(), "IfStatement") {
        if len > 3 {
            return false;
        }
        if len > 1 && !body_fit(&n.children[1]) {
            return false;
        }
        len <= 2 || body_fit(&n.children[2])
    } else if str_eq(n.name.as_str(), "WhileStatement") || str_eq(n.name.as_str(), "DoWhileStatement") {
        proof {
            assert("IfStatement"@.len() != "WhileStatement"@.len());
            assert("IfStatement"@.len() != "DoWhileStatement"@.len());
        }
        len <= 2 && (len <= 1 || body_fit(&n.children[1]))
    } else if str_eq(n.name.as_str(), "ForStatement") {
        proof {
            assert("IfStatement"@[0] != "ForStatement"@[0]);
            assert("WhileStatement"@[0] != "ForStatement"@[0]);
            assert("DoWhileStatement"@[0] != "ForStatement"@[0]);
        }
        let props = props_of_for(&n.attributes);
        if len > props.len() {
            return false;
        }
        let mut k: usize = 0;
        while k < len
            invariant
                k <= len,
                len == n.children@.len(),
                len <= props@.len(),
                str_views(props@) == for_props(n.attributes@),
                for_ok(*n, k as int),
            decreases len - k,
        {
            let label = props[k];
            assert(str_views(props@)[k as int] == label@);
            if !str_eq(label, "initializationExpression") && !str_eq(label, "condition") && !str_eq(label, "loopExpression") {
                if !body_fit(&n.children[k]) {
                    proof {
                        if items_ok(*n) {
                            lemma_for_ok(*n, len as int, k as int);
                        }
                    }
                    return false;
                }
            }
            k = k + 1;
        }
        true
    } else {
        proof {
            assert("IfStatement"@.len() != "ForStatement"@.len());
        }
        !str_eq(n.name.as_str(), "InlineAssemblyStatement")
    }
}

/// Whether the body `c` can be read: see `body_ok`.
#[verifier::loop_isolation(false)]
fn body_fit(c: &AstNode) -> (r: bool)
    ensures
        r == body_ok(*c),
    decreases *c, 4int, 0int,
{
    proof { reveal_strlit("Block"); }
    if str_eq(c.name.as_str(), "Block") {
        let mut k: usize = 0;
        while k < c.children.len()
            invariant
                k <= c.children@.len(),
                c.name@ == "Block"@,
                body_items_ok(*c, k as int),
            decreases c.children@.len() - k,
        {
            if !items_fit(&c.children[k]) {
                proof {
                    if body_items_ok(*c, c.children@.len() as int) {
                        lemma_body_items_ok(*c, c.children@.len() as int, k as int);
                    }
                }
                return false;
            }
            k = k + 1;
        }
        true
    } else {
        items_fit(c)
    }
}

impl<'a> Graph<'a> {
    /// Whether the function of `walker` can be read into blocks: see `root_ok`.
    #[verifier::loop_isolation(false)]
    pub fn buildable(walker: &Walker<'a>) -> (r: bool)
        requires
            walker.tree_wf(),
        ensures
            r == root_ok(walker.ast()),
    {
        proof {
            Walker::lemma_wf_fields(*walker);
            reveal_strlit("ParameterList");
            reveal_strlit("Block");
            assert("ParameterList"@.len() != "Block"@.len());
        }
        let n = walker.node.ast;
        let len = n.children.len();
        let mut k: usize = 0;
        while k < len
            invariant
                k <= len,
                len == n.children@.len(),
                param_ok(*n, k as int),
            decreases len - k,
        {
            let child = &n.children[k];
            if !str_eq(child.name.as_str(), "ParameterList") && str_eq(child.name.as_str(), "Block") {
                let mut j: usize = 0;
                while j < child.children.len()
                    invariant
                        j <= child.children@.len(),
                        body_items_ok(*child, j as int),
                    decreases child.children@.len() - j,
                {
                    if !items_fit(&child.children[j]) {
                        proof {
                            if body_items_ok(*child, child.children@.len() as int) {
                                lemma_body_items_ok(*child, child.children@.len() as int, j as int);
                            }
                            if param_ok(*n, len as int) {
                                lemma_param_ok(*n, len as int, k as int);
                            }
                        }
                        return false;
                    }
                    j = j + 1;
                }
            }
            k = k + 1;
        }
        true
    }
}

pub proof fn lemma_for_ok(n: AstNode, k: int, i: int)
    requires
        for_ok(n, k),
        0 <= i < k <= n.children@.len(),
    ensures
        ({
            let label = for_props(n.attributes@)[i];
            label != "initializationExpression"@ && label != "condition"@ && label != "loopExpression"@
                ==> body_ok(n.children@[i])
        }),
    decreases k,
{
    if i < k - 1 {
        lemma_for_ok(n, k - 1, i);
    }
}

pub proof fn lemma_body_items_ok(n: AstNode, k: int, i: int)
    requires
        body_items_ok(n, k),
        0 <= i < k <= n.children@.len(),
    ensures
        items_ok(n.children@[i]),
    decreases k,
{
    if i < k - 1 {
        lemma_body_items_ok(n, k - 1, i);
    }
}

pub proof fn lemma_param_ok(n: AstNode, k: int, i: int)
    requires
        param_ok(n, k),
        0 <= i < k <= n.children@.len(),
    ensures
        ({
            let child = n.children@[i];
            child.name@ != "ParameterList"@ && child.name@ == "Block"@ ==> body_items_ok(child, child.children@.len() as int)
        }),
    decreases k,
{
    if i < k - 1 {
        lemma_param_ok(n, k - 1, i);
    }
}
} // verus!
