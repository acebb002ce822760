//! Blocks of source code that the control flow graph is built from.
use vstd::prelude::*;
use crate::ast::AstNode;
use crate::shared::walker::Walker;

verus! {

/// Block of source code
pub enum CodeBlock<'a> {
    /// Keep the body of a function
    Block(Walker<'a>),
    /// Keep primitive nodes
    SimpleBlocks(Vec<SimpleBlockNode<'a>>),
    /// Keep compound nodes
    Link(Box<BlockNode<'a>>),
    /// Keep empty nodes
    Empty,
}

/// The kind of a primitive node.
#[derive(PartialEq, Eq, Structural, Clone, Copy, Debug)]
pub enum SimpleKind {
    Throw,
    Break,
    Continue,
    Require,
    Assert,
    Revert,
    Transfer,
    Suicide,
    Selfdestruct,
    ModifierInvocation,
    FunctionCall,
    IndexAccess,
    Unit,
    Empty,
}

/// Primitive node
pub enum SimpleBlockNode<'a> {
    Throw(Walker<'a>),
    Break(Walker<'a>),
    Continue(Walker<'a>),
    Require(Walker<'a>),
    Assert(Walker<'a>),
    Revert(Walker<'a>),
    Transfer(Walker<'a>),
    Suicide(Walker<'a>),
    Selfdestruct(Walker<'a>),
    ModifierInvocation(Walker<'a>),
    FunctionCall(Walker<'a>),
    IndexAccess(Walker<'a>),
    Unit(Walker<'a>),
    Empty,
}

/// Compound node
pub enum BlockNode<'a> {
    Root(Vec<CodeBlock<'a>>),
    IfStatement(IfStatement<'a>),
    WhileStatement(WhileStatement<'a>),
    ForStatement(ForStatement<'a>),
    DoWhileStatement(DoWhileStatement<'a>),
    ReturnStatement(ReturnStatement<'a>),
    Empty,
}

/// Components of a while statement
pub struct WhileStatement<'a> {
    /// While condition
    pub condition: CodeBlock<'a>,
    /// While body
    pub blocks: Vec<CodeBlock<'a>>,
}

/// Components of a do while statement
pub struct DoWhileStatement<'a> {
    /// Do while condition
    pub condition: CodeBlock<'a>,
    /// Do while body
    pub blocks: Vec<CodeBlock<'a>>,
}

/// Components of a if statement
pub struct IfStatement<'a> {
    /// If statement condition
    pub condition: CodeBlock<'a>,
    /// True block body
    pub tblocks: Vec<CodeBlock<'a>>,
    /// False block body
    pub fblocks: Vec<CodeBlock<'a>>,
}

/// Components of a For statement
pub struct ForStatement<'a> {
    /// For condition
    pub condition: CodeBlock<'a>,
    /// Initialize a variable
    pub init: CodeBlock<'a>,
    /// Comparison
    pub expression: CodeBlock<'a>,
    /// Body of for statement
    pub blocks: Vec<CodeBlock<'a>>,
}

/// Components of a return statement
pub struct ReturnStatement<'a> {
    /// The returned expression, or the whole statement
    pub body: CodeBlock<'a>,
}

impl<'a> SimpleBlockNode<'a> {
    /// The kind of the node.
    pub open spec fn kind(self) -> SimpleKind {
        match self {
            SimpleBlockNode::Throw(_) => SimpleKind::Throw,
            SimpleBlockNode::Break(_) => SimpleKind::Break,
            SimpleBlockNode::Continue(_) => SimpleKind::Continue,
            SimpleBlockNode::Require(_) => SimpleKind::Require,
            SimpleBlockNode::Assert(_) => SimpleKind::Assert,
            SimpleBlockNode::Revert(_) => SimpleKind::Revert,
            SimpleBlockNode::Transfer(_) => SimpleKind::Transfer,
            SimpleBlockNode::Suicide(_) => SimpleKind::Suicide,
            SimpleBlockNode::Selfdestruct(_) => SimpleKind::Selfdestruct,
            SimpleBlockNode::ModifierInvocation(_) => SimpleKind::ModifierInvocation,
            SimpleBlockNode::FunctionCall(_) => SimpleKind::FunctionCall,
            SimpleBlockNode::IndexAccess(_) => SimpleKind::IndexAccess,
            SimpleBlockNode::Unit(_) => SimpleKind::Unit,
            SimpleBlockNode::Empty => SimpleKind::Empty,
        }
    }

    /// The walker the node holds (an arbitrary one for `None`).
    pub open spec fn walker(self) -> Walker<'a> {
        match self {
            SimpleBlockNode::Throw(w) => w,
            SimpleBlockNode::Break(w) => w,
            SimpleBlockNode::Continue(w) => w,
            SimpleBlockNode::Require(w) => w,
            SimpleBlockNode::Assert(w) => w,
            SimpleBlockNode::Revert(w) => w,
            SimpleBlockNode::Transfer(w) => w,
            SimpleBlockNode::Suicide(w) => w,
            SimpleBlockNode::Selfdestruct(w) => w,
            SimpleBlockNode::ModifierInvocation(w) => w,
            SimpleBlockNode::FunctionCall(w) => w,
            SimpleBlockNode::IndexAccess(w) => w,
            SimpleBlockNode::Unit(w) => w,
            SimpleBlockNode::Empty => arbitrary(),
        }
    }

    /// Builds the node of kind `kind` around `w`.
    pub fn of_kind(kind: SimpleKind, w: Walker<'a>) -> (r: SimpleBlockNode<'a>)
        ensures
            r.kind() == kind,
            kind != SimpleKind::Empty ==> r.walker() == w,
    {
        match kind {
            SimpleKind::Throw => SimpleBlockNode::Throw(w),
            SimpleKind::Break => SimpleBlockNode::Break(w),
            SimpleKind::Continue => SimpleBlockNode::Continue(w),
            SimpleKind::Require => SimpleBlockNode::Require(w),
            SimpleKind::Assert => SimpleBlockNode::Assert(w),
            SimpleKind::Revert => SimpleBlockNode::Revert(w),
            SimpleKind::Transfer => SimpleBlockNode::Transfer(w),
            SimpleKind::Suicide => SimpleBlockNode::Suicide(w),
            SimpleKind::Selfdestruct => SimpleBlockNode::Selfdestruct(w),
            SimpleKind::ModifierInvocation => SimpleBlockNode::ModifierInvocation(w),
            SimpleKind::FunctionCall => SimpleBlockNode::FunctionCall(w),
            SimpleKind::IndexAccess => SimpleBlockNode::IndexAccess(w),
            SimpleKind::Unit => SimpleBlockNode::Unit(w),
            SimpleKind::Empty => SimpleBlockNode::Empty,
        }
    }
}

/// The nodes of `bs` are the kinds and nodes of `vs`, all read against `source`.
pub open spec fn simple_reads(bs: Seq<SimpleBlockNode>, vs: Seq<(SimpleKind, AstNode)>, source: Seq<char>) -> bool {
    &&& bs.len() == vs.len()
    &&& forall|i: int| 0 <= i < bs.len() ==> {
        &&& (#[trigger] bs[i]).kind() == vs[i].0
        &&& vs[i].0 != SimpleKind::Empty
        &&& bs[i].walker().tree_wf()
        &&& bs[i].walker().ast() == vs[i].1
        &&& bs[i].walker().source@ == source
    }
}

pub proof fn lemma_simple_reads_concat(b1: Seq<SimpleBlockNode>, v1: Seq<(SimpleKind, AstNode)>,
    b2: Seq<SimpleBlockNode>, v2: Seq<(SimpleKind, AstNode)>, source: Seq<char>)
    requires
        simple_reads(b1, v1, source),
        simple_reads(b2, v2, source),
    ensures
        simple_reads(b1 + b2, v1 + v2, source),
{
    assert forall|i: int| 0 <= i < (b1 + b2).len() implies {
        &&& (#[trigger] (b1 + b2)[i]).kind() == (v1 + v2)[i].0
        &&& (v1 + v2)[i].0 != SimpleKind::Empty
        &&& (b1 + b2)[i].walker().tree_wf()
        &&& (b1 + b2)[i].walker().ast() == (v1 + v2)[i].1
        &&& (b1 + b2)[i].walker().source@ == source
    } by {
        if i < b1.len() {
            assert((b1 + b2)[i] == b1[i]);
            assert((v1 + v2)[i] == v1[i]);
        } else {
            assert((b1 + b2)[i] == b2[i - b1.len()]);
            assert((v1 + v2)[i] == v2[i - b1.len()]);
        }
    }
}


/// A block of code as plain values: the nodes in place of the walkers.
pub enum CodeView {
    Block(AstNode),
    SimpleBlocks(Seq<(SimpleKind, AstNode)>),
    Link(Box<NodeView>),
    Empty,
}

/// A compound node as plain values.
pub enum NodeView {
    Root(Seq<CodeView>),
    IfStatement(Box<CodeView>, Seq<CodeView>, Seq<CodeView>),
    WhileStatement(Box<CodeView>, Seq<CodeView>),
    /// Condition, init, loop expression, body
    ForStatement(Box<CodeView>, Box<CodeView>, Box<CodeView>, Seq<CodeView>),
    DoWhileStatement(Box<CodeView>, Seq<CodeView>),
    ReturnStatement(Box<CodeView>),
    Empty,
}

/// `b` is the block `v`, its walkers read against `source`.
pub open spec fn code_matches(b: CodeBlock, v: CodeView, source: Seq<char>) -> bool
    decreases v,
{
    match v {
        CodeView::Block(n) => b matches CodeBlock::Block(w) && w.tree_wf() && w.ast() == n && w.source@ == source,
        CodeView::SimpleBlocks(vs) => b matches CodeBlock::SimpleBlocks(bs) && simple_reads(bs@, vs, source),
        CodeView::Link(nv) => b matches CodeBlock::Link(bn) && node_matches(*bn, *nv, source),
        CodeView::Empty => b matches CodeBlock::Empty,
    }
}

/// `bs` are the blocks `vs`.
pub open spec fn codes_match(bs: Seq<CodeBlock>, vs: Seq<CodeView>, source: Seq<char>) -> bool
    decreases vs,
{
    &&& bs.len() == vs.len()
    &&& forall|i: int| #![trigger vs[i]] 0 <= i < vs.len() ==> code_matches(bs[i], vs[i], source)
}

/// `b` is the compound node `v`.
pub open spec fn node_matches(b: BlockNode, v: NodeView, source: Seq<char>) -> bool
    decreases v,
{
    match v {
        NodeView::Root(vs) => b matches BlockNode::Root(bs) && codes_match(bs@, vs, source),
        NodeView::IfStatement(c, t, f) => b matches BlockNode::IfStatement(s)
            && code_matches(s.condition, *c, source) && codes_match(s.tblocks@, t, source)
            && codes_match(s.fblocks@, f, source),
        NodeView::WhileStatement(c, bl) => b matches BlockNode::WhileStatement(s)
            && code_matches(s.condition, *c, source) && codes_match(s.blocks@, bl, source),
        NodeView::ForStatement(c, i, e, bl) => b matches BlockNode::ForStatement(s)
            && code_matches(s.condition, *c, source) && code_matches(s.init, *i, source)
            && code_matches(s.expression, *e, source) && codes_match(s.blocks@, bl, source),
        NodeView::DoWhileStatement(c, bl) => b matches BlockNode::DoWhileStatement(s)
            && code_matches(s.condition, *c, source) && codes_match(s.blocks@, bl, source),
        NodeView::ReturnStatement(c) => b matches BlockNode::ReturnStatement(s) && code_matches(s.body, *c, source),
        NodeView::Empty => b matches BlockNode::Empty,
    }
}

pub proof fn lemma_codes_match_concat(b1: Seq<CodeBlock>, v1: Seq<CodeView>, b2: Seq<CodeBlock>, v2: Seq<CodeView>, source: Seq<char>)
    requires
        codes_match(b1, v1, source),
        codes_match(b2, v2, source),
    ensures
        codes_match(b1 + b2, v1 + v2, source),
{
    assert forall|i: int| #![trigger (v1 + v2)[i]] 0 <= i < (v1 + v2).len() implies code_matches((b1 + b2)[i], (v1 + v2)[i], source) by {
        if i < v1.len() {
            assert((b1 + b2)[i] == b1[i]);
            assert((v1 + v2)[i] == v1[i]);
        } else {
            assert((b1 + b2)[i] == b2[i - v1.len()]);
            assert((v1 + v2)[i] == v2[i - v1.len()]);
        }
    }
}
/// The kinds and nodes of primitive nodes.
pub open spec fn simple_view(bs: Seq<SimpleBlockNode>) -> Seq<(SimpleKind, AstNode)> {
    bs.map_values(|b: SimpleBlockNode| (b.kind(), b.walker().ast()))
}

/// Every node of `bs` holds a walker of a well formed tree read against `source`.
pub open spec fn simple_ok(bs: Seq<SimpleBlockNode>, source: Seq<char>) -> bool {
    forall|i: int| 0 <= i < bs.len() ==> {
        &&& (#[trigger] bs[i]).kind() != SimpleKind::Empty
        &&& bs[i].walker().tree_wf()
        &&& bs[i].walker().source@ == source
    }
}

pub proof fn lemma_simple_reads_view(bs: Seq<SimpleBlockNode>, vs: Seq<(SimpleKind, AstNode)>, source: Seq<char>)
    requires
        simple_reads(bs, vs, source),
    ensures
        simple_ok(bs, source),
        simple_view(bs) == vs,
{
    assert(simple_view(bs) =~= vs);
}

} // verus!
