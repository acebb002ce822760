use ssa::ast::{AstNode, AttrValue};
use ssa::shared::dict::Dictionary;
use ssa::cfg::flow::ControlFlowGraph;

struct Src(&'static str);

impl Src {
    fn span(&self, text: &str, nth: usize) -> String {
        let mut from = 0;
        let mut found = 0;
        for _ in 0..=nth {
            found = from + self.0[from..].find(text).expect("text in source");
            from = found + 1;
        }
        format!("{}:{}:0", found, text.len())
    }
}

fn node(id: u32, name: &str, src: String, attrs: Vec<(&str, AttrValue)>, children: Vec<AstNode>) -> AstNode {
    AstNode {
        id,
        name: name.to_string(),
        src,
        attributes: attrs.into_iter().map(|(k, v)| (k.to_string(), v)).collect(),
        children,
    }
}

fn s(v: &str) -> AttrValue {
    AttrValue::Str(v.to_string())
}

/// `contract C { function f(uint x) public { <body> } }` with `x` declared as
/// node 2, the body statement given.
fn function_unit(src: &Src, body_text: &str, stmt: AstNode) -> AstNode {
    let body = node(14, "Block", src.span(body_text, 0), vec![], vec![stmt]);
    let elementary = node(1, "ElementaryTypeName", src.span("uint", 0), vec![("name", s("uint"))], vec![]);
    let param = node(2, "VariableDeclaration", src.span("uint x", 0), vec![("name", s("x")), ("type", s("uint256"))],
        vec![elementary]);
    let params = node(3, "ParameterList", src.span("(uint x)", 0), vec![], vec![param]);
    let returns = node(4, "ParameterList", src.span("public", 0), vec![], vec![]);
    let function = node(15, "FunctionDefinition", src.span("function", 0), vec![("name", s("f"))],
        vec![params, returns, body]);
    let contract = node(19, "ContractDefinition", src.span(src.0, 0), vec![("name", s("C"))], vec![function]);
    node(20, "SourceUnit", src.span(src.0, 0), vec![], vec![contract])
}

fn ident(src: &Src, id: u32, nth: usize) -> AstNode {
    node(id, "Identifier", src.span("x", nth), vec![("value", s("x")), ("referencedDeclaration", AttrValue::Uint(2))], vec![])
}

fn edges_of(cfg: &ControlFlowGraph) -> Vec<(u32, u32)> {
    cfg.get_edges().iter().map(|e| (e.from, e.to)).collect()
}

const WHILE_SRC: Src = Src("contract C { function f(uint x) public { while (x > 1) x = 2; } }");

fn while_unit() -> AstNode {
    let src = &WHILE_SRC;
    let cond = node(8, "BinaryOperation", src.span("x > 1", 0), vec![("operator", s(">"))],
        vec![ident(src, 6, 1), node(7, "Literal", src.span("1", 0), vec![("value", s("1"))], vec![])]);
    let assign = node(11, "Assignment", src.span("x = 2", 0), vec![("operator", s("="))],
        vec![ident(src, 9, 2), node(10, "Literal", src.span("2", 0), vec![("value", s("2"))], vec![])]);
    let stmt = node(12, "ExpressionStatement", src.span("x = 2;", 0), vec![], vec![assign]);
    let w = node(13, "WhileStatement", src.span("while (x > 1) x = 2;", 0), vec![], vec![cond, stmt]);
    function_unit(src, "{ while (x > 1) x = 2; }", w)
}

#[test]
fn while_body_loops_back_to_condition() {
    let units = vec![(while_unit(), WHILE_SRC.0.to_string())];
    let dict = Dictionary::new(&units);
    let cfg = ControlFlowGraph::new(&dict, 19, 15).expect("graph is built");
    let stop = cfg.get_stop();
    let edges = edges_of(&cfg);
    assert_eq!(edges.len(), 5);
    assert!(edges.contains(&(8, 12)));
    assert!(edges.contains(&(12, 8)));
    assert!(edges.contains(&(8, stop)));
    assert_eq!(cfg.get_vertices().len(), 5);
    let start = cfg.get_start();
    let mut paths = cfg.get_execution_paths().clone();
    paths.sort();
    // the condition is entered at most twice on a path
    assert_eq!(paths, vec![vec![start, 2, 8, 12, 8, stop], vec![start, 2, 8, stop]]);
}

const BREAK_SRC: Src = Src("contract C { function f(uint x) public { while (x > 1) { break; } } }");

fn break_unit() -> AstNode {
    let src = &BREAK_SRC;
    let cond = node(8, "BinaryOperation", src.span("x > 1", 0), vec![("operator", s(">"))],
        vec![ident(src, 6, 1), node(7, "Literal", src.span("1", 0), vec![("value", s("1"))], vec![])]);
    let brk = node(9, "Break", src.span("break;", 0), vec![], vec![]);
    let inner = node(10, "Block", src.span("{ break; }", 0), vec![], vec![brk]);
    let w = node(13, "WhileStatement", src.span("while (x > 1) { break; }", 0), vec![], vec![cond, inner]);
    function_unit(src, "{ while (x > 1) { break; } }", w)
}

#[test]
fn break_leaves_the_loop() {
    let units = vec![(break_unit(), BREAK_SRC.0.to_string())];
    let dict = Dictionary::new(&units);
    let cfg = ControlFlowGraph::new(&dict, 19, 15).expect("graph is built");
    let stop = cfg.get_stop();
    let edges = edges_of(&cfg);
    assert!(edges.contains(&(8, 9)));
    assert!(edges.contains(&(9, stop)));
    assert!(edges.contains(&(8, stop)));
    assert!(!edges.contains(&(9, 8)));
    assert_eq!(edges.len(), 5);
}

const INLINE_SRC: Src = Src("contract C { function f(uint x) public { assembly { } } }");

#[test]
fn inline_assembly_is_not_built() {
    let src = &INLINE_SRC;
    let assembly = node(13, "InlineAssemblyStatement", src.span("assembly { }", 0), vec![], vec![]);
    let unit = function_unit(src, "{ assembly { } }", assembly);
    let units = vec![(unit, INLINE_SRC.0.to_string())];
    let dict = Dictionary::new(&units);
    assert!(ControlFlowGraph::new(&dict, 19, 15).is_none());
}
