use ssa::ast::{AstNode, AttrValue};
use ssa::shared::dict::Dictionary;
use ssa::cfg::flow::ControlFlowGraph;
use ssa::cfg::splitter::Splitter;
use ssa::cfg::graph::Graph;
use ssa::cfg::block::SimpleBlockNode;
use ssa::shared::walker::Walker;

const SOURCE: &str = "contract C { function f(uint x) public { if (x > 1) x = 2; } }";

fn span(text: &str, nth: usize) -> String {
    let mut from = 0;
    let mut found = 0;
    for _ in 0..=nth {
        found = from + SOURCE[from..].find(text).expect("text in source");
        from = found + 1;
    }
    format!("{}:{}:0", found, text.len())
}

fn node(id: u32, name: &str, src: String, attrs: Vec<(&str, AttrValue)>, children: Vec<AstNode>) -> AstNode {
    AstNode {
        id,
        name: name.to_string(),
        src,
        attributes: attrs.into_iter().map(|(k, v)| (k.to_string(), v)).collect(),
        children,
    }
}

fn s(v: &str) -> AttrValue {
    AttrValue::Str(v.to_string())
}

fn if_unit() -> AstNode {
    let ident_cond = node(6, "Identifier", span("x", 1), vec![("value", s("x")), ("referencedDeclaration", AttrValue::Uint(2))], vec![]);
    let one = node(7, "Literal", span("1", 0), vec![("value", s("1"))], vec![]);
    let cond = node(8, "BinaryOperation", span("x > 1", 0), vec![("operator", s(">"))], vec![ident_cond, one]);
    let ident_lhs = node(9, "Identifier", span("x", 2), vec![("value", s("x")), ("referencedDeclaration", AttrValue::Uint(2))], vec![]);
    let two = node(10, "Literal", span("2", 0), vec![("value", s("2"))], vec![]);
    let assign = node(11, "Assignment", span("x = 2", 0), vec![("operator", s("="))], vec![ident_lhs, two]);
    let stmt = node(12, "ExpressionStatement", span("x = 2;", 0), vec![], vec![assign]);
    let if_stmt = node(13, "IfStatement", span("if (x > 1) x = 2;", 0), vec![], vec![cond, stmt]);
    let body = node(14, "Block", span("{ if (x > 1) x = 2; }", 0), vec![], vec![if_stmt]);
    let elementary = node(1, "ElementaryTypeName", span("uint", 0), vec![("name", s("uint"))], vec![]);
    let param = node(2, "VariableDeclaration", span("uint x", 0), vec![("name", s("x")), ("type", s("uint256"))], vec![elementary]);
    let params = node(3, "ParameterList", span("(uint x)", 0), vec![], vec![param]);
    let returns = node(4, "ParameterList", span("public", 0), vec![], vec![]);
    let function = node(15, "FunctionDefinition", span("function f(uint x) public { if (x > 1) x = 2; }", 0),
        vec![("name", s("f"))], vec![params, returns, body]);
    let contract = node(19, "ContractDefinition", span(SOURCE, 0), vec![("name", s("C"))], vec![function]);
    node(20, "SourceUnit", span(SOURCE, 0), vec![], vec![contract])
}

#[test]
fn if_without_else_reaches_stop_from_condition() {
    let units = vec![(if_unit(), SOURCE.to_string())];
    let dict = Dictionary::new(&units);
    let cfg = ControlFlowGraph::new(&dict, 19, 15).expect("graph is built");
    let start = cfg.get_start();
    let stop = cfg.get_stop();
    assert_eq!(start, 1500000);
    assert_eq!(stop, 1500001);
    let edges: Vec<(u32, u32)> = cfg.get_edges().iter().map(|e| (e.from, e.to)).collect();
    assert_eq!(edges.len(), 5);
    assert!(edges.contains(&(start, 2)));
    assert!(edges.contains(&(2, 8)));
    assert!(edges.contains(&(8, 12)));
    assert!(edges.contains(&(12, stop)));
    assert!(edges.contains(&(8, stop)));
    let vertices = cfg.get_vertices();
    assert_eq!(vertices.len(), 5);
    assert_eq!(vertices[&8].source, "x > 1");
    assert_eq!(vertices[&12].source, "x = 2;");
    let mut paths: Vec<Vec<u32>> = cfg.get_execution_paths().clone();
    paths.sort();
    assert_eq!(paths, vec![vec![start, 2, 8, 12, stop], vec![start, 2, 8, stop]]);
    assert_eq!(cfg.get_parameters()[&15], vec![2]);
}

#[test]
fn unknown_function_builds_no_graph() {
    let units = vec![(if_unit(), SOURCE.to_string())];
    let dict = Dictionary::new(&units);
    assert!(ControlFlowGraph::new(&dict, 19, 77).is_none());
}

#[test]
fn dictionary_finds_nodes_by_id() {
    let units = vec![(if_unit(), SOURCE.to_string())];
    let dict = Dictionary::new(&units);
    let w = dict.walker_at(8).expect("condition is an entry");
    assert_eq!(w.node.id, 8);
    assert_eq!(w.node.source, "x > 1");
    assert!(dict.walker_at(20).is_none());
    assert_eq!(dict.lookup(12).map(|w| w.node.id), Some(12));
    assert_eq!(dict.filter_by("Identifier").len(), 2);
}

#[test]
fn statement_without_calls_is_one_unit() {
    let unit = if_unit();
    let stmt = &unit.children[0].children[0].children[2].children[0].children[1];
    let w = Walker::new(stmt, SOURCE);
    let parts = Splitter::new().split(w);
    assert_eq!(parts.len(), 1);
    assert!(matches!(parts[0], SimpleBlockNode::Unit(_)));
    let parts = Graph::split(Walker::new(stmt, SOURCE));
    assert_eq!(parts.len(), 1);
    assert!(matches!(parts[0], SimpleBlockNode::Unit(_)));
}

use ssa::graph::vertex::{Vertex as GraphVertex, Shape as GraphShape};
use ssa::graph::state::State as GraphState;
use ssa::dfg::flow::DataFlowGraph;
use ssa::analyzer::analyzer::{Analyzer, State as AnalyzerState};
use ssa::analyzer::dot::Dot;
use ssa::analyzer::flow::{DataFlowGraph as FlowAnalyzer, STOP};
use ssa::analyzer::runner::{Handler, run_analyzers};
use ssa::shared::smart_contract::SmartContractQuery;
use ssa::shared::access::IndexAccess;
use ssa::shared::parameter::Parameter;
use ssa::shared::assignment::Operator;
use ssa::shared::dfg::utils::{normalize_kind, find_root_walker};

fn flow_vertices(start: u32, stop: u32) -> Vec<GraphVertex> {
    vec![
        GraphVertex::new(start, "", GraphShape::Point),
        GraphVertex::new(2, "uint x", GraphShape::Box),
        GraphVertex::new(8, "x > 1", GraphShape::Diamond),
        GraphVertex::new(12, "x = 2;", GraphShape::Box),
        GraphVertex::new(stop, "", GraphShape::Point),
    ]
}

fn flow_edges(start: u32, stop: u32) -> Vec<(u32, u32)> {
    vec![(start, 2), (2, 8), (8, 12), (12, stop), (8, stop)]
}

#[test]
fn condition_reads_the_declared_parameter() {
    let units = vec![(if_unit(), SOURCE.to_string())];
    let dict = Dictionary::new(&units);
    let vertices = flow_vertices(1500000, 1500001);
    let edges = flow_edges(1500000, 1500001);
    let state = GraphState::new(1500001, &edges, &vertices, &dict);
    let links = DataFlowGraph::new(&state).find_links().expect("links are found");
    let pairs: Vec<(u32, u32)> = links.iter().map(|l| (l.from, l.to)).collect();
    assert!(pairs.contains(&(8, 2)));
    for l in &links {
        assert!(vertices.iter().any(|v| v.id == l.from));
        assert!(vertices.iter().any(|v| v.id == l.to));
    }
}

#[test]
fn analyzers_fill_links_and_dot_text() {
    let units = vec![(if_unit(), SOURCE.to_string())];
    let dict = Dictionary::new(&units);
    let vertices = flow_vertices(900000, STOP);
    let edges = flow_edges(900000, STOP);
    let mut state = AnalyzerState { stop: STOP, edges: &edges, vertices: &vertices, dict: &dict, links: None };
    let mut flow = FlowAnalyzer::new();
    flow.analyze(&mut state);
    let links = state.links.as_ref().expect("links are found");
    assert!(links.iter().any(|l| l.from == 8 && l.to == 2));
    let mut dot = Dot::new(std::path::PathBuf::from("graph.dot"));
    dot.analyze(&mut state);
    assert!(dot.data.starts_with("digraph {\n900000[label=\"\", shape=\"point\"];2[label=\"uint x\", shape=\"box\"];"));
    assert!(dot.data.contains("  8 -> 12;\n"));
    assert!(dot.data.contains("  8 -> 2[label=\"x\", style=dotted];\n"));
    assert!(dot.data.ends_with("}"));
}

#[test]
fn contract_finds_its_functions() {
    let units = vec![(if_unit(), SOURCE.to_string())];
    let dict = Dictionary::new(&units);
    assert_eq!(dict.find_ids(SmartContractQuery::FunctionsByContractId(19)), vec![15]);
    assert_eq!(dict.find_ids(SmartContractQuery::StatesByContractId(19)), Vec::<u32>::new());
    assert_eq!(dict.find_ids(SmartContractQuery::ContractByName("C".to_string())), vec![19]);
    assert_eq!(dict.smart_contract.find(SmartContractQuery::FunctionsByContractId(20)), None);
}

#[test]
fn call_arguments_and_index_parts() {
    let units = vec![(if_unit(), SOURCE.to_string())];
    let dict = Dictionary::new(&units);
    let cond = dict.walker_at(8).unwrap();
    let params = Parameter::parse(cond, &dict).expect("parsed");
    assert_eq!(params.len(), 0);
    let accesses = IndexAccess::parse(cond, &dict).expect("parsed");
    assert_eq!(accesses.len(), 0);
    let stmt = dict.walker_at(12).unwrap();
    let one = Parameter::parse_one(stmt, &dict).expect("parsed");
    assert_eq!(one.get_assignments().len(), 1);
    assert_eq!(one.get_variables().len(), 1);
    assert_eq!(one.get_variables()[0].source, "x");
    let (lhs, rhs, op) = one.get_assignments()[0].to_tuple();
    assert_eq!(lhs.len(), 1);
    assert_eq!(lhs[0].source, "x");
    assert_eq!(rhs.len(), 0);
    assert!(*op == Operator::Equal);
}

#[test]
fn declaration_type_is_normalized() {
    let units = vec![(if_unit(), SOURCE.to_string())];
    let dict = Dictionary::new(&units);
    let decl = dict.walker_at(2).unwrap();
    assert_eq!(normalize_kind(decl), "uint256");
    let ident = dict.walker_at(9).unwrap();
    let root = find_root_walker(ident, &dict);
    assert_eq!(root.map(|w| w.node.id), Some(9));
    let assign = dict.walker_at(11).unwrap();
    assert_eq!(find_root_walker(assign, &dict).map(|w| w.node.id), Some(9));
}

#[test]
fn every_edge_joins_two_vertices() {
    let units = vec![(if_unit(), SOURCE.to_string())];
    let dict = Dictionary::new(&units);
    let cfg = ControlFlowGraph::new(&dict, 19, 15).expect("graph is built");
    let vertices = cfg.get_vertices();
    for e in cfg.get_edges() {
        assert!(vertices.contains_key(&e.from));
        assert!(vertices.contains_key(&e.to));
    }
    for p in cfg.get_execution_paths() {
        assert_eq!(p[0], cfg.get_start());
        assert_eq!(*p.last().unwrap(), cfg.get_stop());
        for w in p.windows(2) {
            assert!(cfg.get_edges().iter().any(|e| e.from == w[0] && e.to == w[1]));
        }
    }
}

#[test]
fn contract_lookup_after_update() {
    let units = vec![(if_unit(), SOURCE.to_string())];
    let dict = Dictionary::new(&units);
    let functions = dict.smart_contract.find(SmartContractQuery::FunctionsByContractId(19)).expect("contract known");
    assert_eq!(functions[0], 15);
    assert_eq!(dict.smart_contract.find(SmartContractQuery::ContractByName("C".to_string())), Some(vec![19]));
    assert_eq!(dict.smart_contract.find(SmartContractQuery::StructByName("S".to_string())), None);
}


#[test]
fn analyzers_run_in_order() {
    let units = vec![(if_unit(), SOURCE.to_string())];
    let dict = Dictionary::new(&units);
    let vertices = flow_vertices(900000, STOP);
    let edges = flow_edges(900000, STOP);
    let mut state = AnalyzerState { stop: STOP, edges: &edges, vertices: &vertices, dict: &dict, links: None };
    let mut handlers = vec![
        Handler::Dot(Dot::new(std::path::PathBuf::from("before.dot"))),
        Handler::DataFlow(FlowAnalyzer::new()),
        Handler::Dot(Dot::new(std::path::PathBuf::from("after.dot"))),
    ];
    run_analyzers(&mut state, &mut handlers);
    assert!(state.links.as_ref().unwrap().iter().any(|l| l.from == 8 && l.to == 2));
    match (&handlers[0], &handlers[2]) {
        (Handler::Dot(before), Handler::Dot(after)) => {
            assert!(!before.data.contains("style=dotted"));
            assert!(after.data.contains("  8 -> 2[label=\"x\", style=dotted];\n"));
        },
        _ => panic!("handlers keep their kind"),
    }
}

fn reached(edges: &[(u32, u32)], from: u32, to: u32) -> bool {
    let mut seen = vec![from];
    let mut i = 0;
    while i < seen.len() {
        let x = seen[i];
        for &(a, b) in edges {
            if a == x && !seen.contains(&b) {
                seen.push(b);
            }
        }
        i += 1;
    }
    seen.contains(&to)
}

#[test]
fn links_lead_from_a_box_to_the_use() {
    let units = vec![(if_unit(), SOURCE.to_string())];
    let dict = Dictionary::new(&units);
    let vertices = flow_vertices(1600000, 1600001);
    let edges = flow_edges(1600000, 1600001);
    let state = GraphState::new(1600001, &edges, &vertices, &dict);
    let links = DataFlowGraph::new(&state).find_links().expect("links are found");
    assert!(!links.is_empty());
    for l in &links {
        assert!(vertices.iter().any(|v| v.id == l.to && matches!(v.shape, GraphShape::Box)));
        assert!(reached(&edges, l.to, l.from));
    }
}
