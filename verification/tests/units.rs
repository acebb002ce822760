use ssa::ast::{AstNode, AttrValue};
use ssa::loader::solidity::{solc_version, solc_url};
use ssa::shared::variable::{Member, Variable, VariableComparison};
use ssa::shared::dfg::variable::Variable as FlowVariable;
use ssa::shared::dfg::common::Member as FlowMember;
use ssa::shared::dfg::utils::{normalize_kind, returned_kind};
use ssa::shared::walker::{Walker, node_fits, tree_fits};
use ssa::shared::vertex::{Vertex, Shape};
use ssa::shared::edge::Edge;
use ssa::graph::edge::Edge as GraphEdge;
use ssa::graph::vertex::{Vertex as GraphVertex, Shape as GraphShape};
use ssa::dot::vertex::DotVertex;
use ssa::components::function_definition::FunctionDefinition;
use ssa::components::state_variable_declaration::StateVariableDeclaration;

#[test]
fn version_from_pragma() {
    assert_eq!(solc_version("pragma solidity ^0.4.21;\ncontract A {}"), "v0.4.21");
    assert_eq!(solc_version("  \n\tpragma solidity ^0.5.0; contract B {}"), "v0.5.0");
    assert_eq!(solc_version("pragma solidity ^0.4.18"), "v0.4.18");
}

#[test]
fn version_defaults_without_caret_pragma() {
    assert_eq!(solc_version("contract A {}"), "v0.4.24");
    assert_eq!(solc_version("pragma solidity >=0.4.0;"), "v0.4.24");
    assert_eq!(solc_version(""), "v0.4.24");
}

#[test]
fn compiler_url_of_release() {
    assert_eq!(solc_url("v0.4.24"), "https://github.com/ethereum/solidity/releases/download/v0.4.24/solc-static-linux");
}

fn var(members: Vec<Member>, source: &str) -> Variable {
    Variable { members, source: source.to_string() }
}

#[test]
fn variables_compare_by_members() {
    let a = var(vec![Member::Reference(3)], "a");
    let a_field = var(vec![Member::Global("length".to_string()), Member::Reference(3)], "a.length");
    let b = var(vec![Member::Reference(4)], "b");
    assert_eq!(a.contains(&a), VariableComparison::Equal);
    assert_eq!(a.contains(&a_field), VariableComparison::Partial);
    assert_eq!(a_field.contains(&a), VariableComparison::Partial);
    assert_eq!(var(vec![Member::Reference(5), Member::Reference(3)], "c.a").contains(&a_field), VariableComparison::NotEqual);
    assert_eq!(a.contains(&b), VariableComparison::NotEqual);
    assert!(a.same(&var(vec![Member::Reference(3)], "a")));
    assert!(!a.same(&var(vec![Member::Reference(3)], "b")));
}

fn flow_var(members: Vec<FlowMember>, source: &str) -> FlowVariable {
    FlowVariable::new(members, source.to_string(), "uint256".to_string(), String::new())
}

#[test]
fn flow_variables_compare_by_prefix() {
    let a = flow_var(vec![FlowMember::Reference(3)], "a");
    let a_index = flow_var(vec![FlowMember::Reference(3), FlowMember::IndexAccess], "a[i]");
    let b = flow_var(vec![FlowMember::Reference(4)], "b");
    assert_eq!(a.contains(&a), VariableComparison::Equal);
    assert_eq!(a.contains(&a_index), VariableComparison::Partial);
    assert_eq!(a_index.contains(&a), VariableComparison::Partial);
    assert_eq!(a.contains(&b), VariableComparison::NotEqual);
    assert_eq!(a.get_kind(), "uint256");
    assert_eq!(a_index.get_source(), "a[i]");
}

fn typed(type_str: &str) -> AstNode {
    AstNode {
        id: 1,
        name: "Identifier".to_string(),
        src: "0:1:0".to_string(),
        attributes: vec![("type".to_string(), AttrValue::Str(type_str.to_string()))],
        children: vec![],
    }
}

#[test]
fn kinds_are_normalized() {
    let n = typed("uint256[] storage ref");
    assert_eq!(normalize_kind(&Walker::new(&n, "x")), "uint256[]");
    let n = typed("struct S memory");
    assert_eq!(normalize_kind(&Walker::new(&n, "x")), "struct S");
    let n = typed("function (uint256) pure returns (bool)");
    assert_eq!(normalize_kind(&Walker::new(&n, "x")), "bool");
    let n = typed("function (uint256) pure returns (uint256[] memory)");
    assert_eq!(normalize_kind(&Walker::new(&n, "x")), "uint256[]");
    let n = typed("function ()");
    assert_eq!(normalize_kind(&Walker::new(&n, "x")), "void");
    let mut n = typed("");
    n.attributes.clear();
    assert_eq!(normalize_kind(&Walker::new(&n, "x")), "");
}

#[test]
fn returned_kind_of_capture() {
    assert_eq!(returned_kind(Some("bool".to_string())), "bool");
    assert_eq!(returned_kind(None), "void");
}

#[test]
fn vertex_and_edge_getters() {
    let v = Vertex::new(7, "x = 1;", Shape::Require, 2);
    assert_eq!(v.get_id(), 7);
    assert_eq!(v.get_source(), "x = 1;");
    assert_eq!(*v.get_shape(), Shape::Require);
    assert_eq!(v.get_level(), 2);
    assert!(v.is_condition());
    assert!(v.is_stop());
    assert!(v.is_function_call());
    assert!(!Vertex::new(8, "", Shape::Statement, 0).is_stop());
    let e = Edge::new(3, 4);
    assert_eq!((e.get_from(), e.get_to()), (3, 4));
    assert_eq!(GraphEdge::new(5, 6).to_tuple(), (5, 6));
    let g = GraphVertex::new(9, "a = b", GraphShape::Mdiamond);
    assert_eq!(g.to_tuple(), (9, "a = b".to_string(), "Mdiamond".to_string()));
}

#[test]
fn dot_vertex_line_quotes_label() {
    let line = DotVertex::from((12, "say(\"hi\")".to_string(), "box".to_string())).format();
    assert_eq!(line, "12[label=\"say(\\\"hi\\\")\", shape=\"box\"];");
}

#[test]
fn components_start_empty() {
    assert!(FunctionDefinition::new().report("contract A {}").is_empty());
    assert_eq!(StateVariableDeclaration::new().level, 0);
}

#[test]
fn source_ranges_fit_the_text() {
    let mut n = typed("uint256");
    assert!(node_fits(&n, "x"));
    assert!(tree_fits(&n, "x"));
    n.src = "0:2:0".to_string();
    assert!(!node_fits(&n, "x"));
    n.src = "1:1:0".to_string();
    assert!(!node_fits(&n, "é"));
    assert!(node_fits(&n, "ab"));
    n.src = "0:1".to_string();
    assert!(node_fits(&n, "a"));
    n.src = "0".to_string();
    assert!(!node_fits(&n, "a"));
    n.src = "0:1:x".to_string();
    assert!(!node_fits(&n, "a"));
    let mut parent = typed("uint256");
    let mut child = typed("uint256");
    child.src = "5:1:0".to_string();
    parent.children.push(child);
    assert!(node_fits(&parent, "x"));
    assert!(!tree_fits(&parent, "x"));
}
