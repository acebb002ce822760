use std::collections::HashSet;
use ssa::ast::{AstNode, AttrValue};
use ssa::shared::dict::Dictionary;
use ssa::shared::dfg::fakenode::FakeNode;
use ssa::shared::dfg::index_use::IndexUse;
use ssa::shared::dfg::function_use::FunctionUse;
use ssa::shared::dfg::common::{Member, Operator};
use ssa::shared::variable::Variable;
use ssa::shared::assignment::Assignment;

const SRC: &str = "contract C { uint[] a; function g() returns (uint r) {} function f(uint x) { a[x] = g(); } }";

/// The range of `text`, searched from the place of `anchor`.
fn sp(text: &str, anchor: &str) -> String {
    let from = SRC.find(anchor).expect("anchor in source");
    let at = from + SRC[from..].find(text).expect("text in source");
    format!("{}:{}:0", at, text.len())
}

fn node(id: u32, name: &str, src: String, attrs: Vec<(&str, AttrValue)>, children: Vec<AstNode>) -> AstNode {
    AstNode {
        id,
        name: name.to_string(),
        src,
        attributes: attrs.into_iter().map(|(k, v)| (k.to_string(), v)).collect(),
        children,
    }
}

fn s(v: &str) -> AttrValue {
    AttrValue::Str(v.to_string())
}

fn unit() -> AstNode {
    let state = node(10, "VariableDeclaration", sp("uint[] a", "uint[] a"), vec![("name", s("a")), ("type", s("uint256[] storage ref"))], vec![]);
    let r = node(23, "VariableDeclaration", sp("uint r", "uint r"), vec![("name", s("r")), ("type", s("uint256"))], vec![]);
    let g = node(20, "FunctionDefinition", sp("function g() returns (uint r) {}", "function g"), vec![("name", s("g"))], vec![
        node(21, "ParameterList", sp("()", "function g"), vec![], vec![]),
        node(22, "ParameterList", sp("(uint r)", "function g"), vec![], vec![r]),
        node(24, "Block", sp("{}", "function g"), vec![], vec![]),
    ]);
    let index = node(37, "IndexAccess", sp("a[x]", "a[x]"), vec![("type", s("uint256"))], vec![
        node(38, "Identifier", sp("a", "a[x]"), vec![("value", s("a")), ("referencedDeclaration", AttrValue::Uint(10))], vec![]),
        node(39, "Identifier", sp("x", "a[x]"), vec![("value", s("x")), ("referencedDeclaration", AttrValue::Uint(32))], vec![]),
    ]);
    let call = node(40, "FunctionCall", sp("g()", "= g()"), vec![("type", s("uint256"))], vec![
        node(41, "Identifier", sp("g", "= g()"), vec![("value", s("g")), ("referencedDeclaration", AttrValue::Uint(20)),
            ("type", s("function () returns (uint256)"))], vec![]),
    ]);
    let assign = node(36, "Assignment", sp("a[x] = g()", "a[x]"), vec![("operator", s("=")), ("type", s("uint256"))], vec![index, call]);
    let stmt = node(35, "ExpressionStatement", sp("a[x] = g();", "a[x]"), vec![], vec![assign]);
    let x = node(32, "VariableDeclaration", sp("uint x", "uint x"), vec![("name", s("x")), ("type", s("uint256"))], vec![]);
    let f = node(30, "FunctionDefinition", sp("function f(uint x) { a[x] = g(); }", "function f"), vec![("name", s("f"))], vec![
        node(31, "ParameterList", sp("(uint x)", "function f"), vec![], vec![x]),
        node(33, "ParameterList", sp("function", "function f"), vec![], vec![]),
        node(34, "Block", sp("{ a[x] = g(); }", "function f"), vec![], vec![stmt]),
    ]);
    let contract = node(49, "ContractDefinition", sp(SRC, SRC), vec![("name", s("C"))], vec![state, g, f]);
    node(50, "SourceUnit", sp(SRC, SRC), vec![], vec![contract])
}

fn globals(members: &Vec<Member>) -> Vec<String> {
    members.iter().map(|m| match m {
        Member::Global(g) => g.clone(),
        Member::Reference(r) => format!("ref {}", r),
        Member::IndexAccess => "[]".to_string(),
        Member::Shortcut(r) => format!("shortcut {}", r),
    }).collect()
}

#[test]
fn nested_call_is_read_as_fake_variable() {
    let units = vec![(unit(), SRC.to_string())];
    let dict = Dictionary::new(&units);
    let stmt = dict.walker_at(35).unwrap();
    let fakes = FakeNode::parse(stmt, &dict);
    assert_eq!(fakes.len(), 1);
    assert!(fakes[0].get_assignments().is_empty());
    let vars = fakes[0].get_variables();
    assert_eq!(vars.len(), 1);
    assert_eq!(globals(&vars[0].members), vec!["fake_40".to_string()]);
    assert_eq!(vars[0].source, "fake_40 = g()");
    let call = dict.walker_at(40).unwrap();
    let fakes = FakeNode::parse(call, &dict);
    assert_eq!(fakes.len(), 1);
    assert!(fakes[0].get_variables().is_empty());
    let asg = &fakes[0].get_assignments()[0];
    assert_eq!(globals(&asg.lhs[0].members), vec!["fake_40".to_string()]);
    assert!(asg.rhs.is_empty());
    assert!(asg.op == Operator::Equal);
    let one = FakeNode::parse_one(call, false);
    assert_eq!(one.get_variables()[0].source, "fake_40 = g()");
}

#[test]
fn index_access_is_read_as_global_of_its_id() {
    let units = vec![(unit(), SRC.to_string())];
    let dict = Dictionary::new(&units);
    let stmt = dict.walker_at(35).unwrap();
    let uses = IndexUse::parse(stmt, &dict);
    assert_eq!(uses.len(), 1);
    assert!(uses[0].get_assignments().is_empty());
    let vars = uses[0].get_variables();
    assert_eq!(vars.len(), 1);
    assert_eq!(globals(&vars[0].members), vec!["37".to_string()]);
    assert_eq!(vars[0].source, "a[x]");
    assert_eq!(vars[0].kind, "uint256");
    let index = dict.walker_at(37).unwrap();
    let uses = IndexUse::parse(index, &dict);
    assert_eq!(uses[0].get_assignments().len(), 1);
    assert_eq!(uses[0].get_assignments()[0].lhs[0].source, "a[x]");
}

#[test]
fn call_is_read_as_returned_parameter() {
    let units = vec![(unit(), SRC.to_string())];
    let dict = Dictionary::new(&units);
    let stmt = dict.walker_at(35).unwrap();
    let uses = FunctionUse::parse(stmt, &dict);
    assert_eq!(uses.len(), 1);
    let vars = uses[0].get_variables();
    assert_eq!(vars.len(), 1);
    assert_eq!(globals(&vars[0].members), vec!["ref 23".to_string()]);
    assert_eq!(vars[0].source, "g()");
    assert_eq!(vars[0].kind, "uint256");
    let call = dict.walker_at(40).unwrap();
    let uses = FunctionUse::parse(call, &dict);
    assert_eq!(uses[0].get_assignments().len(), 1);
    assert!(uses[0].get_variables().is_empty());
    let own = dict.walker_at(41).unwrap();
    let v = FunctionUse::to_var(own, &dict);
    assert_eq!(globals(&v.members), vec!["ref 41".to_string()]);
    assert_eq!(v.kind, "uint256");
}

#[test]
fn visited_nodes_are_read_once() {
    let units = vec![(unit(), SRC.to_string())];
    let dict = Dictionary::new(&units);
    let stmt = dict.walker_at(35).unwrap();
    let mut visited = HashSet::new();
    let first = Variable::parse(stmt, &dict, &mut visited);
    assert!(!first.is_empty());
    let again = Variable::parse(stmt, &dict, &mut visited);
    assert!(again.is_empty());
    let mut visited = HashSet::new();
    let asg = Assignment::parse(stmt, &dict, &mut visited).expect("assignments read");
    assert_eq!(asg.len(), 1);
    assert!(visited.contains(&36));
    let again = Assignment::parse(stmt, &dict, &mut visited).expect("assignments read");
    assert!(again.is_empty());
    let mut seen: HashSet<u32> = HashSet::new();
    seen.insert(35);
    assert!(Variable::parse(stmt, &dict, &mut seen).is_empty());
}


#[test]
fn combined_json_is_read_into_units() {
    let out = r#"{"sources": {"a.sol": {"AST": {"id": 3, "name": "SourceUnit", "src": "0:12:0",
        "attributes": {"absolutePath": "a.sol", "exportedSymbols": [1, true, null], "level": -1},
        "children": [{"id": 2, "name": "ContractDefinition", "src": "0:12:0", "attributes": {"name": "A"}}]}}}}"#;
    let files = vec![("a.sol".to_string(), "contract A{}".to_string())];
    let units = ssa::loader::json_ast::units_of_json(out, &files).expect("read");
    assert_eq!(units.len(), 1);
    assert_eq!(units[0].1, "contract A{}");
    let root = &units[0].0;
    assert_eq!((root.id, root.name.as_str(), root.src.as_str()), (3, "SourceUnit", "0:12:0"));
    assert_eq!(root.children.len(), 1);
    assert_eq!(root.children[0].id, 2);
    assert!(root.attributes.iter().any(|(k, v)| k == "absolutePath" && matches!(v, AttrValue::Str(s) if s == "a.sol")));
    assert!(root.attributes.iter().any(|(k, v)| k == "level" && matches!(v, AttrValue::Other)));
    assert!(root.attributes.iter().any(|(k, v)| k == "exportedSymbols" && matches!(v, AttrValue::List(l)
        if matches!(l[..], [AttrValue::Uint(1), AttrValue::Bool(true), AttrValue::Null]))));
    assert!(ssa::loader::json_ast::units_of_json("not json", &files).is_none());
    let missing = r#"{"sources": {"a.sol": {"AST": {"name": "SourceUnit", "src": "0:12:0"}}}}"#;
    assert!(ssa::loader::json_ast::units_of_json(missing, &files).is_none());
}

#[test]
fn parsed_output_is_read_by_file_name() {
    let out = r#"{"sources": {"b.sol": {"AST": {"id": 9, "name": "SourceUnit", "src": "0:3:1", "attributes": {"flag": false}}},
        "a.sol": {"AST": {"id": 4, "name": "SourceUnit", "src": "0:5:0"}}}}"#;
    let value = json::parse(out).expect("json");
    let files = vec![("a.sol".to_string(), "AAAAA".to_string()), ("b.sol".to_string(), "BBB".to_string())];
    let units = ssa::loader::json_ast::units_of_value(&value, &files).expect("read");
    assert_eq!(units.len(), 2);
    assert_eq!((units[0].0.id, units[0].1.as_str()), (4, "AAAAA"));
    assert_eq!((units[1].0.id, units[1].1.as_str()), (9, "BBB"));
    assert!(units[0].0.attributes.is_empty());
    assert!(matches!(units[1].0.attributes[..], [(ref k, AttrValue::Bool(false))] if k == "flag"));
    let absent = vec![("c.sol".to_string(), String::new())];
    assert!(ssa::loader::json_ast::units_of_value(&value, &absent).is_none());
    assert!(ssa::loader::json_ast::units_of_value(&value, &Vec::new()).expect("nothing to read").is_empty());
}

#[test]
fn node_reading_stops_at_its_depth() {
    let value = json::parse(r#"{"id": 1, "name": "Block", "src": "0:1:0",
        "children": [{"id": 2, "name": "Return", "src": "0:1:0"}]}"#).expect("json");
    assert!(ssa::loader::json_ast::node_of_json(&value, 0).is_none());
    let node = ssa::loader::json_ast::node_of_json(&value, 1).expect("read");
    assert_eq!(node.children.len(), 1);
    assert_eq!(node.children[0].name, "Return");
    let big = json::parse(r#"{"id": 4294967296, "name": "Block", "src": "0:1:0"}"#).expect("json");
    assert!(ssa::loader::json_ast::node_of_json(&big, 3).is_none());
}
