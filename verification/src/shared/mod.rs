//! Shared objects: the AST walker, the dictionary of nodes, graph vertices and edges.
pub mod walker;
pub mod smart_contract;
pub mod dict;
pub mod edge;
pub mod vertex;
pub mod variable;
pub mod assignment;
pub mod access;
pub mod parameter;
pub mod dfg;
