//! Control-flow and data-flow analysis of Solidity programs, working on the
//! AST that the Solidity compiler emits.
pub mod text;
pub mod ast;
pub mod shared;
pub mod cfg;
pub mod dfg;
pub mod graph;
pub mod dot;
pub mod analyzer;
pub mod loader;
pub mod components;
