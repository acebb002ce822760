//! Building the control flow graph of a function.
pub mod block;
pub mod splitter;
pub mod graph;
pub mod call_split;
pub mod flow;
pub mod paths;
pub mod edges;
