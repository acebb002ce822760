//! The data flow of a function: which node's data reaches which.
pub mod action;
pub mod link;
pub mod flow;
pub mod laws;
