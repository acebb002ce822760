//! Data flow objects: variables with a kind, the actions on them, and the
//! pieces a statement is read into.
pub mod common;
pub mod variable;
pub mod link;
pub mod assignment;
pub mod declaration;
pub mod fakenode;
pub mod function_access;
pub mod function_use;
pub mod index_use;
pub mod parameter_order;
pub mod utils;

