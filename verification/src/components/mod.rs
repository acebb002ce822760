//! Inspections of single kinds of AST nodes.
pub mod function_definition;
pub mod state_variable_declaration;
