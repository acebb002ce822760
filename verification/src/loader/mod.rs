//! Compiling a contract with the Solidity compiler: the options, the output,
//! and the choice of the compiler release.
pub mod option;
pub mod solidity;
pub mod json_ast;
