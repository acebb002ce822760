//! What the compiler is asked for and what it gives back.
use std::collections::HashMap;
use std::path::Path;
use vstd::prelude::*;

verus! {

#[verifier::external_type_specification]
#[verifier::external_body]
pub struct ExPath(Path);

/// The kind of output asked of the compiler.
pub enum SolidityOutputKind {
    AST,
}

/// The combined JSON AST that the compiler printed, and the source of each file.
pub struct SolidityASTOutput {
    pub ast: String,
    pub sources: HashMap<String, String>,
}

/// What the compiler gave back.
pub enum SolidityOutput {
    AST(SolidityASTOutput),
}

/// Where the compilers are kept, which contract is compiled, and what is asked.
pub struct SolidityOption<'a> {
    pub bin_dir: &'a Path,
    pub contract: &'a Path,
    pub kind: SolidityOutputKind,
}

} // verus!
