//! A small array-oriented DSL compiler: arena-keyed SSA intermediate
//! representation, lexically scoped name resolution, type inference, and
//! code generation to C with statement hoisting.

pub mod arena;
pub mod ast;
pub mod codegen_c;
pub mod codegen_header;
pub mod convert_to_ssa;
pub mod scanparse;
pub mod show;
pub mod traverse;
pub mod type_infer;
pub mod undo_ssa;
