use vstd::prelude::*;

pub mod span;
pub mod source;
pub mod ast;
pub mod lexer;
pub mod parser;
pub mod grammar;
pub mod namemap;
pub mod text;
pub mod value;
pub mod ops;
pub mod access;
pub mod interp;
pub mod semantics;
pub mod bytecode;
pub mod codegen;
pub mod vm;
pub mod machine;
pub mod core_eval;
pub mod lsp;
pub mod heap;
pub mod types;
pub mod typeenv;
pub mod typechecker;

verus! {

} // verus!
