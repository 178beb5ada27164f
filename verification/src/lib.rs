//! tinylang: a tiny expression language with a lexer, a recursive-descent
//! parser, an LLVM IR backend and a phase-1 x86-64 backend.
pub mod ast;
pub mod codegen;
pub mod eval;
pub mod ir;
pub mod ir_correct;
pub mod ir_sem;
pub mod ir_text;
pub mod ir_laws;
pub mod lex_laws;
pub mod lexer;
pub mod native;
pub mod parse_laws;
pub mod parser;
pub mod text;

