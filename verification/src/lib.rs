//! The execution core of a small Lisp-family scripting language: a compiler
//! that lowers a syntax tree into a compact bytecode program, and a
//! stack-machine interpreter that executes that bytecode against a mutable
//! environment of modules, bindings, and native built-in functions.
//!
//! The lexer, parser, line editor and language-server glue are external
//! collaborators; only the kinds of data they exchange with this core (syntax
//! trees in, values out) are defined here.

pub mod compiler;
pub mod disasm;
pub mod laws;
pub mod parser;
pub mod text;
pub mod vm;
