//! A four-stage translation pipeline for a minimal expression/statement
//! language: lexical scanning, precedence-climbing parsing into a syntax
//! tree, tree-walking code generation into an abstract instruction stream
//! with symbolic labels, and rendering of that stream as mnemonic text.

pub mod text;
pub mod scanner;
pub mod ast;
pub mod parser;
pub mod compile;
pub mod printer;
