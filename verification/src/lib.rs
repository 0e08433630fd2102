//! A compiler for JDS, a small statically structured scripting language, to
//! x86_64 NASM assembly: a lexer, a recursive-descent parser and a code
//! generator.

pub mod ast;
pub mod compiler;
pub mod driver;
pub mod laws;
pub mod lexer;
pub mod lexer_laws;
pub mod machine;
pub mod parser;
pub mod parser_laws;
pub mod text;
