//! Front end for the Kobold language: a longest-prefix-match trie for
//! operator tokenization, a state-machine lexer, a precedence-climbing
//! expression parser with pluggable operator handlers, and a hierarchical
//! module registry keyed by dotted names.

pub mod ast;
pub mod lexer;
pub mod loader;
pub mod module;
pub mod parser;
pub mod parslets;
pub mod token;
pub mod trie;

pub use crate::lexer::Lexer;
pub use crate::module::{Module, ModuleManager};
pub use crate::parser::Parser;
