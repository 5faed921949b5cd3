//! Source parsing, done by codeix's tree-sitter parsers: which language a
//! file extension names, and the symbols, text blocks and references of a
//! file.

pub mod languages;
pub mod treesitter;
