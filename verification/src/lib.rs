//! A Pratt parser for a small scripting language, with its lexer and its
//! syntax tree.
//!
//! `lexer` turns a text into tokens and `parser` turns tokens into a
//! `Program`; `grammar` states what the parser reads. `render` gives trees
//! their display text, `canon` and `source` their canonical tokens and text.
//! `shape`, `sound`, `roundtrip`, `relex` and `laws` hold what is proved of
//! them.
pub mod token;
pub mod text;
pub mod ast;
pub mod errors;
pub mod render;
pub mod pairs;
pub mod grammar;
pub mod lexer;
pub mod parser;
pub mod canon;
pub mod source;
pub mod shape;
pub mod sound;
pub mod roundtrip;
pub mod relex;
pub mod laws;
