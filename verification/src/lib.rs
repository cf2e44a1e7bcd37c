//! Tree construction for a CSS-style syntax: turns a stream of lexical
//! tokens into a tree of primitives (scalar values, functions, and
//! bracket/paren/brace blocks), collecting non-fatal lexical errors on
//! the side.

pub mod tokens;
pub mod primitives;
pub mod model;
pub mod parser;
pub mod laws;
