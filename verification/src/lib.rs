//! Front end for a small dynamically-typed scripting language: a hand-written
//! lexer feeding a precedence-climbing (Pratt) parser that produces an
//! abstract syntax tree.  Every function is specified against a mathematical
//! model of the token stream and of the tree, and the parser's error list is
//! pinned down exactly by those specifications.

pub mod token;
pub mod lexer;
pub mod ast;
pub mod parser;
pub mod laws;
pub mod roundtrip;
