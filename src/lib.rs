//! Compiles regular-expression patterns into deterministic finite automata:
//! a pattern is parsed into a syntax tree, the tree is assembled into an NFA
//! fragment by fragment, and the NFA is determinized by subset construction.
pub mod automaton;
pub mod error;
pub mod lexer;
pub mod parser;
