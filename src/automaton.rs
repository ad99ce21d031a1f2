//! Automata built from a pattern: the NFA assembled from the syntax tree and
//! the DFA obtained from it by subset construction.
pub mod nfa;
pub mod dfa;
