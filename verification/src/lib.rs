//! A small regular-expression engine: a pattern string is parsed into a
//! syntax tree, compiled into a nondeterministic finite automaton by
//! Thompson's construction, and matched against text by epsilon-closure
//! subset simulation, with no backtracking.

pub mod ast;
pub mod asttonfa;
pub mod matcher;
pub mod nfa;
pub mod parser;
