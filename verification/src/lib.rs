//! Thompson's construction: compile a regular-expression syntax tree into a
//! nondeterministic finite automaton, number its states breadth-first, and
//! describe it as a directed graph.
//!
//! - [`syntax`]: the syntax tree and the constructs that are not handled.
//! - [`nfa`]: the automaton.
//! - [`builder`]: the compiler from trees to automata.
//! - [`language`]: what a tree matches and what an automaton accepts.
//! - [`renumber`]: the canonical, breadth-first numbering of the states.
//! - [`render`]: the description of an automaton in DOT.
//! - [`hir`]: reading the trees of the `regex_syntax` parser.
//! - [`pattern`]: from the text of a pattern to the description.

pub mod builder;
pub mod hir;
pub mod language;
pub mod nfa;
pub mod pattern;
pub mod render;
pub mod renumber;
pub mod syntax;
