//! A regular-expression engine built as a verified pipeline: a
//! recursive-descent parser produces a syntax tree, a compiler lowers the
//! tree to a Thompson-style NFA held in an arena of integer-indexed
//! states, and a multi-start simulation runs the NFA over an input to
//! produce full-match, greedy-search and global-search results.
//!
//! The mathematical model of the automaton and of the simulation lives in
//! [`semantics`]; the laws relating the three search modes are proved in
//! [`laws`].

pub mod alphabet;
pub mod ast;
pub mod automata;
pub mod chars;
pub mod error;
pub mod grammar;
pub mod language;
pub mod laws;
pub mod parser;
pub mod regex;
pub mod regexp;
pub mod semantics;
pub mod state;
pub mod utils;
