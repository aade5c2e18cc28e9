//! Core of a crossword filling system: a compact letter-set type, a prefix
//! automaton over the dictionary, a grid with its slot inventory, an
//! arc-consistency / backtracking constraint engine, and a random layout
//! generator.

pub mod dawg;
pub mod domain;
pub mod engine;
pub mod grid;
pub mod layout;
pub mod solver;
