//! Finite automata: nondeterministic and deterministic automata over textual
//! state identifiers and input symbols, epsilon closures, and the subset
//! construction that turns a nondeterministic automaton into a deterministic one.

pub mod automaton;
pub mod closure;
pub mod decimal;
pub mod dfa;
pub mod disjoint_set;
pub mod edge;
pub mod graph;
pub mod input;
pub mod laws;
pub mod lexical;
pub mod nfa;
pub mod ordered;
pub mod powerset;
pub mod render;
pub mod result;
pub mod state;
pub mod state_map;
pub mod subset;
