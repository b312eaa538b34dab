//! Finite automata over an arbitrary alphabet, and the subset construction
//! that turns a nondeterministic automaton into a deterministic one.

pub mod set;
pub mod dfa;
pub mod ident;
pub mod nfa;
pub mod powerset;
