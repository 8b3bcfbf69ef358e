//! A non-deterministic finite automaton engine: a builder that names states,
//! edges guarded by character conditions and capture-group marks, validated
//! into an indexed automaton that is simulated without backtracking.

pub mod automaton;
pub mod condition;
pub mod laws;
pub mod nfa;
