//! A nondeterministic finite automaton engine: integer-identified states
//! drawn from a fixed capacity, labeled and epsilon transitions, eagerly
//! maintained epsilon closures, and subset-style simulation.

pub mod automaton;
