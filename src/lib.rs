//! Minimisation of finite automata: pruning of unreachable states through a
//! transitive closure, partition refinement into equivalence classes,
//! quotient construction, and canonical renaming of states.
pub mod automaton;
pub mod closure;
pub mod prune;
pub mod partition;
pub mod quotient;
pub mod rename;
