//! Minimization of deterministic finite automata by simultaneous refinement
//! of a partition of the states and a partition of the transitions.
pub mod fa;
pub mod lang;
pub mod min;
pub mod minimal;
pub mod reach;
pub mod refine;
