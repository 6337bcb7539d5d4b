//! Differential fuzzing for multi-objective MaxSAT solvers: a seeded,
//! streaming generator of layered weighted-CNF instances, and an oracle that
//! cross-validates the Pareto fronts a set of solvers return on one instance.

use vstd::prelude::*;

pub mod cli;
pub mod config;
pub mod eval;
pub mod fuzz;
pub mod generate;
pub mod inst;
pub mod rng;

verus! {

/// A finding reported against one solver's answer on one instance.
#[derive(Debug, Clone, Copy, PartialEq, Eq, Structural)]
pub enum Problem {
    /// The solver aborted abnormally.
    Panic,
    /// A witness does not satisfy the hard clauses. The parameters are the
    /// index of the non-dominated point and the index of the witness.
    UnsatSol(usize, usize),
    /// A witness does not have the cost the point reports. The parameters are
    /// the index of the non-dominated point and the index of the witness.
    CostMismatch(usize, usize),
    /// Two points of one front report the same cost. The parameters are the
    /// two indices.
    Repeated(usize, usize),
    /// A point of the front is dominated by another point of the same front.
    /// The parameter is the index of the dominated point.
    SelfDominated(usize),
    /// A point of the front is dominated by a point another solver found.
    /// The parameter is the index of the dominated point.
    OtherDominated(usize),
    /// The front is shorter than a valid front another solver returned.
    Short,
    /// A point reports a cost vector of the wrong length. The parameter is
    /// the index of the point.
    WrongDimension(usize),
}

} // verus!
