use vstd::prelude::*;

verus! {

/// Fatal failures of the solving pipeline: internal-invariant violations
/// that the library reports as errors instead of aborting on.
#[derive(Debug, Clone, Copy, PartialEq, Eq, Structural)]
pub enum SolveError {
    /// The matching capability did not produce a perfect matching.
    MatchingFailed,
    /// The multigraph walk did not close into an Eulerian circuit.
    EulerianFailed,
    /// No rotation of the constructed tour admits a feasible partition.
    NoFeasiblePartition,
}

} // verus!
