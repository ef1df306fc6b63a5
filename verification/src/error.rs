//! The ways in which the engine rejects its input.

use vstd::prelude::*;

verus! {

/// Every failure is structural: the same input fails the same way again.
#[derive(Clone, Copy, Debug, PartialEq, Eq, Structural)]
pub enum Error {
    /// A node id is not below the number of nodes of the graph.
    InvalidNodeId,
    /// A cluster names two or more external ids that the graph does not
    /// know, or an id that the graph does not know stands where a node is
    /// needed.
    UntranslatableNodeReference,
    /// A list that has to be strictly ascending is not.
    MalformedSet,
    /// A quality score was asked of a graph without nodes or without edges.
    DegenerateGraph,
    /// The parts of a graph description contradict each other.
    InconsistentGraph,
    /// A score was asked of a cluster whose statistics were not computed.
    MissingStatistics,
}

} // verus!
