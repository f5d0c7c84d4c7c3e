use vstd::prelude::*;

pub mod graph;
pub mod labels;
pub mod loader;
pub mod matrix;
pub mod table;

verus! {

/// The failure conditions that the library's operations can report.
#[derive(Clone, Copy, Debug, PartialEq, Eq, Structural)]
pub enum Error {
    /// Costs/transport/supply/demand sizes disagree.
    DimensionMismatch,
    /// Total supply differs from total demand.
    UnbalancedProblem,
    /// Structurally invalid input handed to a loader.
    MalformedInput,
    /// Extra content follows the expected record layout.
    InvalidTrailingData,
    /// Matrix access outside the declared dimensions.
    IndexOutOfBounds,
    /// The linear solver found no usable pivot.
    SingularMatrix,
    /// An intermediate value of a numeric step leaves the scalar type, or
    /// integer elimination could not reproduce an exact solution.
    NumericOverflow,
    /// A vertex with this label already exists.
    DuplicateVertex,
    /// An equal (undirected) edge already exists.
    DuplicateEdge,
    /// Augmentation was asked to repair a graph that is already connected.
    AlreadyConnected,
    /// Augmentation was asked to repair a graph that contains a cycle.
    ContainsCycle,
    /// Fewer than the requested number of edges could be added.
    InsufficientEdges,
    /// Potentials were requested on a graph that is not a spanning tree.
    NotATree,
}

} // verus!
