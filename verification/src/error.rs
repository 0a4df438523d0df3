use vstd::prelude::*;

verus! {

/// The ways an operation on a [`crate::Dag`] can fail.
#[derive(Debug, Clone, Copy)]
pub enum DagError<EdgeData> {
    /// The named identifier is not a node of the graph.
    NodeNotFound(u64),
    /// Inserting the edge (first field, second field) would close a cycle.
    /// The rejected payload is handed back in the third field.
    HasCycle(u64, u64, EdgeData),
}

} // verus!
