use vstd::prelude::*;

verus! {

/// Failures reported by the store, the scheduler and the batch planner.
#[derive(Debug, Clone, Copy, PartialEq, Eq, Structural)]
pub enum EcsError {
    /// An insertion supplied a component type that the entity already has,
    /// or supplied the same component type twice.
    DuplicateComponent,
    /// A component type was used that was never registered.
    UnknownComponentType,
    /// The dependency edges between systems contain a cycle.
    CyclicDependency,
    /// A batch size of zero was requested.
    InvalidBatchSize,
    /// Two systems that may run concurrently declare incompatible access.
    AccessConflict,
}

} // verus!
