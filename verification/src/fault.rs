//! The ways in which a gadget, or the assignment it is run against, is malformed.

use vstd::prelude::*;

verus! {

/// A defect in a gadget or in the inputs given to it. A fault is distinct from
/// constraints that merely do not hold.
#[derive(Clone, Copy, Debug, PartialEq, Eq, Structural)]
pub enum StructuralFault {
    /// Some witness generator never received all of its inputs.
    GeneratorNeverReady,
    /// A value was written to a wire that already had one.
    WireAlreadyAssigned,
    /// A value was read from a wire that has none.
    WireUnassigned,
}

} // verus!
