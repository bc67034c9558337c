//! Wires: the variables of a circuit.

use vstd::prelude::*;

verus! {

/// A handle that names one variable of a circuit. Wires are ordered by the
/// index at which they were created.
#[derive(Clone, Copy, Debug, PartialEq, Eq, Structural, PartialOrd, Ord, Hash)]
pub struct Wire {
    pub index: u32,
}

impl Wire {
    /// The wire with the given index.
    pub fn new(index: u32) -> (wire: Wire)
        ensures
            wire.index == index,
    {
        Wire { index }
    }
}

} // verus!
