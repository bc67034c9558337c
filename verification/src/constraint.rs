//! Rank-1 constraints.

use crate::expression::{Expression, LinearForm};
use crate::fault::StructuralFault;
use crate::field::Field;
use crate::wire::Wire;
use crate::wire_values::WireValues;
use vstd::prelude::*;

verus! {

/// What a constraint is: three linear forms `a`, `b` and `c`, of which it
/// demands that `a * b = c`.
pub struct ConstraintModel {
    pub a: LinearForm,
    pub b: LinearForm,
    pub c: LinearForm,
}

impl ConstraintModel {
    /// Whether every wire that the constraint refers to has a value.
    pub open spec fn defined_on(self, values: Map<Wire, nat>) -> bool {
        self.a.defined_on(values) && self.b.defined_on(values) && self.c.defined_on(values)
    }

    /// Whether `a * b = c` in the field of the given order.
    pub open spec fn holds(self, values: Map<Wire, nat>, order: nat) -> bool {
        (self.a.value(values, order) * self.b.value(values, order)) % order == self.c.value(
            values,
            order,
        )
    }
}

/// A rank-1 constraint `a * b = c` over the field `F`.
pub struct Constraint<F: Field> {
    pub a: Expression<F>,
    pub b: Expression<F>,
    pub c: Expression<F>,
}

impl<F: Field> View for Constraint<F> {
    type V = ConstraintModel;

    open spec fn view(&self) -> ConstraintModel {
        ConstraintModel { a: self.a@, b: self.b@, c: self.c@ }
    }
}

impl<F: Field> Constraint<F> {
    /// Whether the constraint holds under `values`. It is a fault, not a
    /// failed constraint, if a wire that the constraint refers to has no value.
    pub fn evaluate(&self, values: &WireValues<F>) -> (result: Result<bool, StructuralFault>)
        ensures
            match result {
                Ok(holds) => self@.defined_on(values@) && holds == self@.holds(
                    values@,
                    F::spec_order(),
                ),
                Err(fault) => fault == StructuralFault::WireUnassigned && !self@.defined_on(
                    values@,
                ),
            },
    {
        let a = match self.a.evaluate(values) {
            Some(a) => a,
            None => {
                return Err(StructuralFault::WireUnassigned);
            },
        };
        let b = match self.b.evaluate(values) {
            Some(b) => b,
            None => {
                return Err(StructuralFault::WireUnassigned);
            },
        };
        let c = match self.c.evaluate(values) {
            Some(c) => c,
            None => {
                return Err(StructuralFault::WireUnassigned);
            },
        };
        Ok(a.mul(&b).equals(&c))
    }
}

} // verus!
