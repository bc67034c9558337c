//! Building gadgets: wires are handed out, and constraints and witness
//! generators are collected.

use crate::constraint::{Constraint, ConstraintModel};
use crate::expression::Expression;
use crate::field::Field;
use crate::gadget::{Gadget, GadgetModel};
use crate::wire::Wire;
use crate::witness_generator::{AssignmentModel, GeneratorModel, Rule, RuleModel, WitnessGenerator};
use vstd::prelude::*;

verus! {

/// A builder of gadgets over the field `F`.
pub struct GadgetBuilder<F: Field> {
    next_wire_index: u32,
    constraints: Vec<Constraint<F>>,
    witness_generators: Vec<WitnessGenerator<F>>,
}

impl<F: Field> View for GadgetBuilder<F> {
    type V = GadgetModel;

    closed spec fn view(&self) -> GadgetModel {
        GadgetModel {
            constraints: self.constraints@.map_values(|constraint: Constraint<F>| constraint@),
            generators: self.witness_generators@.map_values(
                |generator: WitnessGenerator<F>| generator@,
            ),
        }
    }
}

impl<F: Field> GadgetBuilder<F> {
    /// The index of the wire that the builder hands out next.
    pub closed spec fn next_index(&self) -> nat {
        self.next_wire_index as nat
    }

    /// A builder that has collected nothing.
    pub fn new() -> (builder: Self)
        ensures
            builder@.constraints == Seq::<ConstraintModel>::empty(),
            builder@.generators == Seq::<GeneratorModel>::empty(),
            builder.next_index() == 0,
    {
        let builder = GadgetBuilder {
            next_wire_index: 0,
            constraints: Vec::new(),
            witness_generators: Vec::new(),
        };
        assert(builder@.constraints =~= Seq::<ConstraintModel>::empty());
        assert(builder@.generators =~= Seq::<GeneratorModel>::empty());
        builder
    }

    /// A wire that the builder has not handed out before.
    pub fn wire(&mut self) -> (wire: Wire)
        requires
            old(self).next_index() < u32::MAX,
        ensures
            wire.index == old(self).next_index(),
            final(self).next_index() == old(self).next_index() + 1,
            final(self)@ == old(self)@,
    {
        let wire = Wire { index: self.next_wire_index };
        self.next_wire_index = self.next_wire_index + 1;
        wire
    }

    /// Adds the constraint `a * b = c`.
    pub fn assert_product(&mut self, a: &Expression<F>, b: &Expression<F>, c: &Expression<F>)
        ensures
            final(self)@.constraints == old(self)@.constraints.push(
                ConstraintModel { a: a@, b: b@, c: c@ },
            ),
            final(self)@.generators == old(self)@.generators,
            final(self).next_index() == old(self).next_index(),
    {
        self.constraints.push(Constraint { a: a.clone(), b: b.clone(), c: c.clone() });
        assert(self@.constraints =~= old(self)@.constraints.push(
            ConstraintModel { a: a@, b: b@, c: c@ },
        ));
    }

    /// Adds the constraint `x = y`, in the form `x * 1 = y`.
    pub fn assert_equal(&mut self, x: &Expression<F>, y: &Expression<F>)
        ensures
            final(self)@.constraints == old(self)@.constraints.push(
                ConstraintModel { a: x@, b: Expression::<F>::spec_one(), c: y@ },
            ),
            final(self)@.generators == old(self)@.generators,
            final(self).next_index() == old(self).next_index(),
    {
        self.assert_product(x, &Expression::one(), y);
    }

    /// Adds a witness generator.
    pub fn generator(&mut self, generator: WitnessGenerator<F>)
        ensures
            final(self)@.generators == old(self)@.generators.push(generator@),
            final(self)@.constraints == old(self)@.constraints,
            final(self).next_index() == old(self).next_index(),
    {
        self.witness_generators.push(generator);
        assert(self@.generators =~= old(self)@.generators.push(generator@));
    }

    /// The product of `x` and `y`: a new wire, with the constraint that it
    /// is the product and the generator that computes it.
    pub fn product(&mut self, x: &Expression<F>, y: &Expression<F>) -> (product: Expression<F>)
        requires
            old(self).next_index() < u32::MAX,
        ensures
            product@ == Expression::<F>::spec_from_wire(Wire { index: old(self).next_index() as u32 }),
            final(self)@.constraints == old(self)@.constraints.push(
                ConstraintModel { a: x@, b: y@, c: product@ },
            ),
            final(self)@.generators == old(self)@.generators.push(
                GeneratorModel {
                    assignments: seq![
                        (AssignmentModel {
                            wire: Wire { index: old(self).next_index() as u32 },
                            rule: RuleModel::Product(x@, y@),
                        }),
                    ],
                },
            ),
            final(self).next_index() == old(self).next_index() + 1,
    {
        let wire = self.wire();
        let product = Expression::from_wire(wire);
        self.assert_product(x, y, &product);
        self.generator(WitnessGenerator::single(wire, Rule::Product(x.clone(), y.clone())));
        product
    }

    /// The inverse of `x`: a new wire, with the constraint that its product
    /// with `x` is one and the generator that computes it.
    pub fn inverse(&mut self, x: &Expression<F>) -> (inverse: Expression<F>)
        requires
            old(self).next_index() < u32::MAX,
        ensures
            inverse@ == Expression::<F>::spec_from_wire(Wire { index: old(self).next_index() as u32 }),
            final(self)@.constraints == old(self)@.constraints.push(
                ConstraintModel { a: x@, b: inverse@, c: Expression::<F>::spec_one() },
            ),
            final(self)@.generators == old(self)@.generators.push(
                GeneratorModel {
                    assignments: seq![
                        (AssignmentModel {
                            wire: Wire { index: old(self).next_index() as u32 },
                            rule: RuleModel::Inverse(x@),
                        }),
                    ],
                },
            ),
            final(self).next_index() == old(self).next_index() + 1,
    {
        let wire = self.wire();
        let inverse = Expression::from_wire(wire);
        self.assert_product(x, &inverse, &Expression::one());
        self.generator(WitnessGenerator::single(wire, Rule::Inverse(x.clone())));
        inverse
    }

    /// The gadget with the constraints and generators collected so far.
    pub fn build(self) -> (gadget: Gadget<F>)
        ensures
            gadget@ == self@,
    {
        Gadget { constraints: self.constraints, witness_generators: self.witness_generators }
    }
}

} // verus!
