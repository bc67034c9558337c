//! Linear combinations of wires, and their evaluation against an assignment.

use crate::field::{Element, Field};
use crate::wire::Wire;
use crate::wire_values::{assigns_all, WireValues};
use vstd::arithmetic::div_mod::lemma_add_mod_noop;
use vstd::prelude::*;

verus! {

/// What an expression is: a constant plus a sum of wires, each weighted by a
/// coefficient.
pub struct LinearForm {
    pub constant: nat,
    pub terms: Seq<(Wire, nat)>,
}

/// The sum of the terms' coefficients, each multiplied by the value of its wire.
pub open spec fn weighted_sum(terms: Seq<(Wire, nat)>, values: Map<Wire, nat>) -> nat
    decreases terms.len(),
{
    if terms.len() == 0 {
        0
    } else {
        weighted_sum(terms.drop_last(), values) + terms.last().1 * values[terms.last().0]
    }
}

impl LinearForm {
    /// The truth value that the form stands for: `true` where its value is
    /// one and `false` where it is zero. There is none where a wire of the
    /// form has no value, or the value is neither zero nor one.
    pub open spec fn truth(self, values: Map<Wire, nat>, order: nat) -> Option<bool> {
        if !self.defined_on(values) {
            None
        } else if self.value(values, order) == 1 {
            Some(true)
        } else if self.value(values, order) == 0 {
            Some(false)
        } else {
            None
        }
    }

    /// The wires that the form refers to, term by term.
    pub open spec fn wires(self) -> Seq<Wire> {
        self.terms.map_values(|term: (Wire, nat)| term.0)
    }

    /// Whether every wire of the form has a value.
    pub open spec fn defined_on(self, values: Map<Wire, nat>) -> bool {
        assigns_all(values, self.wires())
    }

    /// The value of the form in the field of the given order.
    pub open spec fn value(self, values: Map<Wire, nat>, order: nat) -> nat {
        (self.constant + weighted_sum(self.terms, values)) % order
    }
}

/// The weighted sum reads the values of the terms' wires and nothing else.
pub proof fn lemma_weighted_sum_local(
    terms: Seq<(Wire, nat)>,
    first: Map<Wire, nat>,
    second: Map<Wire, nat>,
)
    requires
        forall|i: int| 0 <= i < terms.len() ==> first[#[trigger] terms[i].0] == second[terms[i].0],
    ensures
        weighted_sum(terms, first) == weighted_sum(terms, second),
    decreases terms.len(),
{
    if terms.len() > 0 {
        let rest = terms.drop_last();
        assert forall|i: int| 0 <= i < rest.len() implies first[#[trigger] rest[i].0]
            == second[rest[i].0] by {
            assert(rest[i] == terms[i]);
        }
        lemma_weighted_sum_local(rest, first, second);
        assert(terms.last() == terms[terms.len() - 1]);
    }
}

/// One term of an expression: a wire and the coefficient that weights it.
pub struct Term<F: Field> {
    pub wire: Wire,
    pub coefficient: Element<F>,
}

impl<F: Field> View for Term<F> {
    type V = (Wire, nat);

    open spec fn view(&self) -> (Wire, nat) {
        (self.wire, self.coefficient@)
    }
}

impl<F: Field> Clone for Term<F> {
    fn clone(&self) -> (term: Self)
        ensures
            term@ == self@,
    {
        Term { wire: self.wire, coefficient: self.coefficient.clone() }
    }
}

/// A linear combination of wires with coefficients from the field `F`.
pub struct Expression<F: Field> {
    constant: Element<F>,
    terms: Vec<Term<F>>,
}

impl<F: Field> View for Expression<F> {
    type V = LinearForm;

    closed spec fn view(&self) -> LinearForm {
        LinearForm {
            constant: self.constant@,
            terms: self.terms@.map_values(|term: Term<F>| term@),
        }
    }
}

impl<F: Field> Clone for Expression<F> {
    fn clone(&self) -> (expression: Self)
        ensures
            expression@ == self@,
    {
        let mut terms: Vec<Term<F>> = Vec::new();
        let mut i: usize = 0;
        while i < self.terms.len()
            invariant
                i <= self.terms@.len(),
                terms@.len() == i,
                forall|j: int| 0 <= j < i ==> (#[trigger] terms@[j])@ == self.terms@[j]@,
            decreases self.terms@.len() - i,
        {
            terms.push(self.terms[i].clone());
            i += 1;
        }
        let expression = Expression { constant: self.constant.clone(), terms };
        assert(expression@.terms =~= self@.terms);
        expression
    }
}

impl<F: Field> Expression<F> {
    /// What the expression that is always one is.
    pub open spec fn spec_one() -> LinearForm {
        LinearForm { constant: 1, terms: Seq::empty() }
    }

    /// What the expression that is always zero is.
    pub open spec fn spec_zero() -> LinearForm {
        LinearForm { constant: 0, terms: Seq::empty() }
    }

    /// What the expression that is the value of `wire` is.
    pub open spec fn spec_from_wire(wire: Wire) -> LinearForm {
        LinearForm { constant: 0, terms: seq![(wire, 1nat)] }
    }

    /// The expression with the given constant and terms.
    pub fn new(constant: Element<F>, terms: Vec<Term<F>>) -> (expression: Self)
        ensures
            expression@.constant == constant@,
            expression@.terms == terms@.map_values(|term: Term<F>| term@),
    {
        Expression { constant, terms }
    }

    /// The expression whose value is always `constant`.
    pub fn constant(constant: Element<F>) -> (expression: Self)
        ensures
            expression@ == (LinearForm { constant: constant@, terms: Seq::empty() }),
    {
        let expression = Expression { constant, terms: Vec::new() };
        assert(expression@.terms =~= Seq::empty());
        expression
    }

    /// The expression whose value is always zero.
    pub fn zero() -> (expression: Self)
        ensures
            expression@ == Self::spec_zero(),
    {
        Expression::constant(Element::zero())
    }

    /// The expression whose value is always one.
    pub fn one() -> (expression: Self)
        ensures
            expression@ == Self::spec_one(),
    {
        Expression::constant(Element::one())
    }

    /// The expression whose value is that of `wire`.
    pub fn from_wire(wire: Wire) -> (expression: Self)
        ensures
            expression@ == Self::spec_from_wire(wire),
    {
        let mut terms = Vec::new();
        terms.push(Term { wire, coefficient: Element::one() });
        let expression = Expression { constant: Element::zero(), terms };
        assert(expression@.terms =~= seq![(wire, 1nat)]);
        expression
    }

    /// The wires that the expression refers to, term by term.
    pub fn dependencies(&self) -> (wires: Vec<Wire>)
        ensures
            wires@ == self@.wires(),
    {
        let mut wires: Vec<Wire> = Vec::new();
        let mut i: usize = 0;
        while i < self.terms.len()
            invariant
                i <= self.terms@.len(),
                wires@ == self@.wires().take(i as int),
            decreases self.terms@.len() - i,
        {
            wires.push(self.terms[i].wire);
            assert(wires@ =~= self@.wires().take(i + 1));
            i += 1;
        }
        assert(wires@ =~= self@.wires());
        wires
    }

    /// The value of the expression under `values`, or `None` where a wire that
    /// the expression refers to has no value.
    pub fn evaluate(&self, values: &WireValues<F>) -> (value: Option<Element<F>>)
        ensures
            match value {
                Some(element) => self@.defined_on(values@) && element@ == self@.value(
                    values@,
                    F::spec_order(),
                ),
                None => !self@.defined_on(values@),
            },
    {
        let mut sum = Element::zero().add(&self.constant);
        let mut i: usize = 0;
        proof {
            F::order_exceeds_one();
        }
        while i < self.terms.len()
            invariant
                i <= self.terms@.len(),
                F::spec_order() > 1,
                forall|j: int| 0 <= j < i ==> values@.contains_key(#[trigger] self@.wires()[j]),
                sum@ == (self@.constant + weighted_sum(self@.terms.take(i as int), values@))
                    % F::spec_order(),
            decreases self.terms@.len() - i,
        {
            let term = &self.terms[i];
            assert(self@.terms[i as int] == term@);
            match values.get(term.wire) {
                None => {
                    assert(!values@.contains_key(self@.wires()[i as int]));
                    return None;
                },
                Some(value) => {
                    let product = term.coefficient.mul(value);
                    proof {
                        let before = self@.terms.take(i as int);
                        let after = self@.terms.take(i + 1);
                        assert(after.drop_last() =~= before);
                        assert(after.last() == term@);
                        lemma_add_mod_noop(
                            (self@.constant + weighted_sum(before, values@)) as int,
                            (term.coefficient@ * value@) as int,
                            F::spec_order() as int,
                        );
                    }
                    sum = sum.add(&product);
                },
            }
            i += 1;
        }
        assert(self@.terms.take(i as int) =~= self@.terms);
        Some(sum)
    }
}

/// An expression that stands for a truth value: one for `true`, zero for
/// `false`.
pub struct BooleanExpression<F: Field> {
    expression: Expression<F>,
}

impl<F: Field> View for BooleanExpression<F> {
    type V = LinearForm;

    closed spec fn view(&self) -> LinearForm {
        self.expression@
    }
}

impl<F: Field> BooleanExpression<F> {
    /// The truth value that `expression` stands for. Nothing is checked
    /// here: whether the expression is zero or one shows when it is
    /// evaluated.
    pub fn new(expression: Expression<F>) -> (boolean: Self)
        ensures
            boolean@ == expression@,
    {
        BooleanExpression { expression }
    }

    /// The expression that stands for the truth value.
    pub fn expression(&self) -> (expression: &Expression<F>)
        ensures
            expression@ == self@,
    {
        &self.expression
    }

    /// The truth value of the expression under `values`, or `None` where a
    /// wire has no value or the expression is neither zero nor one.
    pub fn evaluate(&self, values: &WireValues<F>) -> (truth: Option<bool>)
        ensures
            truth == self@.truth(values@, F::spec_order()),
    {
        match self.expression.evaluate(values) {
            None => None,
            Some(value) => {
                if value.is_one() {
                    Some(true)
                } else if value.is_zero() {
                    Some(false)
                } else {
                    None
                }
            },
        }
    }
}

} // verus!
