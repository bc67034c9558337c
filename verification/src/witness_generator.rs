//! Witness generators: rules that derive the values of some wires from the
//! values of others.

use crate::expression::{lemma_weighted_sum_local, Expression, LinearForm};
use crate::fault::StructuralFault;
use crate::field::{inverse_or_zero, Element, Field};
use crate::wire::Wire;
use crate::wire_values::{
    agree_on, assigns_all, extends, lemma_agree_on_concat, lemma_assigns_all_concat, WireValues,
};
use vstd::prelude::*;

verus! {

/// What a rule is: how one value is computed from the values of wires.
pub enum RuleModel {
    /// The value of a linear form.
    Value(LinearForm),
    /// The product of the values of two linear forms.
    Product(LinearForm, LinearForm),
    /// The multiplicative inverse of the value of a linear form, or zero
    /// where the value has no inverse.
    Inverse(LinearForm),
}

impl RuleModel {
    /// The wires that the rule reads.
    pub open spec fn wires(self) -> Seq<Wire> {
        match self {
            RuleModel::Value(form) => form.wires(),
            RuleModel::Product(left, right) => left.wires() + right.wires(),
            RuleModel::Inverse(form) => form.wires(),
        }
    }

    /// Whether every wire that the rule reads has a value.
    pub open spec fn defined_on(self, values: Map<Wire, nat>) -> bool {
        assigns_all(values, self.wires())
    }

    /// What the rule computes in the field of the given order.
    pub open spec fn value(self, values: Map<Wire, nat>, order: nat) -> nat {
        match self {
            RuleModel::Value(form) => form.value(values, order),
            RuleModel::Product(left, right) => (left.value(values, order) * right.value(
                values,
                order,
            )) % order,
            RuleModel::Inverse(form) => inverse_or_zero(form.value(values, order), order),
        }
    }
}

/// The value of a linear form depends on the values of its wires, and on
/// nothing else.
pub proof fn lemma_form_local(
    form: LinearForm,
    first: Map<Wire, nat>,
    second: Map<Wire, nat>,
    order: nat,
)
    requires
        agree_on(first, second, form.wires()),
    ensures
        form.value(first, order) == form.value(second, order),
{
    assert forall|i: int| 0 <= i < form.terms.len() implies first[#[trigger] form.terms[i].0]
        == second[form.terms[i].0] by {
        assert(form.wires()[i] == form.terms[i].0);
    }
    lemma_weighted_sum_local(form.terms, first, second);
}

/// What a rule computes depends on the values of the wires it reads, and on
/// nothing else.
pub proof fn lemma_rule_local(
    rule: RuleModel,
    first: Map<Wire, nat>,
    second: Map<Wire, nat>,
    order: nat,
)
    requires
        agree_on(first, second, rule.wires()),
    ensures
        rule.value(first, order) == rule.value(second, order),
{
    match rule {
        RuleModel::Value(form) => {
            lemma_form_local(form, first, second, order);
        },
        RuleModel::Product(left, right) => {
            lemma_agree_on_concat(first, second, left.wires(), right.wires());
            lemma_form_local(left, first, second, order);
            lemma_form_local(right, first, second, order);
        },
        RuleModel::Inverse(form) => {
            lemma_form_local(form, first, second, order);
        },
    }
}

/// What an assignment is: a wire, and the rule that gives it its value.
pub struct AssignmentModel {
    pub wire: Wire,
    pub rule: RuleModel,
}

/// The wires that the rules of `assignments` read, rule by rule.
pub open spec fn wires_read(assignments: Seq<AssignmentModel>) -> Seq<Wire>
    decreases assignments.len(),
{
    if assignments.len() == 0 {
        Seq::empty()
    } else {
        wires_read(assignments.drop_last()) + assignments.last().rule.wires()
    }
}

/// `base`, extended by the wires of `assignments`, one after the other, each
/// with the value that its rule computes from `values`.
pub open spec fn assign(
    assignments: Seq<AssignmentModel>,
    base: Map<Wire, nat>,
    values: Map<Wire, nat>,
    order: nat,
) -> Map<Wire, nat>
    decreases assignments.len(),
{
    if assignments.len() == 0 {
        base
    } else {
        assign(assignments.drop_last(), base, values, order).insert(
            assignments.last().wire,
            assignments.last().rule.value(values, order),
        )
    }
}

/// What a witness generator is: a list of assignments, all made from the
/// values that the wires had before the generator ran.
pub struct GeneratorModel {
    pub assignments: Seq<AssignmentModel>,
}

impl GeneratorModel {
    /// The wires that the generator needs.
    pub open spec fn inputs(self) -> Seq<Wire> {
        wires_read(self.assignments)
    }

    /// The wires that the generator produces.
    pub open spec fn outputs(self) -> Seq<Wire> {
        self.assignments.map_values(|assignment: AssignmentModel| assignment.wire)
    }

    /// Whether every input of the generator has a value.
    pub open spec fn ready(self, values: Map<Wire, nat>) -> bool {
        assigns_all(values, self.inputs())
    }

    /// Whether the generator can write its outputs: no two of them are the
    /// same wire, and none has a value yet.
    pub open spec fn fresh(self, values: Map<Wire, nat>) -> bool {
        &&& self.outputs().no_duplicates()
        &&& forall|i: int|
            0 <= i < self.outputs().len() ==> !values.contains_key(#[trigger] self.outputs()[i])
    }

    /// The assignment after the generator has run on `values`.
    pub open spec fn apply(self, values: Map<Wire, nat>, order: nat) -> Map<Wire, nat> {
        assign(self.assignments, values, values, order)
    }

    /// The generator that makes the first `length` assignments of this one.
    pub open spec fn prefix(self, length: int) -> GeneratorModel {
        GeneratorModel { assignments: self.assignments.take(length) }
    }

    /// Whether the assignment at place `k` is the first that cannot be
    /// written: those before it can, and with it they no longer can.
    pub open spec fn clashes_at(self, values: Map<Wire, nat>, k: int) -> bool {
        &&& 0 <= k < self.assignments.len()
        &&& self.prefix(k).fresh(values)
        &&& !self.prefix(k + 1).fresh(values)
    }

    /// The assignment that the generator leaves when it runs on `values`
    /// and cannot write its outputs: that after the assignments before the
    /// first that cannot be written.
    pub open spec fn apply_until_clash(self, values: Map<Wire, nat>, order: nat) -> Map<Wire, nat> {
        self.prefix(choose|k: int| self.clashes_at(values, k)).apply(values, order)
    }
}

/// Only one assignment of a generator is the first that cannot be written.
pub proof fn lemma_clash_unique(generator: GeneratorModel, values: Map<Wire, nat>, j: int, k: int)
    requires
        generator.clashes_at(values, j),
        generator.clashes_at(values, k),
    ensures
        j == k,
{
    if j < k {
        lemma_fresh_prefix(generator.prefix(k), values, j + 1);
        assert(generator.prefix(k).prefix(j + 1).assignments =~= generator.prefix(j + 1).assignments);
    }
    if k < j {
        lemma_fresh_prefix(generator.prefix(j), values, k + 1);
        assert(generator.prefix(j).prefix(k + 1).assignments =~= generator.prefix(k + 1).assignments);
    }
}

/// A generator that can write its outputs can write the first of them.
pub proof fn lemma_fresh_prefix(generator: GeneratorModel, values: Map<Wire, nat>, length: int)
    requires
        generator.fresh(values),
        0 <= length <= generator.assignments.len(),
    ensures
        generator.prefix(length).fresh(values),
{
    let outputs = generator.outputs();
    let first = generator.prefix(length).outputs();
    assert forall|i: int| 0 <= i < first.len() implies first[i] == outputs[i] by {}
    assert forall|i: int| 0 <= i < first.len() implies !values.contains_key(#[trigger] first[i]) by {
        assert(first[i] == outputs[i]);
    }
    assert forall|i: int, j: int| 0 <= i < first.len() && 0 <= j < first.len() && i != j implies first[i]
        != first[j] by {
        assert(first[i] == outputs[i] && first[j] == outputs[j]);
    }
}

/// The inputs of a generator all have values exactly when each of its rules
/// finds the wires it reads.
pub proof fn lemma_ready_rules(assignments: Seq<AssignmentModel>, values: Map<Wire, nat>)
    ensures
        assigns_all(values, wires_read(assignments)) <==> forall|i: int|
            0 <= i < assignments.len() ==> (#[trigger] assignments[i]).rule.defined_on(values),
    decreases assignments.len(),
{
    if assignments.len() > 0 {
        let rest = assignments.drop_last();
        let last = assignments.last();
        lemma_ready_rules(rest, values);
        lemma_assigns_all_concat(values, wires_read(rest), last.rule.wires());
        if assigns_all(values, wires_read(assignments)) {
            assert forall|i: int| 0 <= i < assignments.len() implies (
            #[trigger] assignments[i]).rule.defined_on(values) by {
                if i < rest.len() {
                    assert(rest[i] == assignments[i]);
                }
            }
        }
        if forall|i: int|
            0 <= i < assignments.len() ==> (#[trigger] assignments[i]).rule.defined_on(values) {
            assert forall|i: int| 0 <= i < rest.len() implies (#[trigger] rest[i]).rule.defined_on(
                values,
            ) by {
                assert(rest[i] == assignments[i]);
            }
            assert(assignments[assignments.len() - 1].rule.defined_on(values));
        }
    }
}

/// Every wire that a rule of the generator reads is among its inputs.
pub proof fn lemma_rule_wires_are_inputs(assignments: Seq<AssignmentModel>, i: int, k: int)
    requires
        0 <= i < assignments.len(),
        0 <= k < assignments[i].rule.wires().len(),
    ensures
        wires_read(assignments).contains(assignments[i].rule.wires()[k]),
    decreases assignments.len(),
{
    let rest = assignments.drop_last();
    let last = assignments.last();
    let all = wires_read(rest) + last.rule.wires();
    if i == assignments.len() - 1 {
        assert(all[wires_read(rest).len() + k] == last.rule.wires()[k]);
    } else {
        assert(rest[i] == assignments[i]);
        lemma_rule_wires_are_inputs(rest, i, k);
        let j = choose|j: int|
            0 <= j < wires_read(rest).len() && wires_read(rest)[j] == assignments[i].rule.wires()[k];
        assert(all[j] == wires_read(rest)[j]);
    }
}

/// What `assign` yields when the wires of `assignments` are distinct and new
/// to `base`: `base` itself, and each of the wires with the value of its rule.
pub proof fn lemma_assign(
    assignments: Seq<AssignmentModel>,
    base: Map<Wire, nat>,
    values: Map<Wire, nat>,
    order: nat,
)
    requires
        (GeneratorModel { assignments }).fresh(base),
    ensures
        extends(assign(assignments, base, values, order), base),
        forall|wire: Wire|
            assign(assignments, base, values, order).contains_key(wire) <==> base.contains_key(wire)
                || (GeneratorModel { assignments }).outputs().contains(wire),
        forall|i: int|
            0 <= i < assignments.len() ==> assign(assignments, base, values, order)[(
            #[trigger] assignments[i]).wire] == assignments[i].rule.value(values, order),
    decreases assignments.len(),
{
    let outputs = (GeneratorModel { assignments }).outputs();
    let result = assign(assignments, base, values, order);
    if assignments.len() > 0 {
        let rest = assignments.drop_last();
        let last = assignments.last();
        let rest_outputs = (GeneratorModel { assignments: rest }).outputs();
        let rest_result = assign(rest, base, values, order);
        assert(rest_outputs =~= outputs.drop_last());
        assert forall|i: int| 0 <= i < rest_outputs.len() implies !base.contains_key(
            #[trigger] rest_outputs[i],
        ) by {
            assert(rest_outputs[i] == outputs[i]);
        }
        assert(rest_outputs.no_duplicates()) by {
            assert forall|i: int, j: int|
                0 <= i < rest_outputs.len() && 0 <= j < rest_outputs.len() && i != j implies rest_outputs[i]
                != rest_outputs[j] by {
                assert(rest_outputs[i] == outputs[i] && rest_outputs[j] == outputs[j]);
            }
        }
        lemma_assign(rest, base, values, order);
        assert(outputs[outputs.len() - 1] == last.wire);
        assert(!rest_outputs.contains(last.wire)) by {
            if rest_outputs.contains(last.wire) {
                let j = choose|j: int| 0 <= j < rest_outputs.len() && rest_outputs[j] == last.wire;
                assert(outputs[j] == outputs[outputs.len() - 1]);
            }
        }
        assert forall|wire: Wire| result.contains_key(wire) <==> base.contains_key(wire)
            || outputs.contains(wire) by {
            if outputs.contains(wire) {
                let j = choose|j: int| 0 <= j < outputs.len() && outputs[j] == wire;
                if j < rest_outputs.len() {
                    assert(rest_outputs[j] == wire);
                }
            }
            if rest_outputs.contains(wire) {
                let j = choose|j: int| 0 <= j < rest_outputs.len() && rest_outputs[j] == wire;
                assert(outputs[j] == wire);
            }
        }
        assert forall|i: int| 0 <= i < assignments.len() implies result[(
        #[trigger] assignments[i]).wire] == assignments[i].rule.value(values, order) by {
            if i < rest.len() {
                assert(rest[i] == assignments[i]);
                assert(rest_outputs[i] == assignments[i].wire);
            }
        }
    } else {
        assert forall|wire: Wire| result.contains_key(wire) <==> base.contains_key(wire)
            || outputs.contains(wire) by {}
    }
}

/// How one value is computed from the values of wires.
pub enum Rule<F: Field> {
    /// The value of an expression.
    Value(Expression<F>),
    /// The product of the values of two expressions.
    Product(Expression<F>, Expression<F>),
    /// The multiplicative inverse of the value of an expression, or zero
    /// where the value has no inverse.
    Inverse(Expression<F>),
}

impl<F: Field> View for Rule<F> {
    type V = RuleModel;

    open spec fn view(&self) -> RuleModel {
        match self {
            Rule::Value(expression) => RuleModel::Value(expression@),
            Rule::Product(left, right) => RuleModel::Product(left@, right@),
            Rule::Inverse(expression) => RuleModel::Inverse(expression@),
        }
    }
}

impl<F: Field> Rule<F> {
    /// The wires that the rule reads.
    pub fn dependencies(&self) -> (wires: Vec<Wire>)
        ensures
            wires@ == self@.wires(),
    {
        match self {
            Rule::Value(expression) => expression.dependencies(),
            Rule::Product(left, right) => {
                let mut wires = left.dependencies();
                let more = right.dependencies();
                let mut i: usize = 0;
                while i < more.len()
                    invariant
                        i <= more@.len(),
                        wires@ == left@.wires() + more@.take(i as int),
                    decreases more@.len() - i,
                {
                    wires.push(more[i]);
                    assert(wires@ =~= left@.wires() + more@.take(i + 1));
                    i += 1;
                }
                assert(more@.take(i as int) =~= more@);
                wires
            },
            Rule::Inverse(expression) => expression.dependencies(),
        }
    }

    /// What the rule computes from `values`, or `None` where a wire that the
    /// rule reads has no value.
    pub fn evaluate(&self, values: &WireValues<F>) -> (value: Option<Element<F>>)
        ensures
            match value {
                Some(element) => self@.defined_on(values@) && element@ == self@.value(
                    values@,
                    F::spec_order(),
                ),
                None => !self@.defined_on(values@),
            },
    {
        match self {
            Rule::Value(expression) => expression.evaluate(values),
            Rule::Product(left, right) => {
                proof {
                    lemma_assigns_all_concat(values@, left@.wires(), right@.wires());
                }
                match left.evaluate(values) {
                    None => None,
                    Some(left_value) => match right.evaluate(values) {
                        None => None,
                        Some(right_value) => Some(left_value.mul(&right_value)),
                    },
                }
            },
            Rule::Inverse(expression) => match expression.evaluate(values) {
                None => None,
                Some(value) => Some(value.inverse_or_zero()),
            },
        }
    }
}

/// A wire, and the rule that gives it its value.
pub struct Assignment<F: Field> {
    pub wire: Wire,
    pub rule: Rule<F>,
}

impl<F: Field> View for Assignment<F> {
    type V = AssignmentModel;

    open spec fn view(&self) -> AssignmentModel {
        AssignmentModel { wire: self.wire, rule: self.rule@ }
    }
}

/// A witness generator: it needs the values of some wires, its inputs, and
/// from them makes the values of others, its outputs.
pub struct WitnessGenerator<F: Field> {
    assignments: Vec<Assignment<F>>,
}

impl<F: Field> View for WitnessGenerator<F> {
    type V = GeneratorModel;

    closed spec fn view(&self) -> GeneratorModel {
        GeneratorModel {
            assignments: self.assignments@.map_values(|assignment: Assignment<F>| assignment@),
        }
    }
}

impl<F: Field> WitnessGenerator<F> {
    /// The generator that makes the given assignments.
    pub fn new(assignments: Vec<Assignment<F>>) -> (generator: Self)
        ensures
            generator@.assignments == assignments@.map_values(
                |assignment: Assignment<F>| assignment@,
            ),
    {
        WitnessGenerator { assignments }
    }

    /// The generator that gives `wire` the value that `rule` computes.
    pub fn single(wire: Wire, rule: Rule<F>) -> (generator: Self)
        ensures
            generator@.assignments == seq![(AssignmentModel { wire, rule: rule@ })],
    {
        let mut assignments = Vec::new();
        assignments.push(Assignment { wire, rule });
        let generator = WitnessGenerator { assignments };
        assert(generator@.assignments =~= seq![(AssignmentModel { wire, rule: rule@ })]);
        generator
    }

    /// The wires that the generator needs.
    pub fn inputs(&self) -> (wires: Vec<Wire>)
        ensures
            wires@ == self@.inputs(),
    {
        let mut wires: Vec<Wire> = Vec::new();
        let mut i: usize = 0;
        while i < self.assignments.len()
            invariant
                i <= self.assignments@.len(),
                wires@ == wires_read(self@.assignments.take(i as int)),
            decreases self.assignments@.len() - i,
        {
            let more = self.assignments[i].rule.dependencies();
            let ghost before = wires@;
            let mut k: usize = 0;
            while k < more.len()
                invariant
                    k <= more@.len(),
                    wires@ == before + more@.take(k as int),
                decreases more@.len() - k,
            {
                wires.push(more[k]);
                assert(wires@ =~= before + more@.take(k + 1));
                k += 1;
            }
            proof {
                let upto = self@.assignments.take(i + 1);
                assert(more@.take(k as int) =~= more@);
                assert(upto.drop_last() =~= self@.assignments.take(i as int));
                assert(upto.last() == self.assignments@[i as int]@);
            }
            i += 1;
        }
        assert(self@.assignments.take(i as int) =~= self@.assignments);
        wires
    }

    /// The wires that the generator produces.
    pub fn outputs(&self) -> (wires: Vec<Wire>)
        ensures
            wires@ == self@.outputs(),
    {
        let mut wires: Vec<Wire> = Vec::new();
        let mut i: usize = 0;
        while i < self.assignments.len()
            invariant
                i <= self.assignments@.len(),
                wires@ == self@.outputs().take(i as int),
            decreases self.assignments@.len() - i,
        {
            wires.push(self.assignments[i].wire);
            assert(wires@ =~= self@.outputs().take(i + 1));
            i += 1;
        }
        assert(self@.outputs().take(i as int) =~= self@.outputs());
        wires
    }

    /// Runs the generator: computes the value of each output from `values` as
    /// they stand, and then writes them.
    ///
    /// Nothing is written if an input has no value. If an output has a value
    /// already, or is listed twice, the call fails once it comes to that
    /// output; the outputs before it, and no others, have been written by
    /// then.
    pub fn generate(&self, values: &mut WireValues<F>) -> (result: Result<(), StructuralFault>)
        ensures
            match result {
                Ok(_) => {
                    &&& self@.ready(old(values)@)
                    &&& self@.fresh(old(values)@)
                    &&& final(values)@ == self@.apply(old(values)@, F::spec_order())
                },
                Err(StructuralFault::WireUnassigned) => {
                    &&& !self@.ready(old(values)@)
                    &&& final(values)@ == old(values)@
                },
                Err(StructuralFault::WireAlreadyAssigned) => {
                    &&& self@.ready(old(values)@)
                    &&& !self@.fresh(old(values)@)
                    &&& final(values)@ == self@.apply_until_clash(old(values)@, F::spec_order())
                    &&& extends(final(values)@, old(values)@)
                },
                Err(StructuralFault::GeneratorNeverReady) => false,
            },
    {
        let ghost model = self@;
        let ghost before = values@;
        let ghost order = F::spec_order();
        proof {
            lemma_ready_rules(model.assignments, before);
        }
        // what the rules compute, before any of it is written
        let mut computed: Vec<Element<F>> = Vec::new();
        let mut i: usize = 0;
        while i < self.assignments.len()
            invariant
                i <= self.assignments@.len(),
                model == self@,
                before == values@,
                order == F::spec_order(),
                computed@.len() == i,
                forall|j: int|
                    0 <= j < i ==> (#[trigger] model.assignments[j]).rule.defined_on(before)
                        && computed@[j]@ == model.assignments[j].rule.value(before, order),
                before == old(values)@,
                model.ready(before) <==> forall|j: int|
                    0 <= j < model.assignments.len() ==> (#[trigger] model.assignments[j]).rule.defined_on(
                        before,
                    ),
            decreases self.assignments@.len() - i,
        {
            assert(model.assignments[i as int] == self.assignments@[i as int]@);
            match self.assignments[i].rule.evaluate(values) {
                None => {
                    return Err(StructuralFault::WireUnassigned);
                },
                Some(element) => {
                    computed.push(element);
                },
            }
            i += 1;
        }
        assert(model.ready(before));
        let mut i: usize = 0;
        while i < self.assignments.len()
            invariant
                i <= self.assignments@.len(),
                model == self@,
                order == F::spec_order(),
                model.ready(before),
                before == old(values)@,
                computed@.len() == self.assignments@.len(),
                forall|j: int|
                    0 <= j < computed@.len() ==> (#[trigger] computed@[j])@ == model.assignments[j].rule.value(
                        before,
                        order,
                    ),
                (GeneratorModel { assignments: model.assignments.take(i as int) }).fresh(before),
                values@ == assign(model.assignments.take(i as int), before, before, order),
            decreases self.assignments@.len() - i,
        {
            let ghost done = model.assignments.take(i as int);
            let ghost upto = model.assignments.take(i + 1);
            let wire = self.assignments[i].wire;
            proof {
                assert(model.assignments[i as int] == self.assignments@[i as int]@);
                assert(upto.drop_last() =~= done);
                assert(upto.last() == model.assignments[i as int]);
                lemma_assign(done, before, before, order);
                let outputs = model.outputs();
                let done_outputs = (GeneratorModel { assignments: done }).outputs();
                let upto_outputs = (GeneratorModel { assignments: upto }).outputs();
                assert(outputs[i as int] == wire);
                assert(upto_outputs =~= done_outputs.push(wire));
                assert(done_outputs =~= outputs.take(i as int));
            }
            match values.set(wire, computed[i].clone()) {
                Err(_) => {
                    proof {
                        let outputs = model.outputs();
                        let upto_outputs = model.prefix(i + 1).outputs();
                        assert(upto_outputs[i as int] == wire);
                        if outputs.take(i as int).contains(wire) {
                            let k = choose|k: int|
                                0 <= k < i && outputs.take(i as int)[k] == wire;
                            assert(outputs[k] == outputs[i as int]);
                            assert(upto_outputs[k] == upto_outputs[i as int]);
                        } else {
                            assert(before.contains_key(outputs[i as int]));
                            assert(before.contains_key(upto_outputs[i as int]));
                        }
                        assert(model.clashes_at(before, i as int));
                        lemma_clash_unique(
                            model,
                            before,
                            i as int,
                            choose|k: int| model.clashes_at(before, k),
                        );
                    }
                    return Err(StructuralFault::WireAlreadyAssigned);
                },
                Ok(_) => {
                    proof {
                        let done_outputs = (GeneratorModel { assignments: done }).outputs();
                        let upto_outputs = (GeneratorModel { assignments: upto }).outputs();
                        assert(!done_outputs.contains(wire));
                        assert(!before.contains_key(wire));
                        assert(upto_outputs.no_duplicates()) by {
                            assert forall|a: int, b: int|
                                0 <= a < upto_outputs.len() && 0 <= b < upto_outputs.len() && a
                                    != b implies upto_outputs[a] != upto_outputs[b] by {
                                if a < i {
                                    assert(done_outputs[a] == upto_outputs[a]);
                                }
                                if b < i {
                                    assert(done_outputs[b] == upto_outputs[b]);
                                }
                            }
                        }
                        assert forall|k: int| 0 <= k < upto_outputs.len() implies !before.contains_key(
                            #[trigger] upto_outputs[k],
                        ) by {
                            if k < i {
                                assert(done_outputs[k] == upto_outputs[k]);
                            }
                        }
                    }
                },
            }
            i += 1;
        }
        proof {
            assert(model.assignments.take(i as int) =~= model.assignments);
        }
        Ok(())
    }
}

} // verus!
