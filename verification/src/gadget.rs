//! Gadgets, and their execution: witness completion followed by the check of
//! every constraint.

use crate::constraint::{Constraint, ConstraintModel};
use crate::fault::StructuralFault;
use crate::field::Field;
use crate::schedule::{
    closure, collides, collides_at, complete, completion, lemma_collision_decides,
    lemma_completion_of_collision, lemma_completion_of_saturated, lemma_saturated_schedule_decides,
    saturated, stalls, state_after, stopped_by_collision, valid_schedule,
};
use crate::scheduler::{counts_hold, index_holds, notify, queue_holds, register};
use crate::tally::{lemma_distinct_below, lemma_missing_none, missing};
use crate::wire::Wire;
use crate::wire_values::{extends, WireValues};
use crate::witness_generator::{lemma_assign, GeneratorModel, WitnessGenerator};
use std::collections::HashMap;
use vstd::prelude::*;

verus! {

/// What a gadget is: its constraints and its witness generators.
pub struct GadgetModel {
    pub constraints: Seq<ConstraintModel>,
    pub generators: Seq<GeneratorModel>,
}

impl GadgetModel {
    /// Whether every wire that a constraint refers to has a value.
    pub open spec fn constraints_defined(self, values: Map<Wire, nat>) -> bool {
        forall|i: int|
            0 <= i < self.constraints.len() ==> (#[trigger] self.constraints[i]).defined_on(values)
    }

    /// Whether every constraint holds in the field of the given order.
    pub open spec fn constraints_hold(self, values: Map<Wire, nat>, order: nat) -> bool {
        forall|i: int|
            0 <= i < self.constraints.len() ==> (#[trigger] self.constraints[i]).holds(values, order)
    }

    /// What the check of the constraints against `values` gives.
    pub open spec fn verdict(self, values: Map<Wire, nat>, order: nat) -> Result<
        bool,
        StructuralFault,
    > {
        if self.constraints_defined(values) {
            Ok(self.constraints_hold(values, order))
        } else {
            Err(StructuralFault::WireUnassigned)
        }
    }

    /// What the execution of the gadget on `initial` gives: a fault if the
    /// generators collide or come to a halt before all have run, and else
    /// the verdict on the assignment in which they end.
    pub open spec fn outcome(self, initial: Map<Wire, nat>, order: nat) -> Result<
        bool,
        StructuralFault,
    > {
        if collides(self.generators, order, initial) {
            Err(StructuralFault::WireAlreadyAssigned)
        } else if stalls(self.generators, order, initial) {
            Err(StructuralFault::GeneratorNeverReady)
        } else {
            self.verdict(closure(self.generators, order, initial), order)
        }
    }
}

/// An R1CS gadget.
pub struct Gadget<F: Field> {
    /// The rank-1 constraints which define the R1CS instance.
    pub constraints: Vec<Constraint<F>>,
    /// The generators used to complete a witness from inputs.
    pub witness_generators: Vec<WitnessGenerator<F>>,
}

impl<F: Field> View for Gadget<F> {
    type V = GadgetModel;

    open spec fn view(&self) -> GadgetModel {
        GadgetModel {
            constraints: self.constraints@.map_values(|constraint: Constraint<F>| constraint@),
            generators: self.witness_generators@.map_values(
                |generator: WitnessGenerator<F>| generator@,
            ),
        }
    }
}

impl<F: Field> Gadget<F> {
    /// The number of constraints in this gadget.
    pub fn size(&self) -> (size: usize)
        ensures
            size == self@.constraints.len(),
    {
        self.constraints.len()
    }

    /// Checks every constraint against `values`. It is a fault if a wire that
    /// some constraint refers to has no value, whether or not the other
    /// constraints hold.
    pub fn check_constraints(&self, values: &WireValues<F>) -> (result: Result<
        bool,
        StructuralFault,
    >)
        ensures
            result == self@.verdict(values@, F::spec_order()),
    {
        let mut all_hold = true;
        let mut i: usize = 0;
        while i < self.constraints.len()
            invariant
                i <= self.constraints@.len(),
                forall|j: int| 0 <= j < i ==> (#[trigger] self@.constraints[j]).defined_on(values@),
                all_hold == forall|j: int|
                    0 <= j < i ==> (#[trigger] self@.constraints[j]).holds(values@, F::spec_order()),
            decreases self.constraints@.len() - i,
        {
            assert(self@.constraints[i as int] == self.constraints@[i as int]@);
            match self.constraints[i].evaluate(values) {
                Err(_) => {
                    return Err(StructuralFault::WireUnassigned);
                },
                Ok(holds) => {
                    all_hold = all_hold && holds;
                },
            }
            i += 1;
        }
        Ok(all_hold)
    }

    /// Executes the gadget: completes the witness in `values`, and returns
    /// whether all constraints are satisfied.
    ///
    /// A fault comes back, and no verdict, where the gadget or the values
    /// given to it are malformed: a generator never receives its inputs, a
    /// generator writes to a wire that has a value, or a constraint refers to a
    /// wire that is left without one.
    pub fn execute(&self, values: &mut WireValues<F>) -> (result: Result<bool, StructuralFault>)
        ensures
            result == self@.outcome(old(values)@, F::spec_order()),
            extends(final(values)@, old(values)@),
            match result {
                Err(StructuralFault::WireAlreadyAssigned) => stopped_by_collision(
                    self@.generators,
                    F::spec_order(),
                    old(values)@,
                    final(values)@,
                ),
                _ => final(values)@ == closure(self@.generators, F::spec_order(), old(values)@),
            },
    {
        match self.complete_witness(values) {
            Err(fault) => Err(fault),
            Ok(_) => self.check_constraints(values),
        }
    }

    /// Executes the gadget as [`Gadget::execute`] does, with the witness
    /// completed by [`Gadget::complete_witness_by_rescan`].
    pub fn execute_by_rescan(&self, values: &mut WireValues<F>) -> (result: Result<
        bool,
        StructuralFault,
    >)
        ensures
            result == self@.outcome(old(values)@, F::spec_order()),
            extends(final(values)@, old(values)@),
            match result {
                Err(StructuralFault::WireAlreadyAssigned) => stopped_by_collision(
                    self@.generators,
                    F::spec_order(),
                    old(values)@,
                    final(values)@,
                ),
                _ => final(values)@ == closure(self@.generators, F::spec_order(), old(values)@),
            },
    {
        match self.complete_witness_by_rescan(values) {
            Err(fault) => Err(fault),
            Ok(_) => self.check_constraints(values),
        }
    }

    /// The inputs of each generator, in the order of the generators.
    fn generator_inputs(&self) -> (inputs: Vec<Vec<Wire>>)
        ensures
            inputs@.len() == self@.generators.len(),
            forall|g: int|
                0 <= g < inputs@.len() ==> (#[trigger] inputs@[g])@ == self@.generators[g].inputs(),
    {
        let mut inputs: Vec<Vec<Wire>> = Vec::new();
        let mut g: usize = 0;
        while g < self.witness_generators.len()
            invariant
                g <= self.witness_generators@.len(),
                inputs@.len() == g,
                forall|h: int|
                    0 <= h < g ==> (#[trigger] inputs@[h])@ == self@.generators[h].inputs(),
            decreases self.witness_generators@.len() - g,
        {
            inputs.push(self.witness_generators[g].inputs());
            g += 1;
        }
        inputs
    }

    /// Completes the witness: runs every generator once, each as soon as the
    /// wires it needs have values, and returns the generators in the order in
    /// which they ran.
    ///
    /// The generators are not walked over and over. An index tells for each
    /// wire which generators wait for it, and a count tells for each generator
    /// how many inputs it still waits for. A generator whose count is zero
    /// goes on a queue; when a generator from the queue has run, the
    /// generators that wait for the wires it has written are told.
    pub fn complete_witness(&self, values: &mut WireValues<F>) -> (result: Result<
        Vec<usize>,
        StructuralFault,
    >)
        ensures
            completion(
                self@.generators,
                F::spec_order(),
                old(values)@,
                match result {
                    Ok(schedule) => Ok(schedule@),
                    Err(fault) => Err(fault),
                },
                final(values)@,
            ),
    {
        let ghost generators = self@.generators;
        let ghost order = F::spec_order();
        let ghost initial = values@;
        let count = self.witness_generators.len();
        let inputs = self.generator_inputs();
        let mut index: HashMap<u32, Vec<usize>> = HashMap::new();
        let mut outstanding: Vec<usize> = Vec::new();
        let mut queue: Vec<usize> = Vec::new();
        let mut g: usize = 0;
        while g < count
            invariant
                generators == self@.generators,
                count == generators.len(),
                values@ == initial,
                inputs@.len() == count,
                forall|h: int|
                    0 <= h < count ==> (#[trigger] inputs@[h])@ == generators[h].inputs(),
                g <= count,
                outstanding@.len() == g,
                index_holds(index@, generators, g as int, Seq::empty()),
                queue_holds(queue@, g as nat),
                forall|h: usize|
                    h < g ==> {
                        &&& (#[trigger] outstanding@[h as int]) == missing(
                            generators[h as int].inputs(),
                            initial.dom(),
                        )
                        &&& queue@.contains(h) <==> outstanding@[h as int] == 0
                    },
            decreases count - g,
        {
            let ghost before_queue = queue@;
            let ghost before_outstanding = outstanding@;
            let lacking = register(g, &inputs[g], values, &mut index, Ghost(generators));
            outstanding.push(lacking);
            if lacking == 0 {
                queue.push(g);
            }
            proof {
                assert forall|a: int, b: int|
                    0 <= a < queue@.len() && 0 <= b < queue@.len() && a != b implies queue@[a]
                    != queue@[b] by {
                    if a < before_queue.len() {
                        assert(before_queue[a] == queue@[a]);
                    }
                    if b < before_queue.len() {
                        assert(before_queue[b] == queue@[b]);
                    }
                }
                assert forall|t: int| 0 <= t < queue@.len() implies (#[trigger] queue@[t]) < g
                    + 1 by {
                    if t < before_queue.len() {
                        assert(before_queue[t] == queue@[t]);
                    }
                }
                assert forall|h: usize| h < g + 1 implies {
                    &&& (#[trigger] outstanding@[h as int]) == missing(
                        generators[h as int].inputs(),
                        initial.dom(),
                    )
                    &&& queue@.contains(h) <==> outstanding@[h as int] == 0
                } by {
                    if h < g {
                        assert(outstanding@[h as int] == before_outstanding[h as int]);
                        if before_queue.contains(h) {
                            let a = choose|a: int|
                                0 <= a < before_queue.len() && before_queue[a] == h;
                            assert(queue@[a] == h);
                        }
                    } else if lacking == 0 {
                        assert(queue@[queue@.len() - 1] == h);
                    }
                    if queue@.contains(h) {
                        let a = choose|a: int| 0 <= a < queue@.len() && queue@[a] == h;
                        if a < before_queue.len() {
                            assert(before_queue[a] == h);
                        }
                    }
                }
            }
            g += 1;
        }
        let mut head: usize = 0;
        proof {
            assert(queue@.take(0) =~= Seq::<usize>::empty());
            lemma_distinct_below(queue@, count as nat);
        }
        while head < queue.len()
            invariant
                generators == self@.generators,
                order == F::spec_order(),
                initial == old(values)@,
                count == generators.len(),
                head <= queue@.len() <= count,
                outstanding@.len() == count,
                index_holds(index@, generators, count as int, Seq::empty()),
                queue_holds(queue@, count as nat),
                counts_hold(generators, outstanding@, queue@, values@.dom(), Seq::empty()),
                valid_schedule(generators, order, initial, queue@.take(head as int)),
                values@ == state_after(generators, order, initial, queue@.take(head as int)),
            decreases count - head,
        {
            let g = queue[head];
            let ghost done = queue@.take(head as int);
            let ghost before = values@;
            let ghost generator = generators[g as int];
            proof {
                assert(generator == self.witness_generators@[g as int]@);
                // the generator waits for nothing, and has not run
                assert(queue@.contains(g));
                assert(g < count);
                assert(outstanding@[g as int] == 0);
                lemma_missing_none(generator.inputs(), before.dom());
                assert(generator.ready(before));
                if done.contains(g) {
                    let a = choose|a: int| 0 <= a < done.len() && done[a] == g;
                    assert(queue@[a] == queue@[head as int]);
                }
            }
            match self.witness_generators[g].generate(values) {
                Ok(_) => {},
                Err(_) => {
                    proof {
                        lemma_completion_of_collision(
                            generators,
                            order,
                            initial,
                            done,
                            g,
                            values@,
                        );
                    }
                    return Err(StructuralFault::WireAlreadyAssigned);
                },
            }
            head += 1;
            let outputs = self.witness_generators[g].outputs();
            let ghost mut present = before.dom();
            let ghost ran = done.push(g);
            proof {
                assert(queue@.take(head as int) =~= ran);
                assert(ran.drop_last() =~= done);
                assert(valid_schedule(generators, order, initial, ran));
                lemma_assign(generator.assignments, before, before, order);
            }
            let mut j: usize = 0;
            while j < outputs.len()
                invariant
                    count == generators.len(),
                    j <= outputs@.len(),
                    outputs@ == generator.outputs(),
                    generator.fresh(before),
                    head <= queue@.len(),
                    outstanding@.len() == count,
                    index_holds(index@, generators, count as int, Seq::empty()),
                    queue_holds(queue@, count as nat),
                    counts_hold(generators, outstanding@, queue@, present, Seq::empty()),
                    forall|wire: Wire|
                        present.contains(wire) <==> before.contains_key(wire) || outputs@.take(
                            j as int,
                        ).contains(wire),
                    queue@.take(head as int) == ran,
                    valid_schedule(generators, order, initial, ran),
                    values@ == state_after(generators, order, initial, ran),
                decreases outputs@.len() - j,
            {
                let wire = outputs[j];
                let ghost before_queue = queue@;
                proof {
                    let told = outputs@.take(j as int);
                    if told.contains(wire) {
                        let a = choose|a: int| 0 <= a < told.len() && told[a] == wire;
                        assert(outputs@[a] == outputs@[j as int]);
                    }
                    assert(!before.contains_key(outputs@[j as int]));
                }
                notify(
                    wire,
                    &index,
                    &mut outstanding,
                    &mut queue,
                    Ghost(generators),
                    Ghost(present),
                );
                proof {
                    present = present.insert(wire);
                    assert(queue@.take(head as int) =~= before_queue.take(head as int)) by {
                        assert(queue@.take(before_queue.len() as int) == before_queue);
                        assert forall|a: int| 0 <= a < head implies queue@[a] == before_queue[a] by {
                            assert(queue@.take(before_queue.len() as int)[a] == queue@[a]);
                        }
                    }
                    let told = outputs@.take(j as int);
                    let upto = outputs@.take(j + 1);
                    assert forall|other: Wire|
                        present.contains(other) <==> before.contains_key(other) || upto.contains(
                            other,
                        ) by {
                        if told.contains(other) {
                            let a = choose|a: int| 0 <= a < told.len() && told[a] == other;
                            assert(upto[a] == other);
                        }
                        if upto.contains(other) {
                            let a = choose|a: int| 0 <= a < upto.len() && upto[a] == other;
                            if a < j {
                                assert(told[a] == other);
                            }
                        }
                        if other == wire {
                            assert(upto[j as int] == wire);
                        }
                    }
                }
                j += 1;
            }
            proof {
                assert(outputs@.take(j as int) =~= outputs@);
                assert(present =~= values@.dom());
                lemma_distinct_below(queue@, count as nat);
            }
        }
        proof {
            assert(queue@.take(head as int) =~= queue@);
            assert forall|h: usize| h < count && !queue@.contains(h) implies !(
            #[trigger] generators[h as int]).ready(values@) by {
                lemma_missing_none(generators[h as int].inputs(), values@.dom());
                assert(outstanding@[h as int] != 0);
            }
            lemma_completion_of_saturated(generators, order, initial, queue@);
        }
        if queue.len() == count {
            Ok(queue)
        } else {
            Err(StructuralFault::GeneratorNeverReady)
        }
    }

    /// Completes the witness the plain way: walks over the generators that
    /// have not run, runs each that has all of its inputs, and starts over
    /// until a walk runs none.
    ///
    /// This is the reference for [`Gadget::complete_witness`], which owes
    /// the same and looks at each generator less often.
    pub fn complete_witness_by_rescan(&self, values: &mut WireValues<F>) -> (result: Result<
        Vec<usize>,
        StructuralFault,
    >)
        ensures
            completion(
                self@.generators,
                F::spec_order(),
                old(values)@,
                match result {
                    Ok(schedule) => Ok(schedule@),
                    Err(fault) => Err(fault),
                },
                final(values)@,
            ),
    {
        let ghost generators = self@.generators;
        let ghost order = F::spec_order();
        let ghost initial = values@;
        let count = self.witness_generators.len();
        let inputs = self.generator_inputs();
        let mut pending: Vec<usize> = Vec::new();
        let mut g: usize = 0;
        while g < count
            invariant
                g <= count,
                pending@.len() == g,
                forall|t: int| 0 <= t < g ==> pending@[t] == t,
            decreases count - g,
        {
            pending.push(g);
            g += 1;
        }
        let mut schedule: Vec<usize> = Vec::new();
        let mut made_progress = true;
        proof {
            assert forall|h: usize| h < count implies pending@.contains(h) by {
                assert(pending@[h as int] == h);
            }
        }
        while made_progress
            invariant
                generators == self@.generators,
                order == F::spec_order(),
                initial == old(values)@,
                count == generators.len(),
                inputs@.len() == count,
                forall|h: int|
                    0 <= h < count ==> (#[trigger] inputs@[h])@ == generators[h].inputs(),
                valid_schedule(generators, order, initial, schedule@),
                values@ == state_after(generators, order, initial, schedule@),
                pending@.no_duplicates(),
                forall|t: int| 0 <= t < pending@.len() ==> (#[trigger] pending@[t]) < count,
                forall|t: int|
                    0 <= t < pending@.len() ==> !schedule@.contains(#[trigger] pending@[t]),
                forall|h: usize|
                    h < count ==> #[trigger] schedule@.contains(h) || pending@.contains(h),
                !made_progress ==> forall|t: int|
                    0 <= t < pending@.len() ==> !(#[trigger] generators[pending@[t] as int]).ready(
                        values@,
                    ),
            decreases pending@.len() + if made_progress { 1nat } else { 0nat },
        {
            made_progress = false;
            let ghost walk_schedule = schedule@;
            let mut still_pending: Vec<usize> = Vec::new();
            let mut i: usize = 0;
            while i < pending.len()
                invariant
                    generators == self@.generators,
                    order == F::spec_order(),
                    initial == old(values)@,
                    count == generators.len(),
                    inputs@.len() == count,
                    forall|h: int|
                        0 <= h < count ==> (#[trigger] inputs@[h])@ == generators[h].inputs(),
                    valid_schedule(generators, order, initial, schedule@),
                    values@ == state_after(generators, order, initial, schedule@),
                    i <= pending@.len(),
                    pending@.no_duplicates(),
                    still_pending@.no_duplicates(),
                    forall|k: int|
                        0 <= k < still_pending@.len() ==> exists|t: int|
                            0 <= t < i && pending@[t] == #[trigger] still_pending@[k],
                    still_pending@.len() <= i,
                    made_progress ==> still_pending@.len() < i,
                    forall|t: int| 0 <= t < pending@.len() ==> (#[trigger] pending@[t]) < count,
                    forall|t: int|
                        0 <= t < still_pending@.len() ==> (#[trigger] still_pending@[t]) < count,
                    forall|t: int|
                        i <= t < pending@.len() ==> !schedule@.contains(#[trigger] pending@[t]),
                    forall|t: int|
                        0 <= t < still_pending@.len() ==> !schedule@.contains(
                            #[trigger] still_pending@[t],
                        ),
                    forall|h: usize|
                        h < count ==> #[trigger] schedule@.contains(h) || still_pending@.contains(h)
                            || exists|t: int| i <= t < pending@.len() && pending@[t] == h,
                    !made_progress ==> still_pending@ == pending@.take(i as int),
                    !made_progress ==> forall|t: int|
                        0 <= t < i ==> !(#[trigger] generators[pending@[t] as int]).ready(values@),
                decreases pending@.len() - i,
            {
                let g = pending[i];
                let ghost before = schedule@;
                let ghost before_still = still_pending@;
                if values.contains_all(inputs[g].as_slice()) {
                    match self.witness_generators[g].generate(values) {
                        Ok(_) => {
                            schedule.push(g);
                            made_progress = true;
                            proof {
                                assert(schedule@.drop_last() =~= before);
                                assert forall|t: int| i + 1 <= t < pending@.len() implies !schedule@.contains(
                                    #[trigger] pending@[t],
                                ) by {
                                    if schedule@.contains(pending@[t]) {
                                        let k = choose|k: int|
                                            0 <= k < schedule@.len() && schedule@[k] == pending@[t];
                                        if k < before.len() {
                                            assert(before[k] == pending@[t]);
                                        }
                                    }
                                }
                                assert forall|t: int|
                                    0 <= t < still_pending@.len() implies !schedule@.contains(
                                    #[trigger] still_pending@[t],
                                ) by {
                                    let u = choose|u: int|
                                        0 <= u < i && pending@[u] == still_pending@[t];
                                    if schedule@.contains(still_pending@[t]) {
                                        let k = choose|k: int|
                                            0 <= k < schedule@.len() && schedule@[k]
                                                == still_pending@[t];
                                        if k < before.len() {
                                            assert(before[k] == still_pending@[t]);
                                        }
                                    }
                                }
                            }
                        },
                        Err(_) => {
                            proof {
                                lemma_completion_of_collision(
                                    generators,
                                    order,
                                    initial,
                                    schedule@,
                                    g,
                                    values@,
                                );
                            }
                            return Err(StructuralFault::WireAlreadyAssigned);
                        },
                    }
                } else {
                    still_pending.push(g);
                    proof {
                        if !made_progress {
                            assert(still_pending@ =~= pending@.take(i + 1));
                        }
                        assert forall|a: int, b: int|
                            0 <= a < still_pending@.len() && 0 <= b < still_pending@.len() && a
                                != b implies still_pending@[a] != still_pending@[b] by {
                            if a < before_still.len() {
                                let u = choose|u: int|
                                    0 <= u < i && pending@[u] == before_still[a];
                            }
                            if b < before_still.len() {
                                let u = choose|u: int|
                                    0 <= u < i && pending@[u] == before_still[b];
                            }
                        }
                        assert forall|k: int| 0 <= k < still_pending@.len() implies exists|t: int|
                            0 <= t < i + 1 && pending@[t] == #[trigger] still_pending@[k] by {
                            if k < before_still.len() {
                                let u = choose|u: int|
                                    0 <= u < i && pending@[u] == before_still[k];
                                assert(pending@[u] == still_pending@[k]);
                            } else {
                                assert(pending@[i as int] == still_pending@[k]);
                            }
                        }
                    }
                }
                proof {
                    assert forall|h: usize| h < count implies #[trigger] schedule@.contains(h)
                        || still_pending@.contains(h) || exists|t: int|
                        i + 1 <= t < pending@.len() && pending@[t] == h by {
                        if before.contains(h) {
                            let k = choose|k: int| 0 <= k < before.len() && before[k] == h;
                            assert(schedule@[k] == h);
                        } else if before_still.contains(h) {
                            let k = choose|k: int|
                                0 <= k < before_still.len() && before_still[k] == h;
                            assert(still_pending@[k] == h);
                        } else {
                            let t = choose|t: int| i <= t < pending@.len() && pending@[t] == h;
                            if t == i {
                                if schedule@.len() > before.len() {
                                    assert(schedule@[schedule@.len() - 1] == h);
                                } else {
                                    assert(still_pending@[still_pending@.len() - 1] == h);
                                }
                            }
                        }
                    }
                }
                i += 1;
            }
            proof {
                if !made_progress {
                    assert(pending@.take(i as int) =~= pending@);
                }
                assert forall|h: usize| h < count implies #[trigger] schedule@.contains(h)
                    || still_pending@.contains(h) by {
                    if !schedule@.contains(h) && !still_pending@.contains(h) {
                        let t = choose|t: int| i <= t < pending@.len() && pending@[t] == h;
                    }
                }
            }
            pending = still_pending;
        }
        proof {
            assert forall|h: usize| h < count && !schedule@.contains(h) implies !(
            #[trigger] generators[h as int]).ready(values@) by {
                let t = choose|t: int| 0 <= t < pending@.len() && pending@[t] == h;
                assert(!generators[pending@[t] as int].ready(values@));
            }
            lemma_completion_of_saturated(generators, order, initial, schedule@);
        }
        if schedule.len() == count {
            Ok(schedule)
        } else {
            Err(StructuralFault::GeneratorNeverReady)
        }
    }
}

/// The outcome of an execution can be read off any one saturated valid
/// schedule, whichever scheduler has found it: a halt if the schedule leaves a
/// generator out, and else the verdict on the assignment that it ends in.
pub proof fn lemma_outcome_by_schedule(
    gadget: GadgetModel,
    initial: Map<Wire, nat>,
    order: nat,
    schedule: Seq<usize>,
)
    requires
        valid_schedule(gadget.generators, order, initial, schedule),
        saturated(gadget.generators, order, initial, schedule),
    ensures
        gadget.outcome(initial, order) == if complete(gadget.generators, schedule) {
            gadget.verdict(state_after(gadget.generators, order, initial, schedule), order)
        } else {
            Err(StructuralFault::GeneratorNeverReady)
        },
{
    lemma_saturated_schedule_decides(gadget.generators, order, initial, schedule);
}

/// The outcome of an execution is a fault as soon as one valid schedule
/// ends in a collision.
pub proof fn lemma_outcome_by_collision(
    gadget: GadgetModel,
    initial: Map<Wire, nat>,
    order: nat,
    schedule: Seq<usize>,
    g: usize,
)
    requires
        collides_at(gadget.generators, order, initial, schedule, g),
    ensures
        gadget.outcome(initial, order) == Err::<bool, StructuralFault>(
            StructuralFault::WireAlreadyAssigned,
        ),
{
    lemma_collision_decides(gadget.generators, order, initial, schedule, g);
}

} // verus!
