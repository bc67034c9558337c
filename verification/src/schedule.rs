//! Schedules: the orders in which the witness generators of a gadget can run,
//! and the proof that the order does not matter.
//!
//! A schedule lists generators by their index. It is valid if each generator
//! on it runs once, with all of its inputs present and none of its outputs
//! written before. A valid schedule is saturated if no generator that is left
//! has all of its inputs. Whatever way a scheduler picks the next generator,
//! it walks a valid schedule until that schedule is saturated; the laws of this
//! module say that every such walk runs the same generators and ends in the
//! same assignment.
//!
//! A valid schedule that names every generator is a topological order of the
//! graph in which a generator depends on those that write its inputs.
//!
//! Throughout, `order` is the order of the field in which the generators
//! compute, and `initial` the assignment from which they start.

use crate::fault::StructuralFault;
use crate::tally::lemma_distinct_below;
use crate::wire::Wire;
use crate::wire_values::{agree_on, extends};
use crate::witness_generator::{
    lemma_assign, lemma_rule_local, lemma_rule_wires_are_inputs, GeneratorModel,
};
use vstd::prelude::*;

verus! {

/// The assignment after the generators on `schedule` have run, in that order,
/// starting from `initial`.
pub open spec fn state_after(
    generators: Seq<GeneratorModel>,
    order: nat,
    initial: Map<Wire, nat>,
    schedule: Seq<usize>,
) -> Map<Wire, nat>
    decreases schedule.len(),
{
    if schedule.len() == 0 {
        initial
    } else {
        generators[schedule.last() as int].apply(
            state_after(generators, order, initial, schedule.drop_last()),
            order,
        )
    }
}

/// Whether `schedule` is valid: it names generators of `generators`, none of
/// them twice, and each finds all of its inputs, and none of its outputs, in
/// the assignment that the generators before it have left.
pub open spec fn valid_schedule(
    generators: Seq<GeneratorModel>,
    order: nat,
    initial: Map<Wire, nat>,
    schedule: Seq<usize>,
) -> bool
    decreases schedule.len(),
{
    schedule.len() == 0 || {
        let before = schedule.drop_last();
        let state = state_after(generators, order, initial, before);
        &&& valid_schedule(generators, order, initial, before)
        &&& schedule.last() < generators.len()
        &&& !before.contains(schedule.last())
        &&& generators[schedule.last() as int].ready(state)
        &&& generators[schedule.last() as int].fresh(state)
    }
}

/// Whether no generator that `schedule` leaves out has all of its inputs in
/// the assignment that `schedule` ends in.
pub open spec fn saturated(
    generators: Seq<GeneratorModel>,
    order: nat,
    initial: Map<Wire, nat>,
    schedule: Seq<usize>,
) -> bool {
    forall|g: usize|
        g < generators.len() && !schedule.contains(g) ==> !(#[trigger] generators[g as int]).ready(
            state_after(generators, order, initial, schedule),
        )
}

/// Whether `schedule` names every generator.
pub open spec fn complete(generators: Seq<GeneratorModel>, schedule: Seq<usize>) -> bool {
    forall|g: usize| g < generators.len() ==> #[trigger] schedule.contains(g)
}

/// Whether a generator on `schedule` writes `wire`.
pub open spec fn written(generators: Seq<GeneratorModel>, schedule: Seq<usize>, wire: Wire) -> bool {
    exists|i: int|
        0 <= i < schedule.len() && (#[trigger] generators[schedule[i] as int]).outputs().contains(
            wire,
        )
}

/// Every beginning of a valid schedule is a valid schedule.
pub proof fn lemma_valid_prefix(
    generators: Seq<GeneratorModel>,
    order: nat,
    initial: Map<Wire, nat>,
    schedule: Seq<usize>,
    length: int,
)
    requires
        valid_schedule(generators, order, initial, schedule),
        0 <= length <= schedule.len(),
    ensures
        valid_schedule(generators, order, initial, schedule.take(length)),
    decreases schedule.len(),
{
    if length == schedule.len() {
        assert(schedule.take(length) =~= schedule);
    } else {
        assert(schedule.drop_last().take(length) =~= schedule.take(length));
        lemma_valid_prefix(generators, order, initial, schedule.drop_last(), length);
    }
}

/// The generator at place `i` of a valid schedule finds its inputs, and none
/// of its outputs, in the assignment that those before it have left, and
/// leaves what it makes of that assignment.
pub proof fn lemma_step(
    generators: Seq<GeneratorModel>,
    order: nat,
    initial: Map<Wire, nat>,
    schedule: Seq<usize>,
    i: int,
)
    requires
        valid_schedule(generators, order, initial, schedule),
        0 <= i < schedule.len(),
    ensures
        schedule[i] < generators.len(),
        generators[schedule[i] as int].ready(
            state_after(generators, order, initial, schedule.take(i)),
        ),
        generators[schedule[i] as int].fresh(
            state_after(generators, order, initial, schedule.take(i)),
        ),
        state_after(generators, order, initial, schedule.take(i + 1)) == generators[schedule[i] as int].apply(
            state_after(generators, order, initial, schedule.take(i)),
            order,
        ),
{
    let upto = schedule.take(i + 1);
    lemma_valid_prefix(generators, order, initial, schedule, i + 1);
    assert(upto.drop_last() =~= schedule.take(i));
    assert(upto.last() == schedule[i]);
}

/// A valid schedule only adds to the assignment: what a beginning of it has
/// left is still there at its end.
pub proof fn lemma_growth(
    generators: Seq<GeneratorModel>,
    order: nat,
    initial: Map<Wire, nat>,
    schedule: Seq<usize>,
    length: int,
)
    requires
        valid_schedule(generators, order, initial, schedule),
        0 <= length <= schedule.len(),
    ensures
        extends(
            state_after(generators, order, initial, schedule),
            state_after(generators, order, initial, schedule.take(length)),
        ),
    decreases schedule.len(),
{
    if length == schedule.len() {
        assert(schedule.take(length) =~= schedule);
    } else {
        let before = schedule.drop_last();
        assert(before.take(length) =~= schedule.take(length));
        lemma_growth(generators, order, initial, before, length);
        let state = state_after(generators, order, initial, before);
        lemma_assign(generators[schedule.last() as int].assignments, state, state, order);
    }
}

/// The wires that have a value after a valid schedule are those that had one
/// at the start and those that a generator on the schedule writes.
pub proof fn lemma_domain(
    generators: Seq<GeneratorModel>,
    order: nat,
    initial: Map<Wire, nat>,
    schedule: Seq<usize>,
)
    requires
        valid_schedule(generators, order, initial, schedule),
    ensures
        forall|wire: Wire|
            state_after(generators, order, initial, schedule).contains_key(wire)
                <==> initial.contains_key(wire) || written(generators, schedule, wire),
    decreases schedule.len(),
{
    if schedule.len() > 0 {
        let before = schedule.drop_last();
        let last = generators[schedule.last() as int];
        let state = state_after(generators, order, initial, before);
        lemma_domain(generators, order, initial, before);
        lemma_assign(last.assignments, state, state, order);
        assert forall|wire: Wire|
            state_after(generators, order, initial, schedule).contains_key(wire)
                <==> initial.contains_key(wire) || written(generators, schedule, wire) by {
            if written(generators, before, wire) {
                let i = choose|i: int|
                    0 <= i < before.len() && (#[trigger] generators[before[i] as int]).outputs().contains(
                        wire,
                    );
                assert(generators[schedule[i] as int].outputs().contains(wire));
            }
            if last.outputs().contains(wire) {
                assert(generators[schedule[schedule.len() - 1] as int].outputs().contains(wire));
            }
            if written(generators, schedule, wire) {
                let i = choose|i: int|
                    0 <= i < schedule.len() && (
                    #[trigger] generators[schedule[i] as int]).outputs().contains(wire);
                if i < before.len() {
                    assert(generators[before[i] as int].outputs().contains(wire));
                }
            }
        }
    }
}

/// A generator finds in a larger assignment the inputs it finds in a smaller one.
pub proof fn lemma_ready_grows(
    generator: GeneratorModel,
    smaller: Map<Wire, nat>,
    larger: Map<Wire, nat>,
)
    requires
        generator.ready(smaller),
        extends(larger, smaller),
    ensures
        generator.ready(larger),
        agree_on(smaller, larger, generator.inputs()),
{
    assert forall|i: int| 0 <= i < generator.inputs().len() implies larger.contains_key(
        #[trigger] generator.inputs()[i],
    ) && smaller[generator.inputs()[i]] == larger[generator.inputs()[i]] by {
        assert(smaller.contains_key(generator.inputs()[i]));
    }
}

/// A generator that finds the same values on its inputs in two assignments
/// computes the same value for each of its outputs.
pub proof fn lemma_generator_local(
    generator: GeneratorModel,
    first: Map<Wire, nat>,
    second: Map<Wire, nat>,
    order: nat,
)
    requires
        agree_on(first, second, generator.inputs()),
    ensures
        forall|i: int|
            0 <= i < generator.assignments.len() ==> (#[trigger] generator.assignments[i]).rule.value(
                first,
                order,
            ) == generator.assignments[i].rule.value(second, order),
{
    assert forall|i: int| 0 <= i < generator.assignments.len() implies (
    #[trigger] generator.assignments[i]).rule.value(first, order)
        == generator.assignments[i].rule.value(second, order) by {
        let rule = generator.assignments[i].rule;
        assert forall|k: int| 0 <= k < rule.wires().len() implies first[#[trigger] rule.wires()[k]]
            == second[rule.wires()[k]] by {
            lemma_rule_wires_are_inputs(generator.assignments, i, k);
            let m = choose|m: int|
                0 <= m < generator.inputs().len() && generator.inputs()[m] == rule.wires()[k];
            assert(first[generator.inputs()[m]] == second[generator.inputs()[m]]);
        }
        lemma_rule_local(rule, first, second, order);
    }
}

/// Whatever a valid schedule does, a saturated valid schedule from the same
/// start does too: it runs every generator that the first one runs, and ends
/// in an assignment that holds everything the first one ends in.
pub proof fn lemma_embedding(
    generators: Seq<GeneratorModel>,
    order: nat,
    initial: Map<Wire, nat>,
    schedule: Seq<usize>,
    saturated_schedule: Seq<usize>,
)
    requires
        valid_schedule(generators, order, initial, schedule),
        valid_schedule(generators, order, initial, saturated_schedule),
        saturated(generators, order, initial, saturated_schedule),
    ensures
        forall|i: int| 0 <= i < schedule.len() ==> saturated_schedule.contains(#[trigger] schedule[i]),
        extends(
            state_after(generators, order, initial, saturated_schedule),
            state_after(generators, order, initial, schedule),
        ),
    decreases schedule.len(),
{
    let full = saturated_schedule;
    let end = state_after(generators, order, initial, full);
    if schedule.len() == 0 {
        assert(full.take(0) =~= Seq::<usize>::empty());
        assert(state_after(generators, order, initial, full.take(0)) == initial);
        lemma_growth(generators, order, initial, full, 0);
    } else {
        let before = schedule.drop_last();
        let g = schedule.last();
        let generator = generators[g as int];
        let here = state_after(generators, order, initial, before);
        lemma_embedding(generators, order, initial, before, full);
        lemma_ready_grows(generator, here, end);
        // the saturated schedule cannot have left the generator out
        assert(full.contains(g));
        let j = choose|j: int| 0 <= j < full.len() && full[j] == g;
        let there = state_after(generators, order, initial, full.take(j));
        let next = state_after(generators, order, initial, full.take(j + 1));
        lemma_step(generators, order, initial, full, j);
        lemma_growth(generators, order, initial, full, j);
        lemma_growth(generators, order, initial, full, j + 1);
        lemma_ready_grows(generator, there, end);
        assert(agree_on(here, there, generator.inputs()));
        lemma_generator_local(generator, here, there, order);
        lemma_assign(generator.assignments, here, here, order);
        lemma_assign(generator.assignments, there, there, order);
        let after = state_after(generators, order, initial, schedule);
        assert forall|wire: Wire| #[trigger] after.contains_key(wire) implies end.contains_key(
            wire,
        ) && end[wire] == after[wire] by {
            if generator.outputs().contains(wire) {
                let i = choose|i: int|
                    0 <= i < generator.outputs().len() && generator.outputs()[i] == wire;
                assert(generator.assignments[i].wire == wire);
                assert(next.contains_key(wire));
            } else {
                assert(here.contains_key(wire));
            }
        }
        assert forall|i: int| 0 <= i < schedule.len() implies full.contains(
            #[trigger] schedule[i],
        ) by {
            if i < before.len() {
                assert(before[i] == schedule[i]);
            }
        }
    }
}

/// The order in which generators run does not matter: two saturated valid
/// schedules from the same start run the same generators and end in the same
/// assignment.
pub proof fn lemma_confluence(
    generators: Seq<GeneratorModel>,
    order: nat,
    initial: Map<Wire, nat>,
    first: Seq<usize>,
    second: Seq<usize>,
)
    requires
        valid_schedule(generators, order, initial, first),
        saturated(generators, order, initial, first),
        valid_schedule(generators, order, initial, second),
        saturated(generators, order, initial, second),
    ensures
        state_after(generators, order, initial, first) == state_after(
            generators,
            order,
            initial,
            second,
        ),
        forall|g: usize| first.contains(g) <==> second.contains(g),
{
    lemma_embedding(generators, order, initial, first, second);
    lemma_embedding(generators, order, initial, second, first);
    assert(state_after(generators, order, initial, first) =~= state_after(
        generators,
        order,
        initial,
        second,
    ));
    assert forall|g: usize| first.contains(g) <==> second.contains(g) by {
        if first.contains(g) {
            let i = choose|i: int| 0 <= i < first.len() && first[i] == g;
            assert(second.contains(first[i]));
        }
        if second.contains(g) {
            let i = choose|i: int| 0 <= i < second.len() && second[i] == g;
            assert(first.contains(second[i]));
        }
    }
}

/// Whether the generators can all run: some valid schedule names every one.
pub open spec fn completes(
    generators: Seq<GeneratorModel>,
    order: nat,
    initial: Map<Wire, nat>,
) -> bool {
    exists|schedule: Seq<usize>| #[trigger]
        valid_schedule(generators, order, initial, schedule) && complete(generators, schedule)
}

/// Whether the generators come to a halt before all have run: some valid
/// schedule is saturated and yet leaves a generator out.
pub open spec fn stalls(generators: Seq<GeneratorModel>, order: nat, initial: Map<Wire, nat>) -> bool {
    exists|schedule: Seq<usize>| #[trigger]
        valid_schedule(generators, order, initial, schedule) && saturated(
            generators,
            order,
            initial,
            schedule,
        ) && !complete(generators, schedule)
}

/// Whether, after the valid schedule `schedule`, the generator `g` is left,
/// has all of its inputs, and cannot write its outputs.
pub open spec fn collides_at(
    generators: Seq<GeneratorModel>,
    order: nat,
    initial: Map<Wire, nat>,
    schedule: Seq<usize>,
    g: usize,
) -> bool {
    &&& valid_schedule(generators, order, initial, schedule)
    &&& g < generators.len()
    &&& !schedule.contains(g)
    &&& generators[g as int].ready(state_after(generators, order, initial, schedule))
    &&& !generators[g as int].fresh(state_after(generators, order, initial, schedule))
}

/// Whether some generator, once it has its inputs, would write to a wire that
/// has a value, or twice to one wire.
pub open spec fn collides(
    generators: Seq<GeneratorModel>,
    order: nat,
    initial: Map<Wire, nat>,
) -> bool {
    exists|schedule: Seq<usize>, g: usize| collides_at(generators, order, initial, schedule, g)
}

/// The assignment in which the generators end, where they do not collide:
/// that after any saturated valid schedule.
pub open spec fn closure(
    generators: Seq<GeneratorModel>,
    order: nat,
    initial: Map<Wire, nat>,
) -> Map<Wire, nat> {
    state_after(
        generators,
        order,
        initial,
        choose|schedule: Seq<usize>| #[trigger]
            valid_schedule(generators, order, initial, schedule) && saturated(
                generators,
                order,
                initial,
                schedule,
            ),
    )
}

/// Where one valid schedule ends in a collision, no valid schedule is saturated.
pub proof fn lemma_collision_excludes_saturation(
    generators: Seq<GeneratorModel>,
    order: nat,
    initial: Map<Wire, nat>,
    schedule: Seq<usize>,
    g: usize,
    other: Seq<usize>,
)
    requires
        collides_at(generators, order, initial, schedule, g),
        valid_schedule(generators, order, initial, other),
    ensures
        !saturated(generators, order, initial, other),
{
    if saturated(generators, order, initial, other) {
        let generator = generators[g as int];
        let here = state_after(generators, order, initial, schedule);
        let end = state_after(generators, order, initial, other);
        lemma_embedding(generators, order, initial, schedule, other);
        lemma_ready_grows(generator, here, end);
        assert(other.contains(g));
        let j = choose|j: int| 0 <= j < other.len() && other[j] == g;
        let there = state_after(generators, order, initial, other.take(j));
        lemma_step(generators, order, initial, other, j);
        // the generator could write its outputs on `other`: one of them has a value on `schedule`
        let k = choose|k: int|
            0 <= k < generator.outputs().len() && here.contains_key(
                #[trigger] generator.outputs()[k],
            );
        let wire = generator.outputs()[k];
        lemma_domain(generators, order, initial, schedule);
        lemma_valid_prefix(generators, order, initial, other, j);
        lemma_domain(generators, order, initial, other.take(j));
        if !initial.contains_key(wire) {
            let i = choose|i: int|
                0 <= i < schedule.len() && (#[trigger] generators[schedule[i] as int]).outputs().contains(
                    wire,
                );
            let h = schedule[i];
            assert(other.contains(schedule[i]));
            let m = choose|m: int| 0 <= m < other.len() && other[m] == h;
            if m < j {
                assert(generators[other.take(j)[m] as int].outputs().contains(wire));
                assert(written(generators, other.take(j), wire));
            } else {
                assert(m > j);
                lemma_step(generators, order, initial, other, m);
                lemma_valid_prefix(generators, order, initial, other, m);
                lemma_domain(generators, order, initial, other.take(m));
                assert(generators[other.take(m)[j] as int].outputs().contains(wire));
                assert(written(generators, other.take(m), wire));
                let n = choose|n: int|
                    0 <= n < generators[h as int].outputs().len() && generators[h as int].outputs()[n]
                        == wire;
                assert(false);
            }
        }
        assert(there.contains_key(wire));
        assert(false);
    }
}

/// What one saturated valid schedule tells of all: the generators do not
/// collide, they end in the assignment in which this schedule ends, and they
/// all run exactly if this schedule names them all.
pub proof fn lemma_saturated_schedule_decides(
    generators: Seq<GeneratorModel>,
    order: nat,
    initial: Map<Wire, nat>,
    schedule: Seq<usize>,
)
    requires
        valid_schedule(generators, order, initial, schedule),
        saturated(generators, order, initial, schedule),
    ensures
        !collides(generators, order, initial),
        closure(generators, order, initial) == state_after(generators, order, initial, schedule),
        completes(generators, order, initial) <==> complete(generators, schedule),
        stalls(generators, order, initial) <==> !complete(generators, schedule),
{
    if collides(generators, order, initial) {
        let (other, g) = choose|other: Seq<usize>, g: usize|
            collides_at(generators, order, initial, other, g);
        lemma_collision_excludes_saturation(generators, order, initial, other, g, schedule);
    }
    let chosen = choose|chosen: Seq<usize>| #[trigger]
        valid_schedule(generators, order, initial, chosen) && saturated(
            generators,
            order,
            initial,
            chosen,
        );
    lemma_confluence(generators, order, initial, schedule, chosen);
    if completes(generators, order, initial) {
        let other = choose|other: Seq<usize>| #[trigger]
            valid_schedule(generators, order, initial, other) && complete(generators, other);
        lemma_confluence(generators, order, initial, schedule, other);
    }
    if stalls(generators, order, initial) {
        let other = choose|other: Seq<usize>| #[trigger]
            valid_schedule(generators, order, initial, other) && saturated(
                generators,
                order,
                initial,
                other,
            ) && !complete(generators, other);
        lemma_confluence(generators, order, initial, schedule, other);
    }
}

/// Where one valid schedule ends in a collision, the generators collide, and
/// they neither all run nor come to a halt.
pub proof fn lemma_collision_decides(
    generators: Seq<GeneratorModel>,
    order: nat,
    initial: Map<Wire, nat>,
    schedule: Seq<usize>,
    g: usize,
)
    requires
        collides_at(generators, order, initial, schedule, g),
    ensures
        collides(generators, order, initial),
        !completes(generators, order, initial),
        !stalls(generators, order, initial),
{
    if completes(generators, order, initial) {
        let other = choose|other: Seq<usize>| #[trigger]
            valid_schedule(generators, order, initial, other) && complete(generators, other);
        lemma_collision_excludes_saturation(generators, order, initial, schedule, g, other);
    }
    if stalls(generators, order, initial) {
        let other = choose|other: Seq<usize>| #[trigger]
            valid_schedule(generators, order, initial, other) && saturated(
                generators,
                order,
                initial,
                other,
            ) && !complete(generators, other);
        lemma_collision_excludes_saturation(generators, order, initial, schedule, g, other);
    }
}

/// No generator is twice on a valid schedule, and each is one of `generators`.
pub proof fn lemma_valid_distinct(
    generators: Seq<GeneratorModel>,
    order: nat,
    initial: Map<Wire, nat>,
    schedule: Seq<usize>,
)
    requires
        valid_schedule(generators, order, initial, schedule),
    ensures
        schedule.no_duplicates(),
        forall|i: int| 0 <= i < schedule.len() ==> (#[trigger] schedule[i]) < generators.len(),
    decreases schedule.len(),
{
    if schedule.len() > 0 {
        let before = schedule.drop_last();
        lemma_valid_distinct(generators, order, initial, before);
        assert forall|i: int, j: int|
            0 <= i < schedule.len() && 0 <= j < schedule.len() && i != j implies schedule[i]
            != schedule[j] by {
            if i < before.len() {
                assert(before[i] == schedule[i]);
            }
            if j < before.len() {
                assert(before[j] == schedule[j]);
            }
        }
        assert forall|i: int| 0 <= i < schedule.len() implies (#[trigger] schedule[i])
            < generators.len() by {
            if i < before.len() {
                assert(before[i] == schedule[i]);
            }
        }
    }
}

/// Whether `end` is an assignment in which a scheduler can stop on a
/// collision: it has run a valid schedule, and then a generator that has
/// its inputs and has written its outputs up to the first that it could not
/// write.
pub open spec fn stopped_by_collision(
    generators: Seq<GeneratorModel>,
    order: nat,
    initial: Map<Wire, nat>,
    end: Map<Wire, nat>,
) -> bool {
    exists|schedule: Seq<usize>, g: usize| #[trigger]
        collides_at(generators, order, initial, schedule, g) && end == generators[g as int].apply_until_clash(
            state_after(generators, order, initial, schedule),
            order,
        )
}

/// What witness completion owes its caller, whatever the order in which it
/// runs the generators. `result` is the schedule that it has run, or the
/// fault that it has met, and `end` is the assignment that it leaves.
///
/// Exactly one of three things holds of the generators and the assignment
/// at the start, and the result says which. They all run: then each has run
/// exactly once, on a valid schedule, and `end` is what that schedule, and
/// every other, leaves. Or they come to a halt: then `end` is what every
/// saturated schedule leaves. Or they collide: then `end` is what a valid
/// schedule leaves, and after it the outputs that the colliding generator
/// could still write. In each case `end` holds what was there at the start.
pub open spec fn completion(
    generators: Seq<GeneratorModel>,
    order: nat,
    initial: Map<Wire, nat>,
    result: Result<Seq<usize>, StructuralFault>,
    end: Map<Wire, nat>,
) -> bool {
    match result {
        Ok(schedule) => {
            &&& completes(generators, order, initial)
            &&& !stalls(generators, order, initial)
            &&& !collides(generators, order, initial)
            &&& valid_schedule(generators, order, initial, schedule)
            &&& complete(generators, schedule)
            &&& schedule.no_duplicates()
            &&& schedule.len() == generators.len()
            &&& end == state_after(generators, order, initial, schedule)
            &&& end == closure(generators, order, initial)
            &&& extends(end, initial)
        },
        Err(StructuralFault::GeneratorNeverReady) => {
            &&& stalls(generators, order, initial)
            &&& !completes(generators, order, initial)
            &&& !collides(generators, order, initial)
            &&& end == closure(generators, order, initial)
            &&& extends(end, initial)
        },
        Err(StructuralFault::WireAlreadyAssigned) => {
            &&& collides(generators, order, initial)
            &&& !completes(generators, order, initial)
            &&& !stalls(generators, order, initial)
            &&& stopped_by_collision(generators, order, initial, end)
            &&& extends(end, initial)
        },
        Err(StructuralFault::WireUnassigned) => false,
    }
}

/// A scheduler that has run a valid schedule to saturation has completed
/// the witness if the schedule names every generator, and else has found
/// that the generators come to a halt.
pub proof fn lemma_completion_of_saturated(
    generators: Seq<GeneratorModel>,
    order: nat,
    initial: Map<Wire, nat>,
    schedule: Seq<usize>,
)
    requires
        valid_schedule(generators, order, initial, schedule),
        saturated(generators, order, initial, schedule),
        generators.len() <= usize::MAX,
    ensures
        schedule.len() <= generators.len(),
        schedule.len() == generators.len() <==> complete(generators, schedule),
        completion(
            generators,
            order,
            initial,
            if schedule.len() == generators.len() {
                Ok(schedule)
            } else {
                Err(StructuralFault::GeneratorNeverReady)
            },
            state_after(generators, order, initial, schedule),
        ),
{
    lemma_saturated_schedule_decides(generators, order, initial, schedule);
    lemma_valid_distinct(generators, order, initial, schedule);
    lemma_distinct_below(schedule, generators.len());
    assert(schedule.take(0) =~= Seq::<usize>::empty());
    lemma_growth(generators, order, initial, schedule, 0);
}

/// A scheduler that has run a valid schedule and then met a generator that
/// has its inputs and cannot write its outputs has found that the
/// generators collide.
pub proof fn lemma_completion_of_collision(
    generators: Seq<GeneratorModel>,
    order: nat,
    initial: Map<Wire, nat>,
    schedule: Seq<usize>,
    g: usize,
    end: Map<Wire, nat>,
)
    requires
        collides_at(generators, order, initial, schedule, g),
        end == generators[g as int].apply_until_clash(
            state_after(generators, order, initial, schedule),
            order,
        ),
        extends(end, state_after(generators, order, initial, schedule)),
    ensures
        completion(generators, order, initial, Err(StructuralFault::WireAlreadyAssigned), end),
{
    lemma_collision_decides(generators, order, initial, schedule, g);
    assert(schedule.take(0) =~= Seq::<usize>::empty());
    lemma_growth(generators, order, initial, schedule, 0);
}

/// Witness completion has one outcome. Two schedulers that both owe what
/// `completion` says, started on the same generators and the same
/// assignment, both succeed or meet the same fault. Where they succeed they
/// have run the same generators and leave the same assignment, and where
/// the generators come to a halt they leave the same assignment too.
pub proof fn lemma_completion_unique(
    generators: Seq<GeneratorModel>,
    order: nat,
    initial: Map<Wire, nat>,
    first: Result<Seq<usize>, StructuralFault>,
    first_end: Map<Wire, nat>,
    second: Result<Seq<usize>, StructuralFault>,
    second_end: Map<Wire, nat>,
)
    requires
        completion(generators, order, initial, first, first_end),
        completion(generators, order, initial, second, second_end),
    ensures
        first is Ok <==> second is Ok,
        first is Err ==> first == second,
        !collides(generators, order, initial) ==> first_end == second_end,
        first is Ok ==> forall|g: usize| first->Ok_0.contains(g) <==> second->Ok_0.contains(g),
{
    if first is Ok {
        lemma_confluence(generators, order, initial, first->Ok_0, second->Ok_0);
    }
}

/// From a valid schedule on, the generators all run, come to a halt, or collide.
proof fn lemma_continue(
    generators: Seq<GeneratorModel>,
    order: nat,
    initial: Map<Wire, nat>,
    schedule: Seq<usize>,
)
    requires
        valid_schedule(generators, order, initial, schedule),
        generators.len() <= usize::MAX,
    ensures
        completes(generators, order, initial) || stalls(generators, order, initial) || collides(
            generators,
            order,
            initial,
        ),
    decreases generators.len() - schedule.len(),
{
    lemma_valid_distinct(generators, order, initial, schedule);
    lemma_distinct_below(schedule, generators.len());
    if saturated(generators, order, initial, schedule) {
        lemma_saturated_schedule_decides(generators, order, initial, schedule);
    } else {
        let state = state_after(generators, order, initial, schedule);
        let g = choose|g: usize|
            g < generators.len() && !schedule.contains(g) && (#[trigger] generators[g as int]).ready(
                state,
            );
        if generators[g as int].fresh(state) {
            let longer = schedule.push(g);
            assert(longer.drop_last() =~= schedule);
            assert(valid_schedule(generators, order, initial, longer));
            lemma_continue(generators, order, initial, longer);
        } else {
            assert(collides_at(generators, order, initial, schedule, g));
        }
    }
}

/// Of three things, exactly one holds of any generators and any assignment
/// to start from: the generators all run, or they come to a halt before all
/// have run, or they collide.
pub proof fn lemma_exactly_one_outcome(
    generators: Seq<GeneratorModel>,
    order: nat,
    initial: Map<Wire, nat>,
)
    requires
        generators.len() <= usize::MAX,
    ensures
        completes(generators, order, initial) || stalls(generators, order, initial) || collides(
            generators,
            order,
            initial,
        ),
        !(completes(generators, order, initial) && stalls(generators, order, initial)),
        !(completes(generators, order, initial) && collides(generators, order, initial)),
        !(stalls(generators, order, initial) && collides(generators, order, initial)),
{
    lemma_continue(generators, order, initial, Seq::empty());
    if completes(generators, order, initial) {
        let schedule = choose|schedule: Seq<usize>| #[trigger]
            valid_schedule(generators, order, initial, schedule) && complete(generators, schedule);
        lemma_saturated_schedule_decides(generators, order, initial, schedule);
    }
    if stalls(generators, order, initial) {
        let schedule = choose|schedule: Seq<usize>| #[trigger]
            valid_schedule(generators, order, initial, schedule) && saturated(
                generators,
                order,
                initial,
                schedule,
            ) && !complete(generators, schedule);
        lemma_saturated_schedule_decides(generators, order, initial, schedule);
    }
}

} // verus!
