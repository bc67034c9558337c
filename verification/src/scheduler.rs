//! The books that the event-driven scheduler keeps: for every wire the
//! generators that wait for it, for every generator the number of inputs it
//! still waits for, and the queue of generators that wait for none.

use crate::field::Field;
use crate::tally::{
    lemma_missing_insert, lemma_missing_step, lemma_occurrences_none, lemma_occurrences_prefix,
    lemma_occurrences_step, missing, occurrences,
};
use crate::wire::Wire;
use crate::wire_values::WireValues;
use crate::witness_generator::GeneratorModel;
use std::collections::HashMap;
use vstd::prelude::*;

verus! {

/// The generators that `index` lists for `wire`, one entry for each place
/// at which the wire stands among a generator's inputs.
pub open spec fn waiters(index: Map<u32, Vec<usize>>, wire: Wire) -> Seq<usize> {
    if index.contains_key(wire.index) {
        index[wire.index]@
    } else {
        Seq::empty()
    }
}

/// Whether `index` lists the inputs of the first `built` generators, and of
/// the next one the inputs `partial`, and nothing else: a generator stands
/// in the list of a wire as often as the wire stands among its inputs.
pub open spec fn index_holds(
    index: Map<u32, Vec<usize>>,
    generators: Seq<GeneratorModel>,
    built: int,
    partial: Seq<Wire>,
) -> bool {
    forall|wire: Wire, h: usize| #[trigger]
        occurrences(waiters(index, wire), h) == if h < built {
            occurrences(generators[h as int].inputs(), wire)
        } else if h == built {
            occurrences(partial, wire)
        } else {
            0
        }
}

/// Whether the counts are right for the wires in `present`: each generator
/// waits for as many inputs as are missing from `present`, less the entries
/// `seen` of the list that is being walked, and is on the queue exactly if
/// it waits for none.
pub open spec fn counts_hold(
    generators: Seq<GeneratorModel>,
    outstanding: Seq<usize>,
    queue: Seq<usize>,
    present: Set<Wire>,
    seen: Seq<usize>,
) -> bool {
    forall|h: usize|
        h < generators.len() ==> {
            &&& (#[trigger] outstanding[h as int]) + occurrences(seen, h) == missing(
                generators[h as int].inputs(),
                present,
            )
            &&& queue.contains(h) <==> outstanding[h as int] == 0
        }
}

/// Whether `queue` is a list of distinct generators.
pub open spec fn queue_holds(queue: Seq<usize>, count: nat) -> bool {
    &&& queue.no_duplicates()
    &&& forall|t: int| 0 <= t < queue.len() ==> (#[trigger] queue[t]) < count
}

/// Enters the inputs of generator `g` in the index, and counts those that
/// have no value yet.
pub(crate) fn register<F: Field>(
    g: usize,
    wires: &Vec<Wire>,
    values: &WireValues<F>,
    index: &mut HashMap<u32, Vec<usize>>,
    Ghost(generators): Ghost<Seq<GeneratorModel>>,
) -> (lacking: usize)
    requires
        g < generators.len(),
        wires@ == generators[g as int].inputs(),
        index_holds(old(index)@, generators, g as int, Seq::empty()),
    ensures
        index_holds(final(index)@, generators, g + 1, Seq::empty()),
        lacking == missing(wires@, values@.dom()),
{
    let mut lacking: usize = 0;
    let mut k: usize = 0;
    while k < wires.len()
        invariant
            k <= wires@.len(),
            lacking <= k,
            lacking == missing(wires@.take(k as int), values@.dom()),
            index_holds(index@, generators, g as int, wires@.take(k as int)),
        decreases wires@.len() - k,
    {
        let wire = wires[k];
        let ghost before = index@;
        proof {
            lemma_missing_step(wires@, k as int, values@.dom());
        }
        if !values.contains(wire) {
            lacking += 1;
        }
        let mut list = match index.remove(&wire.index) {
            Some(list) => list,
            None => Vec::new(),
        };
        let ghost old_list = list@;
        list.push(g);
        index.insert(wire.index, list);
        proof {
            assert(old_list == waiters(before, wire));
            assert(old_list.push(g).drop_last() =~= old_list);
            assert forall|other: Wire, h: usize| #[trigger]
                occurrences(waiters(index@, other), h) == if h < g {
                    occurrences(generators[h as int].inputs(), other)
                } else if h == g {
                    occurrences(wires@.take(k + 1), other)
                } else {
                    0
                } by {
                lemma_occurrences_step(wires@, k as int, other);
                assert(occurrences(waiters(before, other), h) == if h < g {
                    occurrences(generators[h as int].inputs(), other)
                } else if h == g {
                    occurrences(wires@.take(k as int), other)
                } else {
                    0
                });
                if other == wire {
                    assert(waiters(index@, other) == old_list.push(g));
                } else {
                    assert(other.index != wire.index);
                    assert(waiters(index@, other) == waiters(before, other));
                }
            }
        }
        k += 1;
    }
    proof {
        assert(wires@.take(k as int) =~= wires@);
        assert forall|other: Wire, h: usize| #[trigger]
            occurrences(waiters(index@, other), h) == if h < g + 1 {
                occurrences(generators[h as int].inputs(), other)
            } else if h == g + 1 {
                occurrences(Seq::<Wire>::empty(), other)
            } else {
                0
            } by {
            assert(occurrences(waiters(index@, other), h) == if h < g {
                occurrences(generators[h as int].inputs(), other)
            } else if h == g {
                occurrences(wires@, other)
            } else {
                0
            });
        }
    }
    lacking
}

/// Tells the generators that wait for `wire` that it has a value now: each
/// waits for one input less for every place at which the wire stands among
/// its inputs, and goes on the queue when it waits for none.
pub(crate) fn notify(
    wire: Wire,
    index: &HashMap<u32, Vec<usize>>,
    outstanding: &mut Vec<usize>,
    queue: &mut Vec<usize>,
    Ghost(generators): Ghost<Seq<GeneratorModel>>,
    Ghost(present): Ghost<Set<Wire>>,
)
    requires
        index_holds(index@, generators, generators.len() as int, Seq::empty()),
        old(outstanding)@.len() == generators.len(),
        queue_holds(old(queue)@, generators.len()),
        counts_hold(generators, old(outstanding)@, old(queue)@, present, Seq::empty()),
        !present.contains(wire),
    ensures
        final(outstanding)@.len() == generators.len(),
        queue_holds(final(queue)@, generators.len()),
        counts_hold(
            generators,
            final(outstanding)@,
            final(queue)@,
            present.insert(wire),
            Seq::empty(),
        ),
        old(queue)@.len() <= final(queue)@.len(),
        final(queue)@.take(old(queue)@.len() as int) == old(queue)@,
{
    let ghost list_model = waiters(index@, wire);
    match index.get(&wire.index) {
        None => {},
        Some(list) => {
            let mut t: usize = 0;
            while t < list.len()
                invariant
                    t <= list@.len(),
                    list@ == list_model,
                    list_model == waiters(index@, wire),
                    index_holds(index@, generators, generators.len() as int, Seq::empty()),
                    outstanding@.len() == generators.len(),
                    queue_holds(queue@, generators.len()),
                    counts_hold(generators, outstanding@, queue@, present, list@.take(t as int)),
                    !present.contains(wire),
                    old(queue)@.len() <= queue@.len(),
                    queue@.take(old(queue)@.len() as int) == old(queue)@,
                decreases list@.len() - t,
            {
                let h = list[t];
                let ghost before_queue = queue@;
                let ghost before_outstanding = outstanding@;
                proof {
                    // the generator is one of ours, and still waits for this place
                    assert(list@.contains(h));
                    lemma_occurrences_none(list@, h);
                    assert(occurrences(waiters(index@, wire), h) != 0);
                    assert(h < generators.len());
                    lemma_occurrences_step(list@, t as int, h);
                    lemma_occurrences_prefix(list@, t + 1, h);
                    lemma_missing_insert(generators[h as int].inputs(), present, wire);
                    assert(outstanding@[h as int] >= 1);
                }
                let left = outstanding[h] - 1;
                outstanding.set(h, left);
                if left == 0 {
                    queue.push(h);
                }
                proof {
                    assert(queue@.take(old(queue)@.len() as int) =~= old(queue)@);
                    if left == 0 {
                        assert(!before_queue.contains(h));
                        assert forall|a: int, b: int|
                            0 <= a < queue@.len() && 0 <= b < queue@.len() && a != b implies queue@[a]
                            != queue@[b] by {
                            if a < before_queue.len() {
                                assert(before_queue[a] == queue@[a]);
                            }
                            if b < before_queue.len() {
                                assert(before_queue[b] == queue@[b]);
                            }
                        }
                        assert(queue@[queue@.len() - 1] == h);
                    }
                    assert forall|other: usize| other < generators.len() implies {
                        &&& (#[trigger] outstanding@[other as int]) + occurrences(
                            list@.take(t + 1),
                            other,
                        ) == missing(generators[other as int].inputs(), present)
                        &&& queue@.contains(other) <==> outstanding@[other as int] == 0
                    } by {
                        lemma_occurrences_step(list@, t as int, other);
                        assert(before_outstanding[other as int] + occurrences(
                            list@.take(t as int),
                            other,
                        ) == missing(generators[other as int].inputs(), present));
                        assert(before_queue.contains(other) <==> before_outstanding[other as int]
                            == 0);
                        if before_queue.contains(other) {
                            let a = choose|a: int|
                                0 <= a < before_queue.len() && before_queue[a] == other;
                            assert(queue@[a] == other);
                        }
                        if queue@.contains(other) && !before_queue.contains(other) {
                            let a = choose|a: int| 0 <= a < queue@.len() && queue@[a] == other;
                            if a < before_queue.len() {
                                assert(before_queue[a] == other);
                            }
                        }
                    }
                }
                t += 1;
            }
            proof {
                assert(list@.take(t as int) =~= list@);
            }
        },
    }
    proof {
        assert forall|h: usize| h < generators.len() implies {
            &&& (#[trigger] outstanding@[h as int]) + occurrences(Seq::<usize>::empty(), h)
                == missing(generators[h as int].inputs(), present.insert(wire))
            &&& queue@.contains(h) <==> outstanding@[h as int] == 0
        } by {
            lemma_missing_insert(generators[h as int].inputs(), present, wire);
            assert(occurrences(waiters(index@, wire), h) == occurrences(
                generators[h as int].inputs(),
                wire,
            ));
        }
    }
}

} // verus!
