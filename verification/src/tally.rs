//! Counting: how often a value occurs in a list, and how many of a list of
//! wires are still without a value. The scheduler counts in this way the
//! inputs that each generator is waiting for.

use crate::wire::Wire;
use vstd::prelude::*;
use vstd::set_lib::{lemma_int_range, lemma_len_subset, lemma_subset_equality, set_int_range};

verus! {

/// How often `item` occurs in `list`.
pub open spec fn occurrences<T>(list: Seq<T>, item: T) -> nat
    decreases list.len(),
{
    if list.len() == 0 {
        0
    } else {
        occurrences(list.drop_last(), item) + if list.last() == item {
            1nat
        } else {
            0nat
        }
    }
}

/// How many places of `wires` hold a wire that is not in `present`.
pub open spec fn missing(wires: Seq<Wire>, present: Set<Wire>) -> nat
    decreases wires.len(),
{
    if wires.len() == 0 {
        0
    } else {
        missing(wires.drop_last(), present) + if present.contains(wires.last()) {
            0nat
        } else {
            1nat
        }
    }
}

/// What one more place adds to the count of an item.
pub proof fn lemma_occurrences_step<T>(list: Seq<T>, length: int, item: T)
    requires
        0 <= length < list.len(),
    ensures
        occurrences(list.take(length + 1), item) == occurrences(list.take(length), item) + if list[length]
            == item {
            1nat
        } else {
            0nat
        },
{
    assert(list.take(length + 1).drop_last() =~= list.take(length));
}

/// An item occurs in the beginning of a list no more often than in the list.
pub proof fn lemma_occurrences_prefix<T>(list: Seq<T>, length: int, item: T)
    requires
        0 <= length <= list.len(),
    ensures
        occurrences(list.take(length), item) <= occurrences(list, item),
    decreases list.len() - length,
{
    if length == list.len() {
        assert(list.take(length) =~= list);
    } else {
        lemma_occurrences_step(list, length, item);
        lemma_occurrences_prefix(list, length + 1, item);
    }
}

/// An item that occurs nowhere in a list is counted zero times, and the
/// other way round.
pub proof fn lemma_occurrences_none<T>(list: Seq<T>, item: T)
    ensures
        occurrences(list, item) == 0 <==> !list.contains(item),
    decreases list.len(),
{
    if list.len() > 0 {
        let rest = list.drop_last();
        lemma_occurrences_none(rest, item);
        if rest.contains(item) {
            let i = choose|i: int| 0 <= i < rest.len() && rest[i] == item;
            assert(list[i] == item);
        }
        if list.contains(item) && list.last() != item {
            let i = choose|i: int| 0 <= i < list.len() && list[i] == item;
            assert(rest[i] == item);
        }
        if list.last() == item {
            assert(list[list.len() - 1] == item);
        }
    }
}

/// What one more place adds to the count of missing wires.
pub proof fn lemma_missing_step(wires: Seq<Wire>, length: int, present: Set<Wire>)
    requires
        0 <= length < wires.len(),
    ensures
        missing(wires.take(length + 1), present) == missing(wires.take(length), present)
            + if present.contains(wires[length]) {
            0nat
        } else {
            1nat
        },
{
    assert(wires.take(length + 1).drop_last() =~= wires.take(length));
}

/// No wire is missing exactly when every wire is present.
pub proof fn lemma_missing_none(wires: Seq<Wire>, present: Set<Wire>)
    ensures
        missing(wires, present) == 0 <==> forall|i: int|
            0 <= i < wires.len() ==> present.contains(#[trigger] wires[i]),
    decreases wires.len(),
{
    if wires.len() > 0 {
        let rest = wires.drop_last();
        lemma_missing_none(rest, present);
        if missing(wires, present) == 0 {
            assert forall|i: int| 0 <= i < wires.len() implies present.contains(
                #[trigger] wires[i],
            ) by {
                if i < rest.len() {
                    assert(rest[i] == wires[i]);
                }
            }
        }
        if forall|i: int| 0 <= i < wires.len() ==> present.contains(#[trigger] wires[i]) {
            assert forall|i: int| 0 <= i < rest.len() implies present.contains(
                #[trigger] rest[i],
            ) by {
                assert(rest[i] == wires[i]);
            }
            assert(present.contains(wires[wires.len() - 1]));
        }
    }
}

/// When a wire comes to be present, the count of missing wires falls by the
/// number of places that hold it.
pub proof fn lemma_missing_insert(wires: Seq<Wire>, present: Set<Wire>, wire: Wire)
    requires
        !present.contains(wire),
    ensures
        missing(wires, present.insert(wire)) + occurrences(wires, wire) == missing(wires, present),
    decreases wires.len(),
{
    if wires.len() > 0 {
        lemma_missing_insert(wires.drop_last(), present, wire);
    }
}

/// A list of distinct numbers below `bound` is no longer than `bound`, and
/// as long as `bound` exactly when it holds every number below `bound`.
pub proof fn lemma_distinct_below(list: Seq<usize>, bound: nat)
    requires
        list.no_duplicates(),
        forall|i: int| 0 <= i < list.len() ==> (#[trigger] list[i]) < bound,
        bound <= usize::MAX,
    ensures
        list.len() <= bound,
        list.len() == bound <==> forall|g: usize| g < bound ==> #[trigger] list.contains(g),
{
    let numbers = list.map_values(|g: usize| g as int);
    let range = set_int_range(0, bound as int);
    assert(numbers.no_duplicates());
    numbers.unique_seq_to_set();
    lemma_int_range(0, bound as int);
    assert(numbers.to_set().subset_of(range)) by {
        assert forall|x: int| numbers.to_set().contains(x) implies range.contains(x) by {
            let i = choose|i: int| 0 <= i < numbers.len() && numbers[i] == x;
            assert(list[i] < bound);
        }
    }
    lemma_len_subset(numbers.to_set(), range);
    if list.len() == bound {
        lemma_subset_equality(numbers.to_set(), range);
        assert forall|g: usize| g < bound implies #[trigger] list.contains(g) by {
            assert(range.contains(g as int));
            assert(numbers.contains(g as int));
            let i = choose|i: int| 0 <= i < numbers.len() && numbers[i] == g as int;
            assert(list[i] == g);
        }
    }
    if forall|g: usize| g < bound ==> #[trigger] list.contains(g) {
        assert(range.subset_of(numbers.to_set())) by {
            assert forall|x: int| range.contains(x) implies numbers.to_set().contains(x) by {
                let g = x as usize;
                assert(g == x);
                assert(list.contains(g));
                let i = choose|i: int| 0 <= i < list.len() && list[i] == g;
                assert(numbers[i] == x);
            }
        }
        assert(numbers.to_set() =~= range);
    }
}

} // verus!
