//! Partial assignments of field elements to wires.

use crate::fault::StructuralFault;
use crate::field::{Element, Field};
use crate::wire::Wire;
use std::collections::HashMap;
use vstd::prelude::*;

verus! {

/// Whether `values` gives every wire of `wires` a value.
pub open spec fn assigns_all(values: Map<Wire, nat>, wires: Seq<Wire>) -> bool {
    forall|i: int| 0 <= i < wires.len() ==> values.contains_key(#[trigger] wires[i])
}

/// Whether `larger` holds every value that `smaller` holds.
pub open spec fn extends(larger: Map<Wire, nat>, smaller: Map<Wire, nat>) -> bool {
    forall|wire: Wire| #[trigger]
        smaller.contains_key(wire) ==> larger.contains_key(wire) && larger[wire] == smaller[wire]
}

/// Whether the two assignments give each wire of `wires` the same value.
pub open spec fn agree_on(first: Map<Wire, nat>, second: Map<Wire, nat>, wires: Seq<Wire>) -> bool {
    forall|i: int| 0 <= i < wires.len() ==> first[#[trigger] wires[i]] == second[wires[i]]
}

/// Two assignments that agree on a concatenation agree on its two parts.
pub proof fn lemma_agree_on_concat(
    first: Map<Wire, nat>,
    second: Map<Wire, nat>,
    left: Seq<Wire>,
    right: Seq<Wire>,
)
    requires
        agree_on(first, second, left + right),
    ensures
        agree_on(first, second, left),
        agree_on(first, second, right),
{
    let both = left + right;
    assert forall|i: int| 0 <= i < left.len() implies first[#[trigger] left[i]] == second[left[i]] by {
        assert(both[i] == left[i]);
    }
    assert forall|i: int| 0 <= i < right.len() implies first[#[trigger] right[i]]
        == second[right[i]] by {
        assert(both[left.len() + i] == right[i]);
    }
}

/// Every wire of a concatenation has a value exactly when every wire of its
/// two parts has one.
pub proof fn lemma_assigns_all_concat(values: Map<Wire, nat>, first: Seq<Wire>, second: Seq<Wire>)
    ensures
        assigns_all(values, first + second) <==> assigns_all(values, first) && assigns_all(
            values,
            second,
        ),
{
    let both = first + second;
    if assigns_all(values, both) {
        assert forall|i: int| 0 <= i < first.len() implies values.contains_key(
            #[trigger] first[i],
        ) by {
            assert(both[i] == first[i]);
        }
        assert forall|i: int| 0 <= i < second.len() implies values.contains_key(
            #[trigger] second[i],
        ) by {
            assert(both[first.len() + i] == second[i]);
        }
    }
}

/// A partial assignment of field elements to wires. A wire is assigned at
/// most once: its value, once set, is never replaced.
pub struct WireValues<F: Field> {
    values: HashMap<u32, Element<F>>,
}

impl<F: Field> View for WireValues<F> {
    type V = Map<Wire, nat>;

    closed spec fn view(&self) -> Map<Wire, nat> {
        Map::new(
            |wire: Wire| self.values@.contains_key(wire.index),
            |wire: Wire| self.values@[wire.index]@,
        )
    }
}

impl<F: Field> WireValues<F> {
    /// The assignment that gives no wire a value.
    pub fn new() -> (values: Self)
        ensures
            values@ == Map::<Wire, nat>::empty(),
    {
        let values = WireValues { values: HashMap::new() };
        assert(values@ =~= Map::<Wire, nat>::empty());
        values
    }

    /// Whether `wire` has a value.
    pub fn contains(&self, wire: Wire) -> (present: bool)
        ensures
            present == self@.contains_key(wire),
    {
        self.values.contains_key(&wire.index)
    }

    /// The value of `wire`, if it has one.
    pub fn get(&self, wire: Wire) -> (value: Option<&Element<F>>)
        ensures
            match value {
                Some(element) => self@.contains_key(wire) && self@[wire] == element@,
                None => !self@.contains_key(wire),
            },
    {
        self.values.get(&wire.index)
    }

    /// Gives `wire` the value `value`. A wire that already has a value keeps
    /// it, whatever `value` is, and the call fails.
    pub fn set(&mut self, wire: Wire, value: Element<F>) -> (result: Result<(), StructuralFault>)
        ensures
            match result {
                Ok(_) => !old(self)@.contains_key(wire) && final(self)@ == old(self)@.insert(
                    wire,
                    value@,
                ),
                Err(fault) => fault == StructuralFault::WireAlreadyAssigned && old(
                    self,
                )@.contains_key(wire) && final(self)@ == old(self)@,
            },
    {
        if self.values.contains_key(&wire.index) {
            return Err(StructuralFault::WireAlreadyAssigned);
        }
        self.values.insert(wire.index, value);
        assert(self@ =~= old(self)@.insert(wire, value@));
        Ok(())
    }

    /// Whether every wire of `wires` has a value.
    pub fn contains_all(&self, wires: &[Wire]) -> (all: bool)
        ensures
            all == assigns_all(self@, wires@),
    {
        let mut i: usize = 0;
        while i < wires.len()
            invariant
                i <= wires@.len(),
                forall|j: int| 0 <= j < i ==> self@.contains_key(#[trigger] wires@[j]),
            decreases wires@.len() - i,
        {
            if !self.contains(wires[i]) {
                return false;
            }
            i += 1;
        }
        true
    }
}

} // verus!
