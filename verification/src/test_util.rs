//! Helpers for tests: small fields, and checks of truth values.

use crate::bignum::BigNat;
use crate::expression::BooleanExpression;
use crate::field::Field;
use crate::wire_values::WireValues;
use vstd::prelude::*;

verus! {

/// Checks that `x` is true under `values`. Panics where it is not, which
/// a verified caller has shown not to be so.
pub fn assert_eq_true<F: Field>(x: &BooleanExpression<F>, values: &WireValues<F>)
    requires
        x@.truth(values@, F::spec_order()) == Some(true),
{
    let truth = x.evaluate(values);
    vstd::pervasive::runtime_assert(truth.is_some() && truth.unwrap());
}

/// Checks that `x` is false under `values`. Panics where it is not, which
/// a verified caller has shown not to be so.
pub fn assert_eq_false<F: Field>(x: &BooleanExpression<F>, values: &WireValues<F>)
    requires
        x@.truth(values@, F::spec_order()) == Some(false),
{
    let truth = x.evaluate(values);
    vstd::pervasive::runtime_assert(truth.is_some() && !truth.unwrap());
}

/// The field of order 7.
#[derive(Debug)]
pub struct F7 {}

impl Field for F7 {
    open spec fn spec_order() -> nat {
        7
    }

    proof fn order_exceeds_one() {
    }

    fn order() -> BigNat {
        BigNat::from_u64(7)
    }
}

/// The field of order 11.
#[derive(Debug)]
pub struct F11 {}

impl Field for F11 {
    open spec fn spec_order() -> nat {
        11
    }

    proof fn order_exceeds_one() {
    }

    fn order() -> BigNat {
        BigNat::from_u64(11)
    }
}

/// The field of order 257.
#[derive(Debug)]
pub struct F257 {}

impl Field for F257 {
    open spec fn spec_order() -> nat {
        257
    }

    proof fn order_exceeds_one() {
    }

    fn order() -> BigNat {
        BigNat::from_u64(257)
    }
}

} // verus!
