//! The execution core of a rank-1 constraint system gadget library.
//!
//! A gadget bundles rank-1 constraints `a * b = c` over a prime field with
//! witness generators that derive wire values from values already known.
//! Executing a gadget completes a partial assignment of wires by running every
//! generator once its inputs are present, and then checks every constraint.

pub mod bignum;
pub mod constraint;
pub mod expression;
pub mod fault;
pub mod field;
pub mod gadget;
pub mod gadget_builder;
pub mod schedule;
mod scheduler;
mod tally;
pub mod test_util;
pub mod wire;
pub mod wire_values;
pub mod witness_generator;
