//! Prime fields and their elements.

use crate::bignum::{is_inverse_mod, BigNat};
use core::marker::PhantomData;
use vstd::arithmetic::div_mod::{lemma_mul_mod_noop_left, lemma_mul_mod_noop_right, lemma_small_mod};
use vstd::prelude::*;

verus! {

/// A prime field, known by its order.
pub trait Field: Sized {
    /// The order of the field.
    spec fn spec_order() -> nat;

    /// A field has more than one element.
    proof fn order_exceeds_one()
        ensures
            Self::spec_order() > 1,
    ;

    /// The order of the field.
    fn order() -> (order: BigNat)
        ensures
            order@ == Self::spec_order(),
    ;
}

/// The inverse of `a` modulo `m` from `0..m`, or zero where `a` has none.
pub open spec fn inverse_or_zero(a: nat, m: nat) -> nat {
    if exists|y: nat| is_inverse_mod(a, y, m) {
        choose|y: nat| is_inverse_mod(a, y, m)
    } else {
        0
    }
}

/// A number has at most one inverse in `0..m`.
pub proof fn lemma_inverse_unique(a: nat, x: nat, y: nat, m: nat)
    requires
        is_inverse_mod(a, x, m),
        is_inverse_mod(a, y, m),
    ensures
        x == y,
{
    if m > 1 {
        let (ai, xi, yi, mi) = (a as int, x as int, y as int, m as int);
        lemma_small_mod(1, m);
        lemma_small_mod(x, m);
        lemma_small_mod(y, m);
        // x == x * (a * y) == (a * x) * y == y, all modulo m
        lemma_mul_mod_noop_right(xi, ai * yi, mi);
        lemma_mul_mod_noop_left(ai * xi, yi, mi);
        assert(xi * (ai * yi) == (ai * xi) * yi) by (nonlinear_arith);
        assert(xi * 1 == xi && 1 * yi == yi);
    }
}

/// An element of the field `F`: a number below the order of `F`.
pub struct Element<F: Field> {
    n: BigNat,
    field: PhantomData<F>,
}

impl<F: Field> View for Element<F> {
    type V = nat;

    closed spec fn view(&self) -> nat {
        self.n@
    }
}

impl<F: Field> Clone for Element<F> {
    fn clone(&self) -> (e: Self)
        ensures
            e@ == self@,
    {
        proof {
            use_type_invariant(self);
        }
        Element { n: self.n.clone(), field: PhantomData }
    }
}

impl<F: Field> Element<F> {
    #[verifier::type_invariant]
    spec fn reduced(self) -> bool {
        self.n@ < F::spec_order()
    }

    /// The element that `n` stands for: `n` reduced modulo the order.
    pub fn new(n: BigNat) -> (e: Self)
        ensures
            e@ == n@ % F::spec_order(),
    {
        proof {
            F::order_exceeds_one();
        }
        Element { n: n.rem(&F::order()), field: PhantomData }
    }

    /// The element that `value` stands for.
    pub fn from_u64(value: u64) -> (e: Self)
        ensures
            e@ == value as nat % F::spec_order(),
    {
        Element::new(BigNat::from_u64(value))
    }

    /// The additive identity.
    pub fn zero() -> (e: Self)
        ensures
            e@ == 0,
    {
        proof {
            F::order_exceeds_one();
        }
        Element::from_u64(0)
    }

    /// The multiplicative identity.
    pub fn one() -> (e: Self)
        ensures
            e@ == 1,
    {
        proof {
            F::order_exceeds_one();
            lemma_small_mod(1, F::spec_order());
        }
        Element::from_u64(1)
    }

    /// The number that stands for this element; it is below the order.
    pub fn value(&self) -> (n: &BigNat)
        ensures
            n@ == self@,
            n@ < F::spec_order(),
    {
        proof {
            use_type_invariant(self);
        }
        &self.n
    }

    /// The sum of the two elements.
    pub fn add(&self, other: &Self) -> (sum: Self)
        ensures
            sum@ == (self@ + other@) % F::spec_order(),
    {
        Element::new(self.n.add(&other.n))
    }

    /// The product of the two elements.
    pub fn mul(&self, other: &Self) -> (product: Self)
        ensures
            product@ == (self@ * other@) % F::spec_order(),
    {
        Element::new(self.n.mul(&other.n))
    }

    /// The multiplicative inverse of the element, or zero where it has none.
    pub fn inverse_or_zero(&self) -> (inverse: Self)
        ensures
            inverse@ == inverse_or_zero(self@, F::spec_order()),
    {
        proof {
            F::order_exceeds_one();
        }
        match self.n.inverse_mod(&F::order()) {
            Some(y) => {
                proof {
                    lemma_inverse_unique(
                        self@,
                        y@,
                        inverse_or_zero(self@, F::spec_order()),
                        F::spec_order(),
                    );
                }
                Element { n: y, field: PhantomData }
            },
            None => Element::zero(),
        }
    }

    /// Whether the two elements are equal.
    pub fn equals(&self, other: &Self) -> (same: bool)
        ensures
            same == (self@ == other@),
    {
        self.n.equals(&other.n)
    }

    /// Whether this is the additive identity.
    pub fn is_zero(&self) -> (zero: bool)
        ensures
            zero == (self@ == 0),
    {
        self.n.equals(&BigNat::from_u64(0))
    }

    /// Whether this is the multiplicative identity.
    pub fn is_one(&self) -> (one: bool)
        ensures
            one == (self@ == 1),
    {
        self.n.equals(&BigNat::from_u64(1))
    }
}

} // verus!
