//! Natural numbers of any size, with arithmetic done by `num::BigUint`.

use num::BigUint;
use vstd::prelude::*;

verus! {

/// The natural number that a sequence of bytes spells, least significant byte first.
pub open spec fn le_value(bytes: Seq<u8>) -> nat
    decreases bytes.len(),
{
    if bytes.len() == 0 {
        0
    } else {
        bytes[0] as nat + 256 * le_value(bytes.drop_first())
    }
}

/// Whether `y` is the inverse of `a` modulo `m`, taken from `0..m`.
pub open spec fn is_inverse_mod(a: nat, y: nat, m: nat) -> bool {
    y < m && (a * y) % m == 1nat % m
}

/// Calls `BigUint::from` on a `u64` and spells the number with `BigUint::to_bytes_le`.
/// Trusted: the bytes returned spell `value`.
#[verifier::external_body]
fn biguint_from_u64(value: u64) -> (bytes: Vec<u8>)
    ensures
        le_value(bytes@) == value,
{
    BigUint::from(value).to_bytes_le()
}

/// Calls `+` of `BigUint` on the numbers that `BigUint::from_bytes_le` reads.
/// Trusted: the bytes returned spell the sum of the two numbers.
#[verifier::external_body]
fn biguint_add(a: &Vec<u8>, b: &Vec<u8>) -> (sum: Vec<u8>)
    ensures
        le_value(sum@) == le_value(a@) + le_value(b@),
{
    (BigUint::from_bytes_le(a) + BigUint::from_bytes_le(b)).to_bytes_le()
}

/// Calls `*` of `BigUint` on the numbers that `BigUint::from_bytes_le` reads.
/// Trusted: the bytes returned spell the product of the two numbers.
#[verifier::external_body]
fn biguint_mul(a: &Vec<u8>, b: &Vec<u8>) -> (product: Vec<u8>)
    ensures
        le_value(product@) == le_value(a@) * le_value(b@),
{
    (BigUint::from_bytes_le(a) * BigUint::from_bytes_le(b)).to_bytes_le()
}

/// Calls `%` of `BigUint`, which panics on a zero divisor.
/// Trusted: the bytes returned spell the remainder of `a` divided by `m`.
#[verifier::external_body]
fn biguint_rem(a: &Vec<u8>, m: &Vec<u8>) -> (remainder: Vec<u8>)
    requires
        le_value(m@) != 0,
    ensures
        le_value(remainder@) == le_value(a@) % le_value(m@),
{
    (BigUint::from_bytes_le(a) % BigUint::from_bytes_le(m)).to_bytes_le()
}

/// Calls `==` of `BigUint` on the numbers that `BigUint::from_bytes_le` reads.
/// Trusted: the result tells whether the two byte strings spell the same number.
#[verifier::external_body]
fn biguint_eq(a: &Vec<u8>, b: &Vec<u8>) -> (same: bool)
    ensures
        same == (le_value(a@) == le_value(b@)),
{
    BigUint::from_bytes_le(a) == BigUint::from_bytes_le(b)
}

/// Calls `BigUint::modinv`, which panics on a zero modulus.
/// Trusted: `Some` holds the inverse of `a` modulo `m` from `0..m`, and `None`
/// comes back exactly when no number in that range is an inverse.
#[verifier::external_body]
fn biguint_modinv(a: &Vec<u8>, m: &Vec<u8>) -> (inverse: Option<Vec<u8>>)
    requires
        le_value(m@) != 0,
    ensures
        match inverse {
            Some(y) => is_inverse_mod(le_value(a@), le_value(y@), le_value(m@)),
            None => forall|y: nat| !is_inverse_mod(le_value(a@), y, le_value(m@)),
        },
{
    match BigUint::from_bytes_le(a).modinv(&BigUint::from_bytes_le(m)) {
        Some(y) => Some(y.to_bytes_le()),
        None => None,
    }
}

/// A natural number of any size, held as its bytes, least significant first.
pub struct BigNat {
    bytes: Vec<u8>,
}

impl View for BigNat {
    type V = nat;

    closed spec fn view(&self) -> nat {
        le_value(self.bytes@)
    }
}

impl Clone for BigNat {
    fn clone(&self) -> (n: Self)
        ensures
            n@ == self@,
    {
        BigNat { bytes: self.bytes.clone() }
    }
}

impl BigNat {
    /// The number that `bytes` spell, least significant byte first.
    pub fn from_bytes_le(bytes: Vec<u8>) -> (n: BigNat)
        ensures
            n@ == le_value(bytes@),
    {
        BigNat { bytes }
    }

    /// The number `value`.
    pub fn from_u64(value: u64) -> (n: BigNat)
        ensures
            n@ == value,
    {
        BigNat { bytes: biguint_from_u64(value) }
    }

    /// Bytes that spell the number, least significant first.
    pub fn to_bytes_le(&self) -> (bytes: &Vec<u8>)
        ensures
            le_value(bytes@) == self@,
    {
        &self.bytes
    }

    /// The sum of the two numbers.
    pub fn add(&self, other: &BigNat) -> (sum: BigNat)
        ensures
            sum@ == self@ + other@,
    {
        BigNat { bytes: biguint_add(&self.bytes, &other.bytes) }
    }

    /// The product of the two numbers.
    pub fn mul(&self, other: &BigNat) -> (product: BigNat)
        ensures
            product@ == self@ * other@,
    {
        BigNat { bytes: biguint_mul(&self.bytes, &other.bytes) }
    }

    /// The remainder of the number divided by `modulus`.
    pub fn rem(&self, modulus: &BigNat) -> (remainder: BigNat)
        requires
            modulus@ != 0,
        ensures
            remainder@ == self@ % modulus@,
    {
        BigNat { bytes: biguint_rem(&self.bytes, &modulus.bytes) }
    }

    /// Whether the two numbers are equal.
    pub fn equals(&self, other: &BigNat) -> (same: bool)
        ensures
            same == (self@ == other@),
    {
        biguint_eq(&self.bytes, &other.bytes)
    }

    /// The inverse of the number modulo `modulus`, from `0..modulus`, where one exists.
    pub fn inverse_mod(&self, modulus: &BigNat) -> (inverse: Option<BigNat>)
        requires
            modulus@ != 0,
        ensures
            match inverse {
                Some(y) => is_inverse_mod(self@, y@, modulus@),
                None => forall|y: nat| !is_inverse_mod(self@, y, modulus@),
            },
    {
        match biguint_modinv(&self.bytes, &modulus.bytes) {
            Some(bytes) => Some(BigNat { bytes }),
            None => None,
        }
    }
}

} // verus!
