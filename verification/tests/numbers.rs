use r1cs_gadget::bignum::BigNat;
use r1cs_gadget::field::{Element, Field};
use r1cs_gadget::test_util::{F11, F257, F7};

#[test]
fn numbers_from_u64_are_spelled_least_significant_byte_first() {
    assert_eq!(BigNat::from_u64(0x0102).to_bytes_le(), &vec![2u8, 1]);
    assert!(BigNat::from_u64(258).equals(&BigNat::from_bytes_le(vec![2, 1, 0, 0])));
    assert!(!BigNat::from_u64(258).equals(&BigNat::from_bytes_le(vec![1, 2])));
    assert!(BigNat::from_u64(0).equals(&BigNat::from_bytes_le(Vec::new())));
}

#[test]
fn numbers_add_multiply_and_divide() {
    let a = BigNat::from_u64(u64::MAX);
    let b = BigNat::from_u64(2);
    // 2^64 + 1
    assert!(a.add(&b).equals(&BigNat::from_bytes_le(vec![1, 0, 0, 0, 0, 0, 0, 0, 1])));
    // 2^65 - 2
    assert!(a.mul(&b).equals(&BigNat::from_bytes_le(vec![254, 255, 255, 255, 255, 255, 255, 255, 1])));
    assert!(BigNat::from_u64(100).rem(&BigNat::from_u64(7)).equals(&BigNat::from_u64(2)));
    assert!(!BigNat::from_u64(100).rem(&BigNat::from_u64(7)).equals(&BigNat::from_u64(100)));
    assert!(a.clone().equals(&a));
}

#[test]
fn numbers_have_inverses_where_they_are_coprime() {
    let inverse = BigNat::from_u64(3).inverse_mod(&BigNat::from_u64(7)).unwrap();
    assert!(inverse.equals(&BigNat::from_u64(5)));
    assert!(BigNat::from_u64(4).inverse_mod(&BigNat::from_u64(8)).is_none());
    assert!(BigNat::from_u64(0).inverse_mod(&BigNat::from_u64(7)).is_none());
}

#[test]
fn field_orders() {
    assert!(F7::order().equals(&BigNat::from_u64(7)));
    assert!(F11::order().equals(&BigNat::from_u64(11)));
    assert!(F257::order().equals(&BigNat::from_u64(257)));
}

#[test]
fn elements_are_reduced() {
    let nine = Element::<F7>::from_u64(9);
    assert!(nine.equals(&Element::from_u64(2)));
    assert!(nine.value().equals(&BigNat::from_u64(2)));
    assert!(Element::<F7>::new(BigNat::from_u64(14)).is_zero());
    assert!(Element::<F7>::from_u64(8).is_one());
    assert!(Element::<F7>::zero().is_zero());
    assert!(Element::<F7>::one().is_one());
    assert!(!Element::<F7>::one().is_zero());
}

#[test]
fn element_arithmetic() {
    let five = Element::<F7>::from_u64(5);
    let four = Element::<F7>::from_u64(4);
    assert!(five.add(&four).equals(&Element::from_u64(2)));
    assert!(five.mul(&four).equals(&Element::from_u64(6)));
    assert!(five.inverse_or_zero().equals(&Element::from_u64(3)));
    assert!(Element::<F7>::zero().inverse_or_zero().is_zero());
    assert!(five.clone().equals(&five));
    assert!(!five.equals(&four));
}
