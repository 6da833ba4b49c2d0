//! Natural numbers of any size.
use nanoclo::bignum::Nat;

fn n(x: u64) -> Nat {
    Nat::from_u64(x)
}

fn value(x: &Nat) -> u64 {
    x.to_u64().unwrap()
}

/// 2^64 + 5; a word is 32 bits.
fn big() -> Nat {
    Nat::from_words(&vec![5, 0, 1])
}

#[test]
fn small_numbers_read_back() {
    assert_eq!(value(&Nat::from_u32(7)), 7);
    assert_eq!(value(&n(u64::MAX)), u64::MAX);
    assert_eq!(n(0).to_u64(), Some(0));
}

#[test]
fn words_are_little_endian_without_leading_zeros() {
    assert_eq!(big().words(), vec![5, 0, 1]);
    assert_eq!(n(9).words(), vec![9]);
    assert_eq!(n(0).words(), Vec::<u64>::new());
    assert_eq!(big().to_u64(), None);
}

#[test]
fn zero_is_zero() {
    assert!(n(0).is_zero());
    assert!(!big().is_zero());
}

#[test]
fn addition_carries_into_a_new_word() {
    assert_eq!(n(u64::MAX).plus(&n(1)).words(), vec![0, 0, 1]);
    assert_eq!(value(&n(2).plus(&n(3))), 5);
}

#[test]
fn subtraction_stops_at_zero() {
    assert_eq!(value(&n(9).minus(&n(4))), 5);
    assert!(n(4).minus(&n(9)).is_zero());
    assert_eq!(value(&big().minus(&n(6))), u64::MAX);
}

#[test]
fn multiplication_crosses_words() {
    assert_eq!(n(1 << 40).times(&n(1 << 40)).words(), vec![0, 0, 1 << 16]);
    assert_eq!(value(&n(6).times(&n(7))), 42);
}

#[test]
fn order_and_identity() {
    assert!(n(3).le(&n(3)));
    assert!(n(3).le(&big()));
    assert!(!big().le(&n(3)));
    assert!(big().same(&big().copy()));
    assert!(!big().same(&n(5)));
}

#[test]
fn division_by_zero_is_zero_and_keeps_the_remainder() {
    assert_eq!(value(&n(17).quotient(&n(5))), 3);
    assert_eq!(value(&n(17).remainder(&n(5))), 2);
    assert!(n(17).quotient(&n(0)).is_zero());
    assert_eq!(value(&n(17).remainder(&n(0))), 17);
}

#[test]
fn greatest_common_divisor() {
    assert_eq!(value(&n(48).gcd(&n(36))), 12);
    assert_eq!(value(&n(0).gcd(&n(9))), 9);
    assert_eq!(value(&n(9).gcd(&n(0))), 9);
}

#[test]
fn powers() {
    assert_eq!(value(&n(3).power(4)), 81);
    assert_eq!(value(&n(0).power(0)), 1);
    assert_eq!(n(2).power(64).words(), vec![0, 0, 1]);
}

#[test]
fn bitwise_operations() {
    assert_eq!(value(&n(12).land(&n(10))), 8);
    assert_eq!(value(&n(12).lor(&n(10))), 14);
    assert_eq!(value(&n(12).xor(&n(10))), 6);
}

#[test]
fn shifts() {
    assert_eq!(n(3).shl(64).words(), vec![0, 0, 3]);
    assert_eq!(value(&n(40).shr(&n(3)).unwrap()), 5);
    assert!(big().shr(&big()).unwrap().is_zero());
}
