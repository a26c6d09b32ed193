use prime_field::fields::arithmetic::{
    add_with_carry, divide_remainder, fold_limb, is_zero, less_than, most_significant_difference,
    multiply_accumulate, reduce_once, shift_in_bit, sub_with_borrow,
};
use prime_field::fields::order::compare;
use std::cmp::Ordering;

#[test]
fn add_with_carry_propagates_between_limbs() {
    let mut a: [u64; 3] = [u64::MAX, u64::MAX, 0];
    let carry = add_with_carry(&mut a, &[1, 0, 0]);
    assert_eq!(a, [0, 0, 1]);
    assert_eq!(carry, 0);
}

#[test]
fn add_with_carry_returns_the_carry_out() {
    let mut a: [u64; 2] = [u64::MAX, u64::MAX];
    let carry = add_with_carry(&mut a, &[2, 0]);
    assert_eq!(a, [1, 0]);
    assert_eq!(carry, 1);
    let mut b: [u64; 2] = [u64::MAX, u64::MAX];
    let carry = add_with_carry(&mut b, &[u64::MAX, u64::MAX]);
    assert_eq!(b, [u64::MAX - 1, u64::MAX]);
    assert_eq!(carry, 1);
}

#[test]
fn sub_with_borrow_propagates_between_limbs() {
    let mut a: [u64; 3] = [0, 0, 1];
    let borrow = sub_with_borrow(&mut a, &[1, 0, 0]);
    assert_eq!(a, [u64::MAX, u64::MAX, 0]);
    assert_eq!(borrow, 0);
}

#[test]
fn sub_with_borrow_signals_a_smaller_minuend() {
    let mut a: [u64; 2] = [1, 0];
    let borrow = sub_with_borrow(&mut a, &[2, 0]);
    assert_eq!(a, [u64::MAX, u64::MAX]);
    assert_eq!(borrow, 1);
    let mut b: [u64; 2] = [5, 7];
    let borrow = sub_with_borrow(&mut b, &[5, 7]);
    assert_eq!(b, [0, 0]);
    assert_eq!(borrow, 0);
}

#[test]
fn most_significant_difference_scans_from_the_top() {
    assert_eq!(most_significant_difference(&[1, 2, 3], &[9, 2, 3]), Some(0));
    assert_eq!(most_significant_difference(&[1, 2, 3], &[9, 8, 3]), Some(1));
    assert_eq!(most_significant_difference(&[1, 2, 3], &[1, 2, 4]), Some(2));
    assert_eq!(most_significant_difference(&[1, 2, 3], &[1, 2, 3]), None);
}

#[test]
fn less_than_goes_by_the_top_limb() {
    assert!(less_than(&[u64::MAX, 0], &[0, 1]));
    assert!(!less_than(&[0, 1], &[u64::MAX, 0]));
    assert!(!less_than(&[3, 1], &[3, 1]));
    assert_eq!(compare(&[u64::MAX, 0], &[0, 1]), Ordering::Less);
    assert_eq!(compare(&[0, 1], &[u64::MAX, 0]), Ordering::Greater);
    assert_eq!(compare(&[3, 1], &[3, 1]), Ordering::Equal);
}

#[test]
fn is_zero_needs_every_limb_zero() {
    assert!(is_zero(&[0, 0, 0]));
    assert!(!is_zero(&[0, 0, 1]));
    assert!(!is_zero(&[1, 0, 0]));
}

#[test]
fn reduce_once_takes_the_carry_into_account() {
    // 2^128 + 3 - (2^128 - 1) = 4
    let mut a: [u64; 2] = [3, 0];
    reduce_once(&mut a, 1, &[u64::MAX, u64::MAX]);
    assert_eq!(a, [4, 0]);
    let mut b: [u64; 2] = [5, 1];
    reduce_once(&mut b, 0, &[5, 1]);
    assert_eq!(b, [0, 0]);
    let mut c: [u64; 2] = [4, 1];
    reduce_once(&mut c, 0, &[5, 1]);
    assert_eq!(c, [4, 1]);
}

#[test]
fn shift_in_bit_doubles_and_adds() {
    let mut a: [u64; 2] = [1 << 63, 1];
    let carry = shift_in_bit(&mut a, 1);
    assert_eq!(a, [1, 3]);
    assert_eq!(carry, 0);
    let mut b: [u64; 2] = [0, 1 << 63];
    let carry = shift_in_bit(&mut b, 0);
    assert_eq!(b, [0, 0]);
    assert_eq!(carry, 1);
}

#[test]
fn fold_limb_appends_and_reduces() {
    // (3 * 2^64 + 20) mod (2^64 + 5) = 5
    let mut r: [u64; 2] = [3, 0];
    fold_limb(&mut r, 20, &[5, 1]);
    assert_eq!(r, [5, 0]);
    // (6 * 2^64 + 1) mod 7 = 6 * 2 + 1 mod 7 = 6
    let mut s: [u64; 1] = [6];
    fold_limb(&mut s, 1, &[7]);
    assert_eq!(s, [6]);
}

#[test]
fn divide_remainder_of_wider_and_narrower_values() {
    assert_eq!(divide_remainder(&[20, 3], &[5, 1]), [5, 0]);
    assert_eq!(divide_remainder(&[], &[5, 1]), [0, 0]);
    assert_eq!(divide_remainder(&[9], &[5, 1]), [9, 0]);
    // 2^192 mod (2^64 + 5) = (-5)^3 = M - 125
    assert_eq!(divide_remainder(&[0, 0, 0, 1], &[5, 1]), [u64::MAX - 119, 0]);
    // 2^128 - 1 = 3 * 5 * 17 * ..., divisible by 255
    assert_eq!(divide_remainder(&[u64::MAX, u64::MAX], &[255]), [0]);
    assert_eq!(divide_remainder(&[u64::MAX, u64::MAX], &[1]), [0]);
    assert_eq!(divide_remainder(&[100, 0, 0], &[7, 0]), [2, 0]);
}

#[test]
fn multiply_accumulate_lands_at_the_offset() {
    let mut acc: Vec<u64> = vec![0, 0, 0, 0];
    multiply_accumulate(&mut acc, &[u64::MAX, u64::MAX], u64::MAX, 1);
    // (2^128 - 1) * (2^64 - 1) = 2^192 - 2^128 - 2^64 + 1
    assert_eq!(acc, vec![0, 1, u64::MAX, u64::MAX - 1]);
}

#[test]
fn multiply_accumulate_adds_to_what_is_there() {
    let mut acc: Vec<u64> = vec![u64::MAX, u64::MAX, 0, 0];
    multiply_accumulate(&mut acc, &[1, 0], 1, 0);
    assert_eq!(acc, vec![0, 0, 1, 0]);
    let mut acc: Vec<u64> = vec![7, 0, 0, 0];
    multiply_accumulate(&mut acc, &[3, 2], 4, 0);
    assert_eq!(acc, vec![19, 8, 0, 0]);
}
