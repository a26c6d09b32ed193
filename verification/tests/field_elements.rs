use prime_field::{Field, Fp, FpConfig, One, PrimeField, Zero};
use std::cmp::Ordering;

pub struct P;

impl FpConfig<2> for P {
    const MODULUS: [u64; 2] = [5, 1];
    const ONE: [u64; 2] = [1, 0];
}

type Fp128 = Fp<P, 2>;

/// The same field, with the identity written as `1 + MODULUS`.
pub struct Shifted;

impl FpConfig<2> for Shifted {
    const MODULUS: [u64; 2] = [5, 1];
    const ONE: [u64; 2] = [6, 1];
}

/// The field of 7 elements in one limb.
pub struct Seven;

impl FpConfig<1> for Seven {
    const MODULUS: [u64; 1] = [7];
    const ONE: [u64; 1] = [1];
}

type Fp7 = Fp<Seven, 1>;

/// A prime of three limbs: 2^191 - 19.
pub struct Wide;

impl FpConfig<3> for Wide {
    const MODULUS: [u64; 3] = [0xffff_ffff_ffff_ffed, 0xffff_ffff_ffff_ffff, 0x7fff_ffff_ffff_ffff];
    const ONE: [u64; 3] = [1, 0, 0];
}

type FpWide = Fp<Wide, 3>;

/// No modulus at all.
pub struct Nothing;

impl FpConfig<2> for Nothing {
    const MODULUS: [u64; 2] = [0, 0];
    const ONE: [u64; 2] = [1, 0];
}

fn value(limbs: [u64; 2]) -> u128 {
    limbs[0] as u128 + ((limbs[1] as u128) << 64)
}

fn limbs(value: u128) -> [u64; 2] {
    [value as u64, (value >> 64) as u64]
}

const M: u128 = (1 << 64) + 5;

#[test]
fn from_no_division() {
    let input: [u64; 2] = [2, 1];
    let output = Fp128::from(input);
    assert_eq!(input, output.repr);
}

#[test]
fn from_with_division() {
    let input: [u64; 2] = [20, 3];
    let output = Fp128::from(input);
    assert_eq!([5, 0], output.repr);
}

#[test]
fn add_assign_no_carry() {
    let mut input = Fp128::from([2, 1]);
    let other = Fp128::from([2, 0]);
    input.add_assign(&other);
    assert_eq!(*input.as_ref(), [4, 1]);
}

#[test]
fn add_assign_with_carry() {
    let mut input = Fp128::from([(2u128.pow(64) - 1) as u64, 1]);
    let other = Fp128::from([12, 0]);
    input.add_assign(&other);
    assert_eq!(*input.as_ref(), [1, 0]);
}

#[test]
fn pow_assign_zero_exp() {
    let mut input = Fp128::from([4, 3]);
    input.pow_assign(0);
    assert_eq!(*input.as_ref(), [1, 0]);
}

#[test]
fn from_reduces_the_largest_input() {
    let output = Fp128::from([u64::MAX, u64::MAX]);
    assert_eq!(output.repr, limbs(u128::MAX % M));
    assert_eq!(output.repr, [24, 0]);
}

#[test]
fn from_reduces_the_modulus_itself_to_zero() {
    assert_eq!(Fp128::from([5, 1]).repr, [0, 0]);
    assert_eq!(Fp128::from([4, 1]).repr, [4, 1]);
    assert_eq!(Fp128::from([6, 1]).repr, [1, 0]);
}

#[test]
fn from_is_canonical_on_many_inputs() {
    let mut x: u128 = 0x0123_4567_89ab_cdef_0f1e_2d3c_4b5a_6978;
    for _ in 0..200 {
        x = x.wrapping_mul(0x5851_f42d_4c95_7f2d_1405_7b7e_f767_814f).wrapping_add(0x9e37_79b9);
        let r = Fp128::from(limbs(x));
        assert!(value(r.repr) < M);
        assert_eq!(value(r.repr), x % M);
    }
}

#[test]
fn from_with_no_modulus_reduces_nothing() {
    let r = Fp::<Nothing, 2>::from([20, 3]);
    assert_eq!(r.repr, [20, 3]);
}

#[test]
fn add_assign_equal_to_modulus_is_corrected() {
    let mut a = Fp128::from([3, 1]);
    let b = Fp128::from([2, 0]);
    a.add_assign(&b);
    assert_eq!(a.repr, [0, 0]);
}

#[test]
fn add_assign_matches_integers() {
    let samples: [u128; 6] = [0, 1, 12, (1 << 64) - 1, 1 << 64, M - 1];
    for &x in samples.iter() {
        for &y in samples.iter() {
            let mut a = Fp128::from(limbs(x));
            a.add_assign(&Fp128::from(limbs(y)));
            assert_eq!(value(a.repr), (x + y) % M);
        }
    }
}

#[test]
fn sub_assign_without_borrow() {
    let mut a = Fp128::from([4, 1]);
    a.sub_assign(&Fp128::from([2, 1]));
    assert_eq!(a.repr, [2, 0]);
}

#[test]
fn sub_assign_with_borrow_adds_modulus_back() {
    let mut a = Fp128::from([1, 0]);
    a.sub_assign(&Fp128::from([2, 0]));
    assert_eq!(a.repr, [4, 1]);
}

#[test]
fn sub_assign_matches_integers() {
    let samples: [u128; 6] = [0, 1, 12, (1 << 64) - 1, 1 << 64, M - 1];
    for &x in samples.iter() {
        for &y in samples.iter() {
            let mut a = Fp128::from(limbs(x));
            a.sub_assign(&Fp128::from(limbs(y)));
            assert_eq!(value(a.repr), (x + M - y) % M);
        }
    }
}

#[test]
fn adding_zero_changes_nothing() {
    let a = Fp128::from([4, 1]);
    let mut b = a;
    b.add_assign(&Fp128::zero());
    assert!(a == b);
}

#[test]
fn multiplying_by_one_changes_nothing() {
    let a = Fp128::from([4, 1]);
    let mut b = a;
    b.mul_assign(&Fp128::one());
    assert!(a == b);
    let mut c = Fp::<Shifted, 2>::from([4, 1]);
    c.mul_assign(&Fp::<Shifted, 2>::one());
    assert_eq!(c.repr, [4, 1]);
}

#[test]
fn subtracting_what_was_added_gives_back() {
    let samples: [u128; 5] = [0, 7, (1 << 64) - 1, 1 << 64, M - 1];
    for &x in samples.iter() {
        for &y in samples.iter() {
            let a = Fp128::from(limbs(x));
            let b = Fp128::from(limbs(y));
            let mut c = a;
            c.add_assign(&b);
            c.sub_assign(&b);
            assert_eq!(c.repr, a.repr);
        }
    }
}

#[test]
fn reduce_twice_is_reduce_once() {
    let mut a = Fp128 { repr: [20, 3], phantom: std::marker::PhantomData };
    a.reduce();
    assert_eq!(a.repr, [5, 0]);
    let once = a;
    a.reduce();
    assert_eq!(a.repr, once.repr);
}

#[test]
fn reduce_after_as_mut() {
    let mut a = Fp128::zero();
    *a.as_mut() = [u64::MAX, u64::MAX];
    assert_eq!(a.repr, [u64::MAX, u64::MAX]);
    a.reduce();
    assert_eq!(a.repr, [24, 0]);
}

#[test]
fn reduce_once_subtracts_at_most_once() {
    let mut a = Fp128 { repr: [7, 1], phantom: std::marker::PhantomData };
    a.reduce_once();
    assert_eq!(a.repr, [2, 0]);
    let mut b = Fp128 { repr: [4, 1], phantom: std::marker::PhantomData };
    b.reduce_once();
    assert_eq!(b.repr, [4, 1]);
    let mut c = Fp128 { repr: [5, 1], phantom: std::marker::PhantomData };
    c.reduce_once();
    assert_eq!(c.repr, [0, 0]);
}

#[test]
fn mul_assign_small_product() {
    let mut a = Fp128::from([3, 0]);
    a.mul_assign(&Fp128::from([4, 0]));
    assert_eq!(a.repr, Fp128::from([12, 0]).repr);
    assert_eq!(a.repr, [12, 0]);
}

#[test]
fn mul_assign_wraps_around_the_modulus() {
    // (2^64)^2 = (-5)^2 = 25
    let mut a = Fp128::from([0, 1]);
    a.mul_assign(&Fp128::from([0, 1]));
    assert_eq!(a.repr, [25, 0]);
    // (M - 1)^2 = 1
    let mut b = Fp128::from([4, 1]);
    b.mul_assign(&Fp128::from([4, 1]));
    assert_eq!(b.repr, [1, 0]);
    // (M - 1) * 2 = M - 2
    let mut c = Fp128::from([4, 1]);
    c.mul_assign(&Fp128::from([2, 0]));
    assert_eq!(c.repr, [3, 1]);
}

#[test]
fn mul_assign_skips_zero_limbs_without_moving_offsets() {
    // 3 * 2^64 = 3 * (-5) = M - 15
    let mut a = Fp128::from([3, 0]);
    a.mul_assign(&Fp128::from([0, 1]));
    assert_eq!(a.repr, [u64::MAX - 9, 0]);
    let mut z = Fp128::from([3, 1]);
    z.mul_assign(&Fp128::zero());
    assert_eq!(z.repr, [0, 0]);
}

#[test]
fn mul_assign_in_a_small_field() {
    for x in 0..7u64 {
        for y in 0..7u64 {
            let mut a = Fp7::from([x]);
            a.mul_assign(&Fp7::from([y]));
            assert_eq!(a.repr, [(x * y) % 7]);
        }
    }
}

#[test]
fn mul_assign_in_three_limbs() {
    // (p - 1)^2 = 1 and (p - 1) * 2 = p - 2
    let minus_one = FpWide::from([0xffff_ffff_ffff_ffec, u64::MAX, 0x7fff_ffff_ffff_ffff]);
    let mut a = minus_one;
    a.mul_assign(&minus_one);
    assert_eq!(a.repr, [1, 0, 0]);
    let mut b = minus_one;
    b.mul_assign(&FpWide::from([2, 0, 0]));
    assert_eq!(b.repr, [0xffff_ffff_ffff_ffeb, u64::MAX, 0x7fff_ffff_ffff_ffff]);
    // 2^191 = 19
    let mut c = FpWide::from([0, 0, 1 << 62]);
    c.mul_assign(&FpWide::from([2, 0, 0]));
    assert_eq!(c.repr, [19, 0, 0]);
}

#[test]
fn pow_assign_matches_repeated_multiplication() {
    let bases: [[u64; 2]; 4] = [[2, 0], [4, 3], [4, 1], [0, 1]];
    for base in bases.iter() {
        let a = Fp128::from(*base);
        let mut expected = Fp128::one();
        for e in 0..=8u32 {
            let mut p = a;
            p.pow_assign(e);
            assert_eq!(p.repr, expected.repr);
            expected.mul_assign(&a);
        }
    }
}

#[test]
fn pow_assign_exact_values() {
    let mut a = Fp128::from([2, 0]);
    a.pow_assign(10);
    assert_eq!(a.repr, [1024, 0]);
    // 2^64 = -5, so 2^65 = M - 10
    let mut b = Fp128::from([2, 0]);
    b.pow_assign(65);
    assert_eq!(b.repr, [u64::MAX - 4, 0]);
    let mut c = Fp7::from([3]);
    c.pow_assign(6);
    assert_eq!(c.repr, [1]);
    let mut d = Fp7::from([3]);
    d.pow_assign(u32::MAX);
    assert_eq!(d.repr, [6]);
}

#[test]
fn pow_assign_of_zero_and_one() {
    let mut z = Fp128::zero();
    z.pow_assign(0);
    assert_eq!(z.repr, [1, 0]);
    let mut z = Fp128::zero();
    z.pow_assign(5);
    assert_eq!(z.repr, [0, 0]);
    let mut o = Fp128::one();
    o.pow_assign(77);
    assert_eq!(o.repr, [1, 0]);
}

#[test]
fn one_is_the_canonical_configured_identity() {
    assert_eq!(Fp128::one().repr, [1, 0]);
    assert_eq!(Fp::<Shifted, 2>::one().repr, [1, 0]);
    assert!(Fp128::one().is_one());
    assert!(!Fp128::zero().is_one());
    assert!(Fp128::from([6, 1]).is_one());
}

#[test]
fn zero_is_all_zero_limbs() {
    assert_eq!(Fp128::zero().repr, [0, 0]);
    assert!(Fp128::zero().is_zero());
    assert!(!Fp128::one().is_zero());
    assert!(!Fp128::from([0, 1]).is_zero());
    assert_eq!(Fp128::default().repr, [0, 0]);
}

#[test]
fn equality_is_limb_equality() {
    assert!(Fp128::from([20, 3]) == Fp128::from([5, 0]));
    assert!(Fp128::from([2, 1]) != Fp128::from([1, 2]));
    let a = Fp128::from([2, 1]);
    let b = a.clone();
    assert!(a == b);
}

#[test]
fn order_is_that_of_the_integers() {
    let small = Fp128::from([u64::MAX, 0]);
    let large = Fp128::from([0, 1]);
    assert_eq!(small.cmp(&large), Ordering::Less);
    assert_eq!(large.cmp(&small), Ordering::Greater);
    assert_eq!(large.cmp(&large), Ordering::Equal);
    assert_eq!(small.partial_cmp(&large), Some(Ordering::Less));
    assert!(small < large);
    assert!(large >= small);
    let samples: [u128; 6] = [0, 1, 12, (1 << 64) - 1, 1 << 64, M - 1];
    for &x in samples.iter() {
        for &y in samples.iter() {
            let a = Fp128::from(limbs(x));
            let b = Fp128::from(limbs(y));
            assert_eq!(a.cmp(&b), x.cmp(&y));
        }
    }
}
