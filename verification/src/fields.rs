//! Fields and the traits their elements share.

use vstd::arithmetic::power::pow;
use vstd::prelude::*;

pub mod arithmetic;
pub mod laws;
pub mod limbs;
pub mod order;
pub mod prime;

verus! {

/// The remainder of `v` on division by `m`, where no modulus (`m == 0`)
/// reduces nothing.
pub open spec fn residue(v: nat, m: nat) -> nat {
    if m == 0 {
        v
    } else {
        v % m
    }
}

/// The sum of the residues `a` and `b` modulo `m`.
pub open spec fn add_mod(a: nat, b: nat, m: nat) -> nat {
    (a + b) % m
}

/// The difference of the residues `a` and `b` modulo `m`.
pub open spec fn sub_mod(a: nat, b: nat, m: nat) -> nat {
    ((a - b) % (m as int)) as nat
}

/// The product of the residues `a` and `b` modulo `m`.
pub open spec fn mul_mod(a: nat, b: nat, m: nat) -> nat {
    (a * b) % m
}

/// The power `e` of the residue `a` modulo `m`; the power 0 of every
/// residue, zero included, is 1 modulo `m`.
pub open spec fn pow_mod(a: nat, e: nat, m: nat) -> nat {
    (pow(a as int, e) % (m as int)) as nat
}

/// A type with an additive identity.
pub trait Zero: Sized {
    /// Whether `self` is the additive identity.
    spec fn is_zero_spec(&self) -> bool;

    /// The additive identity.
    fn zero() -> (r: Self)
        ensures
            r.is_zero_spec(),
    ;

    /// Whether `self` is the additive identity.
    fn is_zero(&self) -> (b: bool)
        ensures
            b == self.is_zero_spec(),
    ;
}

/// A type with a multiplicative identity.
pub trait One: Sized {
    /// Whether `self` is the multiplicative identity.
    spec fn is_one_spec(&self) -> bool;

    /// The multiplicative identity.
    fn one() -> (r: Self)
        ensures
            r.is_one_spec(),
    ;

    /// Whether `self` is the multiplicative identity.
    fn is_one(&self) -> (b: bool)
        ensures
            b == self.is_one_spec(),
    ;
}

/// Arithmetic on the residues modulo `Self::modulus()`, held in `N` limbs.
///
/// An element stands for the integer `value()`. It is canonical when that
/// integer is below the modulus; the four operations take canonical elements
/// and leave `self` canonical.
pub trait Field<const N: usize>: Zero + One {
    /// The number of residues: arithmetic is modulo this.
    spec fn modulus() -> nat;

    /// The integer that `self` stands for.
    spec fn value(&self) -> nat;

    /// Whether the type's parameters describe a field: the modulus is not
    /// zero and `one()` stands for 1.
    spec fn valid() -> bool;

    /// Adds `other` to `self`.
    fn add_assign(&mut self, other: &Self)
        requires
            old(self).value() < Self::modulus(),
            other.value() < Self::modulus(),
        ensures
            final(self).value() == add_mod(old(self).value(), other.value(), Self::modulus()),
            final(self).value() < Self::modulus(),
    ;

    /// Subtracts `other` from `self`.
    fn sub_assign(&mut self, other: &Self)
        requires
            old(self).value() < Self::modulus(),
            other.value() < Self::modulus(),
        ensures
            final(self).value() == sub_mod(old(self).value(), other.value(), Self::modulus()),
            final(self).value() < Self::modulus(),
    ;

    /// Multiplies `self` by `other`.
    fn mul_assign(&mut self, other: &Self)
        requires
            old(self).value() < Self::modulus(),
            other.value() < Self::modulus(),
        ensures
            final(self).value() == mul_mod(old(self).value(), other.value(), Self::modulus()),
            final(self).value() < Self::modulus(),
    ;

    /// Raises `self` to the power `exp`; the power 0 of every element,
    /// zero included, is one.
    fn pow_assign(&mut self, exp: u32)
        requires
            Self::valid(),
            old(self).value() < Self::modulus(),
        ensures
            final(self).value() == pow_mod(old(self).value(), exp as nat, Self::modulus()),
            final(self).value() < Self::modulus(),
            exp == 0 ==> final(self).is_one_spec(),
    ;
}

} // verus!
