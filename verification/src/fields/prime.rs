//! Prime fields: residues modulo a modulus fixed at compile time by a
//! configuration, held as `N` little-endian 64-bit limbs.

use crate::fields::arithmetic::{
    add_with_carry, divide_remainder, is_zero, most_significant_difference, multiply_accumulate,
    reduce_once, sub_with_borrow,
};
use crate::fields::limbs::{
    lemma_radix_pow_add, lemma_radix_pow_monotonic, lemma_value_bound, lemma_value_injective,
    lemma_value_take_step, lemma_value_zeros, limbs_value, radix_pow,
};
use crate::fields::{residue, Field, One, Zero};
use core::marker::PhantomData;
use vstd::arithmetic::div_mod::{
    lemma_fundamental_div_mod_converse, lemma_mul_mod_noop_left, lemma_mul_mod_noop_right,
    lemma_small_mod,
};
use vstd::arithmetic::power::{
    lemma0_pow, lemma1_pow, lemma_pow0, lemma_pow1, lemma_pow_adds, lemma_pow_mod_noop,
    lemma_pow_multiplies, lemma_square_is_pow2, pow,
};
use vstd::prelude::*;

verus! {

/// The configuration of one prime field of `N` limbs.
///
/// `MODULUS` and `ONE` are little-endian: the most significant limb is last.
/// The configuration is valid when the modulus is not zero and `ONE` is
/// congruent to 1 modulo it; its author answers for the modulus being prime.
pub trait FpConfig<const N: usize> {
    /// The limbs of the modulus.
    const MODULUS: [u64; N];

    /// The limbs of the multiplicative identity.
    const ONE: [u64; N];
}

/// An element of the prime field that `P` configures.
///
/// `repr` holds the residue, least significant limb first. Every element
/// that the operations of this module return is canonical: its residue is
/// below the modulus.
pub struct Fp<P: FpConfig<N>, const N: usize> {
    pub repr: [u64; N],
    pub phantom: PhantomData<P>,
}

impl<P: FpConfig<N>, const N: usize> View for Fp<P, N> {
    type V = nat;

    /// The integer that the limbs hold.
    open spec fn view(&self) -> nat {
        limbs_value(self.repr@)
    }
}

impl<P: FpConfig<N>, const N: usize> Fp<P, N> {
    /// The integer that the configured modulus holds.
    pub open spec fn modulus_value() -> nat {
        limbs_value(P::MODULUS@)
    }

    /// The residue that the configured identity stands for.
    pub open spec fn one_value() -> nat {
        residue(limbs_value(P::ONE@), Self::modulus_value())
    }

    /// Whether `self` is canonical: its integer is below the modulus.
    pub open spec fn is_canonical(&self) -> bool {
        self@ < Self::modulus_value()
    }

    /// Elements that stand for the same integer are the same element.
    pub proof fn lemma_view_determines_element(a: Self, b: Self)
        requires
            a@ == b@,
        ensures
            a == b,
    {
        lemma_value_injective(a.repr@, b.repr@);
        assert(a.repr =~= b.repr);
    }
}

impl<P: FpConfig<N>, const N: usize> Clone for Fp<P, N> {
    fn clone(&self) -> (r: Self)
        ensures
            r == *self,
    {
        Fp { repr: self.repr, phantom: PhantomData }
    }
}

impl<P: FpConfig<N>, const N: usize> Copy for Fp<P, N> {

}

impl<P: FpConfig<N>, const N: usize> vstd::std_specs::convert::FromSpecImpl<[u64; N]> for Fp<P, N> {
    open spec fn obeys_from_spec() -> bool {
        true
    }

    /// The canonical element for the integer that `value` holds; with a
    /// zero modulus, `value` as it is.
    open spec fn from_spec(value: [u64; N]) -> Self {
        if Self::modulus_value() == 0 {
            Fp { repr: value, phantom: PhantomData }
        } else {
            choose|r: Self| r@ == limbs_value(value@) % Self::modulus_value()
        }
    }
}

impl<P: FpConfig<N>, const N: usize> From<[u64; N]> for Fp<P, N> {
    /// Takes `value` as an arbitrary integer of `N` limbs and returns the
    /// canonical element for it, by the general reduction.
    fn from(value: [u64; N]) -> (r: Self)
        ensures
            r@ == residue(limbs_value(value@), Self::modulus_value()),
            Self::modulus_value() > 0 ==> r.is_canonical(),
    {
        let modulus = P::MODULUS;
        let r = if is_zero(&modulus) {
            Fp { repr: value, phantom: PhantomData }
        } else {
            Fp { repr: divide_remainder(value.as_slice(), &modulus), phantom: PhantomData }
        };
        proof {
            if Self::modulus_value() != 0 {
                let c = choose|c: Self| c@ == limbs_value(value@) % Self::modulus_value();
                Self::lemma_view_determines_element(c, r);
            }
        }
        r
    }
}

/// A field of residues modulo a prime, configured by `P`.
pub trait PrimeField<P: FpConfig<N>, const N: usize>: Field<N> {
    /// Brings `self`, whatever its limbs hold, into canonical form by the
    /// general reduction. A zero modulus reduces nothing.
    fn reduce(&mut self)
        ensures
            final(self).value() == residue(old(self).value(), Self::modulus()),
            Self::modulus() > 0 ==> final(self).value() < Self::modulus(),
    ;
}

impl<P: FpConfig<N>, const N: usize> PrimeField<P, N> for Fp<P, N> {
    fn reduce(&mut self) {
        let r = Self::from(self.repr);
        self.repr = r.repr;
    }
}

impl<P: FpConfig<N>, const N: usize> Fp<P, N> {
    /// The cheap reduction, for an element known to be below twice the
    /// modulus: at most one subtraction, no division.
    pub fn reduce_once(&mut self)
        requires
            old(self)@ < 2 * Self::modulus_value(),
        ensures
            final(self)@ == old(self)@ % Self::modulus_value(),
            final(self).is_canonical(),
    {
        let modulus = P::MODULUS;
        proof {
            let w = radix_pow(N as nat) as int;
            assert(0 * w == 0);
        }
        reduce_once(&mut self.repr, 0, &modulus);
    }
}

impl<P: FpConfig<N>, const N: usize> Default for Fp<P, N> {
    /// The additive identity.
    fn default() -> (r: Self)
        ensures
            r@ == 0,
    {
        Self::zero()
    }
}

impl<P: FpConfig<N>, const N: usize> Zero for Fp<P, N> {
    open spec fn is_zero_spec(&self) -> bool {
        self@ == 0
    }

    fn zero() -> (r: Self) {
        let r = Fp { repr: [0u64; N], phantom: PhantomData };
        proof {
            lemma_value_zeros(r.repr@);
        }
        r
    }

    fn is_zero(&self) -> (b: bool) {
        is_zero(&self.repr)
    }
}

impl<P: FpConfig<N>, const N: usize> One for Fp<P, N> {
    /// `self` is the canonical form of the configured identity.
    open spec fn is_one_spec(&self) -> bool {
        self@ == Self::one_value()
    }

    /// The canonical form of the configured identity `P::ONE`.
    fn one() -> (r: Self) {
        Self::from(P::ONE)
    }

    fn is_one(&self) -> (b: bool) {
        let one = Self::one();
        proof {
            if self@ == one@ {
                Self::lemma_view_determines_element(*self, one);
            }
        }
        match most_significant_difference(&self.repr, &one.repr) {
            Some(_) => false,
            None => true,
        }
    }
}

impl<P: FpConfig<N>, const N: usize> AsRef<[u64; N]> for Fp<P, N> {
    /// The limbs, least significant first.
    fn as_ref(&self) -> (r: &[u64; N])
        ensures
            *r == self.repr,
    {
        &self.repr
    }
}

impl<P: FpConfig<N>, const N: usize> AsMut<[u64; N]> for Fp<P, N> {
    /// The limbs, open to change; `reduce` makes the element canonical again.
    fn as_mut(&mut self) -> (r: &mut [u64; N])
        ensures
            *r == old(self).repr,
            final(self).repr == *final(r),
    {
        &mut self.repr
    }
}

impl<P: FpConfig<N>, const N: usize> vstd::std_specs::cmp::PartialEqSpecImpl for Fp<P, N> {
    open spec fn obeys_eq_spec() -> bool {
        true
    }

    /// Elements are equal when their limbs are.
    open spec fn eq_spec(&self, other: &Self) -> bool {
        self.repr == other.repr
    }
}

impl<P: FpConfig<N>, const N: usize> PartialEq for Fp<P, N> {
    fn eq(&self, other: &Self) -> (r: bool) {
        proof {
            if self.repr@ == other.repr@ {
                assert(self.repr =~= other.repr);
            }
        }
        match most_significant_difference(&self.repr, &other.repr) {
            Some(_) => false,
            None => true,
        }
    }

    fn ne(&self, other: &Self) -> (r: bool) {
        !self.eq(other)
    }
}

impl<P: FpConfig<N>, const N: usize> Eq for Fp<P, N> {

}

impl<P: FpConfig<N>, const N: usize> Field<N> for Fp<P, N> {
    open spec fn modulus() -> nat {
        Self::modulus_value()
    }

    open spec fn value(&self) -> nat {
        self@
    }

    /// The modulus is not zero and `P::ONE` is congruent to 1 modulo it.
    open spec fn valid() -> bool {
        &&& Self::modulus_value() > 0
        &&& Self::one_value() == 1nat % Self::modulus_value()
    }

    /// The limbs are added with carry; the modulus is subtracted once when
    /// the sum carried out of the top limb or is not below the modulus.
    fn add_assign(&mut self, other: &Self) {
        let modulus = P::MODULUS;
        let carry = add_with_carry(&mut self.repr, &other.repr);
        reduce_once(&mut self.repr, carry, &modulus);
    }

    /// The limbs are subtracted with borrow; the modulus is added back once
    /// when the difference borrowed from above the top limb.
    fn sub_assign(&mut self, other: &Self) {
        let modulus = P::MODULUS;
        let ghost a = self@ as int;
        let ghost b = other@ as int;
        let ghost m = Self::modulus_value() as int;
        let ghost top = radix_pow(N as nat) as int;
        let borrow = sub_with_borrow(&mut self.repr, &other.repr);
        proof {
            let c = borrow as int;
            assert(c * top == if c == 1 { top } else { 0 }) by (nonlinear_arith)
                requires
                    0 <= c <= 1,
            ;
        }
        if borrow > 0 {
            let carry = add_with_carry(&mut self.repr, &modulus);
            proof {
                lemma_value_bound(self.repr@);
                lemma_value_bound(modulus@);
                let c = carry as int;
                assert(c * top == if c == 1 { top } else { 0 }) by (nonlinear_arith)
                    requires
                        0 <= c <= 1,
                ;
                lemma_fundamental_div_mod_converse(a - b, m, -1, a - b + m);
            }
        } else {
            proof {
                lemma_small_mod((a - b) as nat, m as nat);
            }
        }
    }

    /// Schoolbook multiplication into a product of `2 * N` limbs, one
    /// multiply-accumulate for each limb of `other` that is not zero, then
    /// the general reduction of the product.
    fn mul_assign(&mut self, other: &Self) {
        let modulus = P::MODULUS;
        let ghost a = self@;
        let mut acc: Vec<u64> = Vec::new();
        let mut n: usize = 0;
        while n < N
            invariant
                n <= N,
                acc@.len() == 2 * n,
                forall|j: int| 0 <= j < acc@.len() ==> acc@[j] == 0,
            decreases N - n,
        {
            acc.push(0);
            acc.push(0);
            n += 1;
        }
        let mut i: usize = 0;
        proof {
            lemma_value_zeros(acc@);
            assert(other.repr@.take(0) =~= Seq::<u64>::empty());
            assert(a * limbs_value(other.repr@.take(0)) == 0) by (nonlinear_arith)
                requires
                    limbs_value(other.repr@.take(0)) == 0,
            ;
        }
        while i < N
            invariant
                i <= N,
                acc@.len() == 2 * N,
                a == self@,
                limbs_value(acc@) == a * limbs_value(other.repr@.take(i as int)),
            decreases N - i,
        {
            let limb = other.repr[i];
            proof {
                lemma_value_take_step(other.repr@, i as int);
                lemma_partial_product(
                    a,
                    limbs_value(other.repr@.take(i as int)),
                    limb as nat,
                    i as nat,
                    limbs_value(other.repr@.take(i + 1)),
                );
                lemma_value_bound(self.repr@);
                lemma_value_bound(other.repr@.take(i + 1));
                lemma_product_below(
                    a,
                    limbs_value(other.repr@.take(i + 1)),
                    i as nat,
                    N as nat,
                );
            }
            if limb != 0 {
                multiply_accumulate(&mut acc, &self.repr, limb, i);
            }
            i += 1;
        }
        proof {
            assert(other.repr@.take(N as int) =~= other.repr@);
        }
        self.repr = divide_remainder(acc.as_slice(), &modulus);
    }

    /// Square and multiply over the bits of `exp`, least significant first.
    ///
    /// The power 0 gives one whatever the base; otherwise zero and one are
    /// left as they are, being their own powers.
    fn pow_assign(&mut self, exp: u32) {
        let ghost base = self@ as int;
        let ghost m = Self::modulus_value() as int;
        if exp == 0 {
            *self = Self::one();
            proof {
                lemma_pow0(base);
            }
            return ;
        }
        if self.is_zero() || self.is_one() {
            proof {
                if base == 0 {
                    lemma0_pow(exp as nat);
                } else {
                    lemma_pow_mod_noop(1, exp as nat, m);
                    lemma1_pow(exp as nat);
                }
                lemma_small_mod(base as nat, m as nat);
            }
            return ;
        }
        let mut i: u32 = exp;
        let mut acc = self.clone();
        *self = Self::one();
        proof {
            lemma_mul_mod_noop_left(1, pow(base, exp as nat), m);
        }
        while i != 0
            invariant
                m == Self::modulus_value(),
                m > 0,
                self.is_canonical(),
                acc.is_canonical(),
                (self@ * pow(acc@ as int, i as nat)) % m == pow(base, exp as nat) % m,
            decreases i,
        {
            proof {
                lemma_pow_step(self@ as int, acc@ as int, i as nat, m);
                assert(i >> 1 == i / 2) by (bit_vector);
            }
            if i % 2 == 1 {
                self.mul_assign(&acc);
            }
            let square = acc.clone();
            acc.mul_assign(&square);
            i = i >> 1;
        }
        proof {
            lemma_pow0(acc@ as int);
            lemma_small_mod(self@, m as nat);
        }
    }
}

/// The product so far, with one more limb of the multiplier taken in.
proof fn lemma_partial_product(a: nat, taken: nat, limb: nat, i: nat, next: nat)
    requires
        next == taken + limb * radix_pow(i),
    ensures
        a * next == a * taken + a * limb * radix_pow(i),
        limb == 0 ==> next == taken,
{
    let w = radix_pow(i) as int;
    assert(a * (taken + limb * w) == a * taken + a * limb * w) by (nonlinear_arith);
    assert(limb == 0 ==> limb * w == 0) by (nonlinear_arith);
}

/// A product of `n` limbs by `i + 1` limbs, `i < n`, fits in `2 * n` limbs.
proof fn lemma_product_below(a: nat, b: nat, i: nat, n: nat)
    requires
        i < n,
        a < radix_pow(n),
        b < radix_pow(i + 1),
    ensures
        a * b < radix_pow(2 * n),
{
    lemma_radix_pow_add(n, i + 1);
    lemma_radix_pow_monotonic(n + i + 1, 2 * n);
    let pa = radix_pow(n) as int;
    let pb = radix_pow(i + 1) as int;
    assert(a * b < pa * pb) by (nonlinear_arith)
        requires
            0 <= a < pa,
            0 <= b < pb,
    ;
}

/// One round of square and multiply keeps the power being computed:
/// with `i` halved, the base squared and, for odd `i`, the result
/// multiplied by the base, all modulo `m`.
proof fn lemma_pow_step(r: int, a: int, i: nat, m: int)
    requires
        m > 0,
        i > 0,
    ensures
        ((if i % 2 == 1 {
            (r * a) % m
        } else {
            r
        }) * pow((a * a) % m, i / 2)) % m == (r * pow(a, i)) % m,
{
    let k = i / 2;
    let squares = pow((a * a) % m, k);
    let evens = pow(a, 2 * k);
    lemma_pow_mod_noop(a * a, k, m);
    lemma_square_is_pow2(a);
    lemma_pow_multiplies(a, 2, k);
    assert(squares % m == evens % m);
    if i % 2 == 1 {
        lemma_pow_adds(a, 1, 2 * k);
        lemma_pow1(a);
        assert(pow(a, i) == a * evens);
        lemma_mul_mod_noop_left(r * a, squares, m);
        lemma_mul_mod_noop_right(r * a, squares, m);
        lemma_mul_mod_noop_right(r * a, evens, m);
        assert((r * a) * evens == r * (a * evens)) by (nonlinear_arith);
    } else {
        lemma_mul_mod_noop_right(r, squares, m);
        lemma_mul_mod_noop_right(r, evens, m);
    }
}

} // verus!
