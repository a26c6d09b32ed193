//! Laws that the operations on field elements obey, stated over the
//! integers the elements stand for, as the contracts of the operations are.
//! Elements that stand for the same integer are the same element, so each
//! law is one of elements too.

use crate::fields::prime::{Fp, FpConfig};
use crate::fields::{add_mod, mul_mod, pow_mod, residue, sub_mod, Field, One, Zero};
use vstd::arithmetic::div_mod::{
    lemma_add_mod_noop, lemma_mod_twice, lemma_mul_mod_noop_left, lemma_mul_mod_noop_right,
    lemma_small_mod, lemma_sub_mod_noop,
};
use vstd::arithmetic::power::{lemma_pow0, lemma_pow1, lemma_pow_adds, pow};
use vstd::prelude::*;

verus! {

/// Zero is the identity of addition: `a + 0 == a` and `0 + a == a`.
pub proof fn lemma_add_zero<P: FpConfig<N>, const N: usize>(a: Fp<P, N>, zero: Fp<P, N>)
    requires
        a.is_canonical(),
        zero.is_zero_spec(),
    ensures
        add_mod(a.value(), zero.value(), Fp::<P, N>::modulus()) == a.value(),
        add_mod(zero.value(), a.value(), Fp::<P, N>::modulus()) == a.value(),
{
    lemma_small_mod(a.value(), Fp::<P, N>::modulus());
}

/// One is the identity of multiplication: `a * 1 == a` and `1 * a == a`.
pub proof fn lemma_mul_one<P: FpConfig<N>, const N: usize>(a: Fp<P, N>, one: Fp<P, N>)
    requires
        Fp::<P, N>::valid(),
        a.is_canonical(),
        one.is_one_spec(),
    ensures
        mul_mod(a.value(), one.value(), Fp::<P, N>::modulus()) == a.value(),
        mul_mod(one.value(), a.value(), Fp::<P, N>::modulus()) == a.value(),
{
    let m = Fp::<P, N>::modulus() as int;
    lemma_mul_mod_noop_right(a.value() as int, 1, m);
    lemma_mul_mod_noop_left(1, a.value() as int, m);
    lemma_small_mod(a.value(), m as nat);
}

/// Subtraction undoes addition: `(a + b) - b == a`.
pub proof fn lemma_sub_undoes_add<P: FpConfig<N>, const N: usize>(a: Fp<P, N>, b: Fp<P, N>)
    requires
        a.is_canonical(),
        b.is_canonical(),
    ensures
        sub_mod(
            add_mod(a.value(), b.value(), Fp::<P, N>::modulus()),
            b.value(),
            Fp::<P, N>::modulus(),
        ) == a.value(),
{
    let m = Fp::<P, N>::modulus() as int;
    lemma_sub_mod_noop((a.value() + b.value()) as int, b.value() as int, m);
    lemma_small_mod(a.value(), m as nat);
    lemma_small_mod(b.value(), m as nat);
}

/// Addition undoes subtraction: `(a - b) + b == a`.
pub proof fn lemma_add_undoes_sub<P: FpConfig<N>, const N: usize>(a: Fp<P, N>, b: Fp<P, N>)
    requires
        a.is_canonical(),
        b.is_canonical(),
    ensures
        add_mod(
            sub_mod(a.value(), b.value(), Fp::<P, N>::modulus()),
            b.value(),
            Fp::<P, N>::modulus(),
        ) == a.value(),
{
    let m = Fp::<P, N>::modulus() as int;
    lemma_add_mod_noop(a.value() - b.value(), b.value() as int, m);
    lemma_small_mod(a.value(), m as nat);
    lemma_small_mod(b.value(), m as nat);
}

/// Reduction is idempotent: reducing what was reduced changes nothing.
pub proof fn lemma_reduce_idempotent<P: FpConfig<N>, const N: usize>(x: Fp<P, N>)
    ensures
        residue(residue(x.value(), Fp::<P, N>::modulus()), Fp::<P, N>::modulus()) == residue(
            x.value(),
            Fp::<P, N>::modulus(),
        ),
{
    let m = Fp::<P, N>::modulus() as int;
    if m != 0 {
        lemma_mod_twice(x.value() as int, m);
    }
}

/// Reduction leaves a canonical element as it is.
pub proof fn lemma_reduce_canonical<P: FpConfig<N>, const N: usize>(x: Fp<P, N>)
    requires
        x.is_canonical(),
    ensures
        residue(x.value(), Fp::<P, N>::modulus()) == x.value(),
{
    lemma_small_mod(x.value(), Fp::<P, N>::modulus());
}

/// The power 0 of every element, zero included, is one.
pub proof fn lemma_pow_zero<P: FpConfig<N>, const N: usize>(a: Fp<P, N>)
    requires
        Fp::<P, N>::valid(),
    ensures
        pow_mod(a.value(), 0, Fp::<P, N>::modulus()) == Fp::<P, N>::one_value(),
{
    lemma_pow0(a.value() as int);
}

/// A power is its base multiplied by itself that many times: the power
/// `e + 1` is the power `e` times the base.
pub proof fn lemma_pow_succ<P: FpConfig<N>, const N: usize>(a: Fp<P, N>, e: nat)
    requires
        Fp::<P, N>::modulus() > 0,
    ensures
        pow_mod(a.value(), e + 1, Fp::<P, N>::modulus()) == mul_mod(
            pow_mod(a.value(), e, Fp::<P, N>::modulus()),
            a.value(),
            Fp::<P, N>::modulus(),
        ),
{
    let m = Fp::<P, N>::modulus() as int;
    let base = a.value() as int;
    lemma_pow_adds(base, e, 1);
    lemma_pow1(base);
    lemma_mul_mod_noop_left(pow(base, e), base, m);
}

} // verus!
