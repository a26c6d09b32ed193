//! The integer that a little-endian sequence of 64-bit limbs stands for, and
//! the facts about it that the limb algorithms rest on.

use vstd::arithmetic::div_mod::lemma_fundamental_div_mod_converse;
use vstd::prelude::*;

verus! {

/// The radix of one limb, `2^64`.
#[verifier::inline]
pub open spec fn radix() -> nat {
    0x1_0000_0000_0000_0000
}

/// `radix()` raised to the power `n`: the weight of limb `n`.
pub open spec fn radix_pow(n: nat) -> nat
    decreases n,
{
    if n == 0 {
        1
    } else {
        radix() * radix_pow((n - 1) as nat)
    }
}

/// The integer held by `limbs`, least significant limb first:
/// the sum of `limbs[i] * radix()^i`.
pub open spec fn limbs_value(limbs: Seq<u64>) -> nat
    decreases limbs.len(),
{
    if limbs.len() == 0 {
        0
    } else {
        limbs_value(limbs.drop_last()) + limbs.last() as nat * radix_pow((limbs.len() - 1) as nat)
    }
}

/// A weight is never zero.
pub proof fn lemma_radix_pow_positive(n: nat)
    ensures
        radix_pow(n) > 0,
    decreases n,
{
    if n > 0 {
        lemma_radix_pow_positive((n - 1) as nat);
    }
}

/// Weights multiply as their exponents add.
pub proof fn lemma_radix_pow_add(a: nat, b: nat)
    ensures
        radix_pow(a + b) == radix_pow(a) * radix_pow(b),
    decreases a,
{
    if a == 0 {
        assert(radix_pow(a + b) == 1 * radix_pow(b));
    } else {
        let a1 = (a - 1) as nat;
        lemma_radix_pow_add(a1, b);
        let r = radix() as int;
        let x = radix_pow(a1) as int;
        let y = radix_pow(b) as int;
        assert(radix_pow(a + b) == radix() * radix_pow(a1 + b));
        assert(r * (x * y) == (r * x) * y) by (nonlinear_arith);
    }
}

/// Weights grow with their exponents.
pub proof fn lemma_radix_pow_monotonic(a: nat, b: nat)
    requires
        a <= b,
    ensures
        radix_pow(a) <= radix_pow(b),
    decreases b,
{
    if a < b {
        lemma_radix_pow_monotonic(a, (b - 1) as nat);
        lemma_radix_pow_positive((b - 1) as nat);
    }
}

/// `n` limbs hold a value below `radix()^n`.
pub proof fn lemma_value_bound(limbs: Seq<u64>)
    ensures
        limbs_value(limbs) < radix_pow(limbs.len()),
    decreases limbs.len(),
{
    if limbs.len() > 0 {
        lemma_value_bound(limbs.drop_last());
        let p = radix_pow((limbs.len() - 1) as nat) as int;
        let top = limbs.last() as int;
        assert(top * p <= 0xffff_ffff_ffff_ffff * p) by (nonlinear_arith)
            requires
                0 <= top <= 0xffff_ffff_ffff_ffff,
                0 <= p,
        ;
    }
}

/// Taking one more limb adds that limb times its weight.
pub proof fn lemma_value_take_step(limbs: Seq<u64>, i: int)
    requires
        0 <= i < limbs.len(),
    ensures
        limbs_value(limbs.take(i + 1)) == limbs_value(limbs.take(i)) + limbs[i] as nat * radix_pow(
            i as nat,
        ),
{
    assert(limbs.take(i + 1).drop_last() =~= limbs.take(i));
}

/// Replacing limb `k` changes the value by the change in that limb times its weight.
pub proof fn lemma_value_update(limbs: Seq<u64>, k: int, x: u64)
    requires
        0 <= k < limbs.len(),
    ensures
        limbs_value(limbs.update(k, x)) + limbs[k] as nat * radix_pow(k as nat) == limbs_value(
            limbs,
        ) + x as nat * radix_pow(k as nat),
    decreases limbs.len(),
{
    let changed = limbs.update(k, x);
    if k == limbs.len() - 1 {
        assert(changed.drop_last() =~= limbs.drop_last());
    } else {
        lemma_value_update(limbs.drop_last(), k, x);
        assert(changed.drop_last() =~= limbs.drop_last().update(k, x));
    }
}

/// The value of a concatenation: the high part is weighted by the length of the low part.
pub proof fn lemma_value_concat(low: Seq<u64>, high: Seq<u64>)
    ensures
        limbs_value(low + high) == limbs_value(low) + radix_pow(low.len()) * limbs_value(high),
    decreases high.len(),
{
    if high.len() == 0 {
        assert(low + high =~= low);
        let pl = radix_pow(low.len()) as int;
        let none = limbs_value(high) as int;
        assert(pl * none == 0) by (nonlinear_arith)
            requires
                none == 0,
        ;
    } else {
        let whole = low + high;
        lemma_value_concat(low, high.drop_last());
        assert(whole.drop_last() =~= low + high.drop_last());
        let n = (high.len() - 1) as nat;
        lemma_radix_pow_add(low.len(), n);
        let pl = radix_pow(low.len()) as int;
        let pn = radix_pow(n) as int;
        let top = high.last() as int;
        let rest = limbs_value(high.drop_last()) as int;
        let all = limbs_value(high) as int;
        assert(whole.last() == high.last());
        assert(limbs_value(whole) == limbs_value(whole.drop_last()) + top * (pl * pn));
        assert(pl * rest + top * (pl * pn) == pl * all) by (nonlinear_arith)
            requires
                all == rest + top * pn,
        ;
    }
}

/// Splitting off the lowest limb: the rest is weighted by one radix.
pub proof fn lemma_value_skip_step(limbs: Seq<u64>, i: int)
    requires
        0 <= i < limbs.len(),
    ensures
        limbs_value(limbs.skip(i)) == limbs[i] as nat + radix() * limbs_value(limbs.skip(i + 1)),
{
    let low = seq![limbs[i]];
    let high = limbs.skip(i + 1);
    assert(limbs.skip(i) =~= low + high);
    lemma_value_concat(low, high);
    assert(limbs_value(low) == limbs[i] as nat) by {
        assert(limbs_value(low.drop_last()) == 0);
        let x = limbs[i] as int;
        let w = radix_pow(0) as int;
        assert(x * w == x) by (nonlinear_arith)
            requires
                w == 1,
        ;
    }
    assert(radix_pow(1) == radix()) by {
        assert(radix_pow(0) == 1);
    }
}

/// Limbs that are all zero hold zero.
pub proof fn lemma_value_zeros(limbs: Seq<u64>)
    requires
        forall|i: int| 0 <= i < limbs.len() ==> limbs[i] == 0,
    ensures
        limbs_value(limbs) == 0,
    decreases limbs.len(),
{
    if limbs.len() > 0 {
        lemma_value_zeros(limbs.drop_last());
    }
}

/// Limbs that hold zero are all zero.
pub proof fn lemma_value_zero_limbs(limbs: Seq<u64>)
    requires
        limbs_value(limbs) == 0,
    ensures
        forall|i: int| 0 <= i < limbs.len() ==> limbs[i] == 0,
    decreases limbs.len(),
{
    if limbs.len() > 0 {
        let p = radix_pow((limbs.len() - 1) as nat) as int;
        let top = limbs.last() as int;
        lemma_radix_pow_positive((limbs.len() - 1) as nat);
        assert(top == 0) by (nonlinear_arith)
            requires
                top * p == 0,
                p > 0,
        ;
        lemma_value_zero_limbs(limbs.drop_last());
        assert forall|i: int| 0 <= i < limbs.len() implies limbs[i] == 0 by {
            if i < limbs.len() - 1 {
                assert(limbs[i] == limbs.drop_last()[i]);
            }
        }
    }
}

/// Two limb sequences of one length that hold the same value are the same sequence.
pub proof fn lemma_value_injective(a: Seq<u64>, b: Seq<u64>)
    requires
        a.len() == b.len(),
        limbs_value(a) == limbs_value(b),
    ensures
        a == b,
    decreases a.len(),
{
    if a.len() > 0 {
        let n = (a.len() - 1) as nat;
        let p = radix_pow(n) as int;
        lemma_radix_pow_positive(n);
        lemma_value_bound(a.drop_last());
        lemma_value_bound(b.drop_last());
        let v = limbs_value(a) as int;
        lemma_fundamental_div_mod_converse(
            v,
            p,
            a.last() as int,
            limbs_value(a.drop_last()) as int,
        );
        lemma_fundamental_div_mod_converse(
            v,
            p,
            b.last() as int,
            limbs_value(b.drop_last()) as int,
        );
        lemma_value_injective(a.drop_last(), b.drop_last());
        assert(a =~= a.drop_last().push(a.last()));
        assert(b =~= b.drop_last().push(b.last()));
    } else {
        assert(a =~= b);
    }
}

/// The most significant limb in which two sequences differ decides which holds more.
pub proof fn lemma_value_decided_by_top_difference(a: Seq<u64>, b: Seq<u64>, i: int)
    requires
        a.len() == b.len(),
        0 <= i < a.len(),
        a[i] < b[i],
        forall|j: int| i < j < a.len() ==> a[j] == b[j],
    ensures
        limbs_value(a) < limbs_value(b),
    decreases a.len(),
{
    let n = (a.len() - 1) as nat;
    let p = radix_pow(n) as int;
    if i == a.len() - 1 {
        lemma_value_bound(a.drop_last());
        let x = a[i] as int;
        let y = b[i] as int;
        assert((x + 1) * p <= y * p) by (nonlinear_arith)
            requires
                x + 1 <= y,
                0 <= p,
        ;
        assert((x + 1) * p == x * p + p) by (nonlinear_arith);
    } else {
        let below_a = a.drop_last();
        let below_b = b.drop_last();
        assert forall|j: int| i < j < below_a.len() implies below_a[j] == below_b[j] by {
            assert(a[j] == b[j]);
        }
        lemma_value_decided_by_top_difference(a.drop_last(), b.drop_last(), i);
    }
}

} // verus!
