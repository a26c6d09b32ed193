//! Limb-level arithmetic on fixed-width, little-endian multi-limb integers:
//! addition with carry, subtraction with borrow, multiply-accumulate and
//! reduction modulo another multi-limb integer.

use crate::fields::limbs::{
    lemma_radix_pow_add, lemma_value_bound, lemma_value_decided_by_top_difference,
    lemma_value_skip_step, lemma_value_take_step, lemma_value_update, lemma_value_zero_limbs,
    lemma_value_zeros, limbs_value, radix, radix_pow,
};
use vstd::arithmetic::div_mod::{
    lemma_add_mod_noop, lemma_fundamental_div_mod_converse, lemma_mul_mod_noop_left,
    lemma_mul_mod_noop_right, lemma_small_mod,
};
use vstd::arithmetic::power2::{lemma2_to64, lemma_pow2_unfold, pow2};
use vstd::prelude::*;

verus! {

/// One column of an addition: `x + y + carry_in == low + carry_out * radix()`.
proof fn lemma_add_column(
    total: int,
    before: int,
    x: int,
    low: int,
    carry_in: int,
    carry_out: int,
    y: int,
    w: int,
)
    by (nonlinear_arith)
    requires
        x + y + carry_in == low + carry_out * 0x1_0000_0000_0000_0000,
        total == before + carry_in * w,
    ensures
        total + y * w == (before - x * w + low * w) + carry_out * (0x1_0000_0000_0000_0000 * w),
{
}

/// Adds `b` to `a` in place and returns the carry out of the top limb.
///
/// The sum of the two integers is the new `a` plus the carry weighted by
/// `radix()^N`; the carry is 0 or 1.
pub fn add_with_carry<const N: usize>(a: &mut [u64; N], b: &[u64; N]) -> (carry: u64)
    ensures
        carry <= 1,
        limbs_value(final(a)@) + carry * radix_pow(N as nat) == limbs_value(old(a)@) + limbs_value(
            b@,
        ),
{
    let ghost start = a@;
    let mut carry: u64 = 0;
    let mut i: usize = 0;
    proof {
        assert(b@.take(0) =~= Seq::<u64>::empty());
        assert(carry * radix_pow(0) == 0) by (nonlinear_arith)
            requires
                carry == 0,
        ;
    }
    while i < N
        invariant
            i <= N,
            carry <= 1,
            limbs_value(a@) + carry * radix_pow(i as nat) == limbs_value(start) + limbs_value(
                b@.take(i as int),
            ),
        decreases N - i,
    {
        let ghost before = a@;
        let ghost carry_in = carry;
        let sum: u128 = a[i] as u128 + b[i] as u128 + carry as u128;
        let low: u64 = (sum % 0x1_0000_0000_0000_0000) as u64;
        carry = (sum / 0x1_0000_0000_0000_0000) as u64;
        a[i] = low;
        proof {
            lemma_value_update(before, i as int, low);
            lemma_value_take_step(b@, i as int);
            lemma_add_column(
                (limbs_value(start) + limbs_value(b@.take(i as int))) as int,
                limbs_value(before) as int,
                before[i as int] as int,
                low as int,
                carry_in as int,
                carry as int,
                b[i as int] as int,
                radix_pow(i as nat) as int,
            );
        }
        i += 1;
    }
    proof {
        assert(b@.take(N as int) =~= b@);
    }
    carry
}

/// One column of a subtraction: `x - y - borrow_in == low - borrow_out * radix()`.
proof fn lemma_sub_column(
    start: int,
    before: int,
    taken: int,
    x: int,
    y: int,
    low: int,
    borrow_in: int,
    borrow_out: int,
    w: int,
)
    by (nonlinear_arith)
    requires
        x + borrow_out * 0x1_0000_0000_0000_0000 == low + y + borrow_in,
        before + taken == start + borrow_in * w,
    ensures
        (before - x * w + low * w) + (taken + y * w) == start + borrow_out * (
        0x1_0000_0000_0000_0000 * w),
{
}

/// Subtracts `b` from `a` in place and returns the borrow out of the top limb.
///
/// The new `a` is the difference, taken modulo `radix()^N`; the borrow is 1
/// exactly when `a` was smaller than `b`, and 0 otherwise.
pub fn sub_with_borrow<const N: usize>(a: &mut [u64; N], b: &[u64; N]) -> (borrow: u64)
    ensures
        borrow <= 1,
        limbs_value(final(a)@) + limbs_value(b@) == limbs_value(old(a)@) + borrow * radix_pow(
            N as nat,
        ),
        borrow == 1 <==> limbs_value(old(a)@) < limbs_value(b@),
{
    let ghost start = a@;
    let mut borrow: u64 = 0;
    let mut i: usize = 0;
    proof {
        assert(b@.take(0) =~= Seq::<u64>::empty());
        assert(borrow * radix_pow(0) == 0) by (nonlinear_arith)
            requires
                borrow == 0,
        ;
    }
    while i < N
        invariant
            i <= N,
            borrow <= 1,
            limbs_value(a@) + limbs_value(b@.take(i as int)) == limbs_value(start) + borrow
                * radix_pow(i as nat),
        decreases N - i,
    {
        let ghost before = a@;
        let ghost borrow_in = borrow;
        let wide: u128 = a[i] as u128 + 0x1_0000_0000_0000_0000 - b[i] as u128 - borrow as u128;
        let low: u64 = (wide % 0x1_0000_0000_0000_0000) as u64;
        borrow = 1 - (wide / 0x1_0000_0000_0000_0000) as u64;
        a[i] = low;
        proof {
            lemma_value_update(before, i as int, low);
            lemma_value_take_step(b@, i as int);
            lemma_sub_column(
                limbs_value(start) as int,
                limbs_value(before) as int,
                limbs_value(b@.take(i as int)) as int,
                before[i as int] as int,
                b[i as int] as int,
                low as int,
                borrow_in as int,
                borrow as int,
                radix_pow(i as nat) as int,
            );
        }
        i += 1;
    }
    proof {
        assert(b@.take(N as int) =~= b@);
        lemma_value_bound(a@);
        lemma_value_bound(start);
        let top = radix_pow(N as nat) as int;
        let c = borrow as int;
        assert(c * top == if c == 1 { top } else { 0 }) by (nonlinear_arith)
            requires
                0 <= c <= 1,
        ;
    }
    borrow
}

/// Finds the most significant limb in which `a` and `b` differ, scanning
/// from the top limb down, or `None` when they are equal.
///
/// That limb decides the order of the two integers.
pub fn most_significant_difference<const N: usize>(a: &[u64; N], b: &[u64; N]) -> (found: Option<
    usize,
>)
    ensures
        match found {
            Some(i) => {
                &&& i < N
                &&& a[i as int] != b[i as int]
                &&& forall|j: int| i < j < N ==> a[j] == b[j]
                &&& a[i as int] < b[i as int] <==> limbs_value(a@) < limbs_value(b@)
                &&& limbs_value(a@) != limbs_value(b@)
            },
            None => a@ == b@,
        },
{
    let mut i: usize = N;
    while i > 0
        invariant
            i <= N,
            forall|j: int| i <= j < N ==> a[j] == b[j],
        decreases i,
    {
        i -= 1;
        if a[i] != b[i] {
            proof {
                if a[i as int] < b[i as int] {
                    lemma_value_decided_by_top_difference(a@, b@, i as int);
                } else {
                    lemma_value_decided_by_top_difference(b@, a@, i as int);
                }
            }
            return Some(i);
        }
    }
    proof {
        assert(a@ =~= b@);
    }
    None
}

/// Whether the integer in `a` is smaller than the one in `b`.
pub fn less_than<const N: usize>(a: &[u64; N], b: &[u64; N]) -> (smaller: bool)
    ensures
        smaller == (limbs_value(a@) < limbs_value(b@)),
{
    match most_significant_difference(a, b) {
        Some(i) => a[i] < b[i],
        None => false,
    }
}

/// Whether every limb of `a` is zero, that is, whether `a` holds zero.
pub fn is_zero<const N: usize>(a: &[u64; N]) -> (zero: bool)
    ensures
        zero == (limbs_value(a@) == 0),
{
    let mut i: usize = 0;
    while i < N
        invariant
            i <= N,
            forall|j: int| 0 <= j < i ==> a[j] == 0,
        decreases N - i,
    {
        if a[i] != 0 {
            proof {
                if limbs_value(a@) == 0 {
                    lemma_value_zero_limbs(a@);
                }
            }
            return false;
        }
        i += 1;
    }
    proof {
        lemma_value_zeros(a@);
    }
    true
}

/// The cheap reduction: brings a value known to be below twice the modulus
/// into canonical form with at most one subtraction.
///
/// The value is `a` plus `carry` weighted by `radix()^N`, as an addition
/// leaves it. The modulus is subtracted when the carry is set or `a` is not
/// below the modulus.
pub fn reduce_once<const N: usize>(a: &mut [u64; N], carry: u64, modulus: &[u64; N])
    requires
        carry <= 1,
        limbs_value(old(a)@) + carry * radix_pow(N as nat) < 2 * limbs_value(modulus@),
    ensures
        limbs_value(final(a)@) == (limbs_value(old(a)@) + carry as nat * radix_pow(N as nat))
            % limbs_value(modulus@),
        limbs_value(final(a)@) < limbs_value(modulus@),
{
    let ghost m = limbs_value(modulus@) as int;
    let ghost top = radix_pow(N as nat) as int;
    let ghost total = limbs_value(a@) + carry * radix_pow(N as nat);
    proof {
        lemma_value_bound(a@);
        lemma_value_bound(modulus@);
        let c = carry as int;
        assert(c * top == if c == 1 { top } else { 0 }) by (nonlinear_arith)
            requires
                0 <= c <= 1,
        ;
    }
    if carry > 0 || !less_than(a, modulus) {
        let borrow = sub_with_borrow(a, modulus);
        proof {
            lemma_value_bound(a@);
            let b = borrow as int;
            assert(b * top == if b == 1 { top } else { 0 }) by (nonlinear_arith)
                requires
                    0 <= b <= 1,
            ;
            lemma_fundamental_div_mod_converse(total as int, m, 1, total - m);
        }
    } else {
        proof {
            lemma_small_mod(total as nat, m as nat);
        }
    }
}

/// One column of a doubling: `2 * x + carry_in == low + carry_out * radix()`.
proof fn lemma_double_column(
    start: int,
    before: int,
    done: int,
    x: int,
    low: int,
    carry_in: int,
    carry_out: int,
    bit: int,
    w: int,
)
    by (nonlinear_arith)
    requires
        2 * x + carry_in == low + carry_out * 0x1_0000_0000_0000_0000,
        before + carry_in * w == start + done + bit,
    ensures
        (before - x * w + low * w) + carry_out * (0x1_0000_0000_0000_0000 * w) == start + (done + x
            * w) + bit,
{
}

/// Shifts `a` left by one bit in place, moving `bit` into the lowest place,
/// and returns the bit shifted out of the top limb.
pub fn shift_in_bit<const N: usize>(a: &mut [u64; N], bit: u64) -> (carry: u64)
    requires
        bit <= 1,
    ensures
        carry <= 1,
        limbs_value(final(a)@) + carry * radix_pow(N as nat) == 2 * limbs_value(old(a)@) + bit,
{
    let ghost start = a@;
    let mut carry: u64 = bit;
    let mut i: usize = 0;
    proof {
        assert(start.take(0) =~= Seq::<u64>::empty());
        let c = carry as int;
        let w = radix_pow(0) as int;
        assert(c * w == c) by (nonlinear_arith)
            requires
                w == 1,
        ;
    }
    while i < N
        invariant
            i <= N,
            carry <= 1,
            bit <= 1,
            a@.len() == start.len(),
            forall|j: int| i <= j < N ==> a[j] == start[j],
            limbs_value(a@) + carry * radix_pow(i as nat) == limbs_value(start) + limbs_value(
                start.take(i as int),
            ) + bit,
        decreases N - i,
    {
        let ghost before = a@;
        let ghost carry_in = carry;
        let wide: u128 = 2 * (a[i] as u128) + carry as u128;
        let low: u64 = (wide % 0x1_0000_0000_0000_0000) as u64;
        carry = (wide / 0x1_0000_0000_0000_0000) as u64;
        a[i] = low;
        proof {
            lemma_value_update(before, i as int, low);
            lemma_value_take_step(start, i as int);
            lemma_double_column(
                limbs_value(start) as int,
                limbs_value(before) as int,
                limbs_value(start.take(i as int)) as int,
                before[i as int] as int,
                low as int,
                carry_in as int,
                carry as int,
                bit as int,
                radix_pow(i as nat) as int,
            );
        }
        i += 1;
    }
    proof {
        assert(start.take(N as int) =~= start);
    }
    carry
}

/// Doubling a residue and adding a bit is the residue of doing so to the
/// unreduced number.
proof fn lemma_fold_bit(x: nat, r: nat, bit: nat, m: nat)
    requires
        m > 0,
        r == x % m,
    ensures
        (2 * r + bit) % m == (2 * x + bit) % m,
{
    lemma_mul_mod_noop_right(2, x as int, m as int);
    lemma_add_mod_noop((2 * r) as int, bit as int, m as int);
    lemma_add_mod_noop((2 * x) as int, bit as int, m as int);
}

/// Taking one more bit off the top of a limb: with `limb * scale` split into
/// the bits already taken, `high`, and those still left, `rest`, the next
/// bit moves from the top of `rest` to the bottom of `high`.
proof fn lemma_fold_scale(
    limb: int,
    start: int,
    scale: int,
    high: int,
    rest: int,
    bit: int,
    next_rest: int,
)
    by (nonlinear_arith)
    requires
        limb * scale == high * 0x1_0000_0000_0000_0000 + rest,
        2 * rest == bit * 0x1_0000_0000_0000_0000 + next_rest,
    ensures
        limb * (2 * scale) == (2 * high + bit) * 0x1_0000_0000_0000_0000 + next_rest,
        start * (2 * scale) + (2 * high + bit) == 2 * (start * scale + high) + bit,
{
}

/// Once all 64 bits are taken nothing is left, and the bits taken are the limb.
proof fn lemma_fold_done(limb: int, high: int, rest: int)
    by (nonlinear_arith)
    requires
        limb * 0x1_0000_0000_0000_0000 == high * 0x1_0000_0000_0000_0000 + rest,
        0 <= rest < 0x1_0000_0000_0000_0000,
    ensures
        rest == 0,
        high == limb,
{
}

/// Appends `limb` below the residue `r` and reduces: `r` becomes
/// `(r * radix() + limb) mod modulus`.
///
/// The limb is shifted in bit by bit from its top; after each bit the
/// modulus is subtracted if the doubled value reached it.
pub fn fold_limb<const N: usize>(r: &mut [u64; N], limb: u64, modulus: &[u64; N])
    requires
        limbs_value(old(r)@) < limbs_value(modulus@),
    ensures
        limbs_value(final(r)@) == (limbs_value(old(r)@) * radix() + limb as nat) % limbs_value(
            modulus@,
        ),
        limbs_value(final(r)@) < limbs_value(modulus@),
{
    let ghost start = limbs_value(r@);
    let ghost m = limbs_value(modulus@);
    let ghost mut scale: nat = 1;
    let ghost mut high: nat = 0;
    let mut rest: u64 = limb;
    let mut taken: u32 = 0;
    proof {
        lemma2_to64();
        lemma_small_mod(start, m);
        assert(start * scale + high == start) by (nonlinear_arith)
            requires
                scale == 1,
                high == 0,
        ;
        assert(limb * scale == high * 0x1_0000_0000_0000_0000 + rest) by (nonlinear_arith)
            requires
                scale == 1,
                high == 0,
                rest == limb,
        ;
    }
    while taken < 64
        invariant
            taken <= 64,
            m == limbs_value(modulus@),
            scale == pow2(taken as nat),
            limb * scale == high * 0x1_0000_0000_0000_0000 + rest,
            limbs_value(r@) < m,
            limbs_value(r@) == (start * scale + high) % m,
        decreases 64 - taken,
    {
        let bit: u64 = rest >> 63;
        let next_rest: u64 = rest << 1;
        let ghost before = limbs_value(r@);
        proof {
            assert(rest >> 63 <= 1) by (bit_vector);
            assert(2 * rest == (rest >> 63) * 0x1_0000_0000_0000_0000 + (rest << 1))
                by (bit_vector);
        }
        let carry = shift_in_bit(r, bit);
        reduce_once(r, carry, modulus);
        proof {
            lemma_fold_bit(start * scale + high, before, bit as nat, m);
            lemma_pow2_unfold((taken + 1) as nat);
            lemma_fold_scale(
                limb as int,
                start as int,
                scale as int,
                high as int,
                rest as int,
                bit as int,
                next_rest as int,
            );
            scale = 2 * scale;
            high = 2 * high + bit as nat;
        }
        rest = next_rest;
        taken += 1;
    }
    proof {
        lemma_fold_done(limb as int, high as int, rest as int);
    }
}

/// The general reduction: the remainder of `value`, of any width, on
/// division by `modulus`, by long division from the most significant limb.
pub fn divide_remainder<const N: usize>(value: &[u64], modulus: &[u64; N]) -> (remainder: [u64; N])
    requires
        limbs_value(modulus@) > 0,
    ensures
        limbs_value(remainder@) == limbs_value(value@) % limbs_value(modulus@),
        limbs_value(remainder@) < limbs_value(modulus@),
{
    let ghost m = limbs_value(modulus@);
    let mut remainder: [u64; N] = [0u64; N];
    let mut i: usize = value.len();
    proof {
        lemma_value_zeros(remainder@);
        lemma_small_mod(0, m);
        assert(value@.skip(i as int) =~= Seq::<u64>::empty());
    }
    while i > 0
        invariant
            i <= value.len(),
            m == limbs_value(modulus@),
            m > 0,
            limbs_value(remainder@) < m,
            limbs_value(remainder@) == limbs_value(value@.skip(i as int)) % m,
        decreases i,
    {
        i -= 1;
        let ghost above = limbs_value(value@.skip(i + 1));
        let ghost before = limbs_value(remainder@);
        fold_limb(&mut remainder, value[i], modulus);
        proof {
            lemma_value_skip_step(value@, i as int);
            let limb = value[i as int] as int;
            lemma_mul_mod_noop_left(above as int, radix() as int, m as int);
            lemma_add_mod_noop((before * radix()) as int, limb, m as int);
            lemma_add_mod_noop((above * radix()) as int, limb, m as int);
        }
    }
    proof {
        assert(value@.skip(0) =~= value@);
    }
    remainder
}

/// One column of a multiply-accumulate:
/// `x + y * limb + carry_in == low + carry_out * radix()`.
proof fn lemma_mac_column(
    total: int,
    before: int,
    done: int,
    x: int,
    y: int,
    limb: int,
    low: int,
    carry_in: int,
    carry_out: int,
    w: int,
    shift: int,
    place: int,
)
    requires
        x + y * limb + carry_in == low + carry_out * 0x1_0000_0000_0000_0000,
        before + carry_in * w == total + done * limb * shift,
        w == shift * place,
    ensures
        (before - x * w + low * w) + carry_out * (0x1_0000_0000_0000_0000 * w) == total + (done + y
            * place) * limb * shift,
{
    let product = y * limb;
    let column = low + carry_out * 0x1_0000_0000_0000_0000 - x;
    assert(column * w == low * w + carry_out * (0x1_0000_0000_0000_0000 * w) - x * w)
        by (nonlinear_arith)
        requires
            column == low + carry_out * 0x1_0000_0000_0000_0000 - x,
    ;
    assert(column * w == product * w + carry_in * w) by (nonlinear_arith)
        requires
            column == product + carry_in,
    ;
    assert(product * w == y * place * limb * shift) by (nonlinear_arith)
        requires
            product == y * limb,
            w == shift * place,
    ;
    assert((done + y * place) * limb * shift == done * limb * shift + y * place * limb * shift)
        by (nonlinear_arith);
}

/// One column of a carry running up the accumulator:
/// `x + carry_in == low + carry_out * radix()`.
proof fn lemma_carry_column(
    goal: int,
    before: int,
    x: int,
    low: int,
    carry_in: int,
    carry_out: int,
    w: int,
)
    by (nonlinear_arith)
    requires
        x + carry_in == low + carry_out * 0x1_0000_0000_0000_0000,
        before + carry_in * w == goal,
    ensures
        (before - x * w + low * w) + carry_out * (0x1_0000_0000_0000_0000 * w) == goal,
{
}

/// The product of two limbs and two more limbs added fits in two limbs.
proof fn lemma_mac_fits(x: int, y: int, limb: int, carry: int)
    by (nonlinear_arith)
    requires
        0 <= x <= 0xffff_ffff_ffff_ffff,
        0 <= y <= 0xffff_ffff_ffff_ffff,
        0 <= limb <= 0xffff_ffff_ffff_ffff,
        0 <= carry <= 0xffff_ffff_ffff_ffff,
    ensures
        0 <= y * limb <= 0xffff_ffff_ffff_fffe_0000_0000_0000_0001,
        x + y * limb + carry <= 0xffff_ffff_ffff_ffff_ffff_ffff_ffff_ffff,
{
}

/// Multiplies `multiplicand` by the single limb `multiplier_limb` and adds
/// the product into `acc` from limb `acc_offset` on, carrying through the
/// rest of the accumulator.
///
/// Each pair of limbs gives a double-width partial product. The sum must fit
/// in the accumulator.
pub fn multiply_accumulate<const N: usize>(
    acc: &mut Vec<u64>,
    multiplicand: &[u64; N],
    multiplier_limb: u64,
    acc_offset: usize,
)
    requires
        acc_offset + N <= old(acc).len(),
        limbs_value(old(acc)@) + limbs_value(multiplicand@) * multiplier_limb as nat * radix_pow(
            acc_offset as nat,
        ) < radix_pow(old(acc)@.len()),
    ensures
        final(acc)@.len() == old(acc)@.len(),
        limbs_value(final(acc)@) == limbs_value(old(acc)@) + limbs_value(multiplicand@)
            * multiplier_limb as nat * radix_pow(acc_offset as nat),
{
    let ghost total = limbs_value(acc@);
    let ghost shift = radix_pow(acc_offset as nat);
    let ghost goal = total + limbs_value(multiplicand@) * multiplier_limb as nat * shift;
    let len = acc.len();
    let mut carry: u64 = 0;
    let mut j: usize = 0;
    proof {
        assert(multiplicand@.take(0) =~= Seq::<u64>::empty());
        let none = limbs_value(multiplicand@.take(0)) as int;
        let c = carry as int;
        let l = multiplier_limb as int;
        let w = radix_pow(acc_offset as nat) as int;
        assert(c * w == 0 && none * l * w == 0) by (nonlinear_arith)
            requires
                c == 0,
                none == 0,
        ;
    }
    while j < N
        invariant
            j <= N,
            acc_offset + N <= len,
            acc@.len() == len,
            shift == radix_pow(acc_offset as nat),
            limbs_value(acc@) + carry * radix_pow((acc_offset + j) as nat) == total + limbs_value(
                multiplicand@.take(j as int),
            ) * multiplier_limb as nat * shift,
        decreases N - j,
    {
        let k = acc_offset + j;
        let ghost before = acc@;
        let ghost carry_in = carry;
        proof {
            lemma_mac_fits(
                acc[k as int] as int,
                multiplicand[j as int] as int,
                multiplier_limb as int,
                carry as int,
            );
        }
        let wide: u128 = acc[k] as u128 + (multiplicand[j] as u128) * (multiplier_limb as u128)
            + carry as u128;
        let low: u64 = (wide % 0x1_0000_0000_0000_0000) as u64;
        carry = (wide / 0x1_0000_0000_0000_0000) as u64;
        acc[k] = low;
        proof {
            lemma_value_update(before, k as int, low);
            lemma_value_take_step(multiplicand@, j as int);
            lemma_radix_pow_add(acc_offset as nat, j as nat);
            lemma_mac_column(
                total as int,
                limbs_value(before) as int,
                limbs_value(multiplicand@.take(j as int)) as int,
                before[k as int] as int,
                multiplicand[j as int] as int,
                multiplier_limb as int,
                low as int,
                carry_in as int,
                carry as int,
                radix_pow(k as nat) as int,
                shift as int,
                radix_pow(j as nat) as int,
            );
        }
        j += 1;
    }
    proof {
        assert(multiplicand@.take(N as int) =~= multiplicand@);
    }
    let mut k: usize = acc_offset + N;
    while carry > 0
        invariant
            acc_offset + N <= k <= len,
            acc@.len() == len,
            goal < radix_pow(len as nat),
            limbs_value(acc@) + carry * radix_pow(k as nat) == goal,
        decreases len - k,
    {
        proof {
            if k == len {
                let c = carry as int;
                let w = radix_pow(len as nat) as int;
                assert(c * w >= w) by (nonlinear_arith)
                    requires
                        c >= 1,
                        w >= 0,
                ;
            }
        }
        let ghost before = acc@;
        let ghost carry_in = carry;
        let wide: u128 = acc[k] as u128 + carry as u128;
        let low: u64 = (wide % 0x1_0000_0000_0000_0000) as u64;
        carry = (wide / 0x1_0000_0000_0000_0000) as u64;
        acc[k] = low;
        proof {
            lemma_value_update(before, k as int, low);
            lemma_carry_column(
                goal as int,
                limbs_value(before) as int,
                before[k as int] as int,
                low as int,
                carry_in as int,
                carry as int,
                radix_pow(k as nat) as int,
            );
        }
        k += 1;
    }
    proof {
        let c = carry as int;
        let w = radix_pow(k as nat) as int;
        assert(c * w == 0) by (nonlinear_arith)
            requires
                c == 0,
        ;
    }
}

} // verus!
