//! The order of field elements: that of the integers they stand for.

use crate::fields::arithmetic::most_significant_difference;
use crate::fields::limbs::limbs_value;
use crate::fields::prime::{Fp, FpConfig};
use core::cmp::Ordering;
use vstd::prelude::*;
use vstd::std_specs::cmp::PartialOrdSpecImpl;

verus! {

/// How the integer `x` stands to the integer `y`.
pub open spec fn order_of(x: nat, y: nat) -> Ordering {
    if x < y {
        Ordering::Less
    } else if x == y {
        Ordering::Equal
    } else {
        Ordering::Greater
    }
}

/// Compares the integers in `a` and `b`, from the most significant limb
/// down, stopping at the first limb in which they differ.
pub fn compare<const N: usize>(a: &[u64; N], b: &[u64; N]) -> (order: Ordering)
    ensures
        order == order_of(limbs_value(a@), limbs_value(b@)),
{
    match most_significant_difference(a, b) {
        Some(i) => if a[i] < b[i] {
            Ordering::Less
        } else {
            Ordering::Greater
        },
        None => Ordering::Equal,
    }
}

impl<P: FpConfig<N>, const N: usize> Fp<P, N> {
    /// The order of `self` and `other` as integers.
    pub fn cmp(&self, other: &Self) -> (order: Ordering)
        ensures
            order == order_of(self@, other@),
    {
        compare(&self.repr, &other.repr)
    }
}

impl<P: FpConfig<N>, const N: usize> PartialOrdSpecImpl for Fp<P, N> {
    open spec fn obeys_partial_cmp_spec() -> bool {
        true
    }

    /// Elements are ordered as the integers they stand for.
    open spec fn partial_cmp_spec(&self, other: &Self) -> Option<Ordering> {
        Some(order_of(self@, other@))
    }
}

impl<P: FpConfig<N>, const N: usize> PartialOrd for Fp<P, N> {
    fn partial_cmp(&self, other: &Self) -> (order: Option<Ordering>) {
        Some(compare(&self.repr, &other.repr))
    }
}

} // verus!
