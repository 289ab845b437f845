//! Sums of many numbers.

use vstd::arithmetic::power2;
use vstd::arithmetic::power2::pow2;
use vstd::prelude::*;

use crate::arith;
use crate::ieee;
use crate::ieee::{Double, Single};
use crate::rounding;
use crate::signed;

verus! {

/// A number is not negative and below the power of two with exponent `e`.
pub open spec fn below_power(w: Double, e: int) -> bool {
    w.bits < e * 0x10_0000_0000_0000
}

/// What sums of numbers below that power stay below.
pub open spec fn has_room(a: Double, e: int) -> bool {
    a.bits <= (e + 55) * 0x10_0000_0000_0000
}

/// Powers of two as bit patterns.
pub proof fn lemma_power_bits(e: int)
    requires
        1 <= e < 2047,
    ensures
        (Double { bits: (e * 0x10_0000_0000_0000) as u64 }).value() == pow2((e + 51) as nat),
{
    power2::lemma2_to64_rest();
    power2::lemma_pow2_adds(52, (e - 1) as nat);
}

/// The sum of a bounded number and a small one is bounded, and no less than either.
pub proof fn lemma_sum(a: Double, w: Double, e: int)
    requires
        1 <= e < 1990,
        has_room(a, e),
        below_power(w, e),
    ensures
        has_room(arith::sum_of(a, w), e),
        arith::sum_of(a, w).value() >= a.value(),
        arith::sum_of(a, w).value() >= w.value(),
{
    let limit: int = 0x20_0000_0000_0000;
    let infinity: int = 0x7FF0_0000_0000_0000;
    let top = Double { bits: ((e + 55) * 0x10_0000_0000_0000) as u64 };
    let big = Double { bits: (e * 0x10_0000_0000_0000) as u64 };
    let r = arith::sum_of(a, w);
    ieee::lemma_bits_order(a, w);
    ieee::lemma_bits_order(w, a);
    arith::lemma_identity(a);
    arith::lemma_identity(w);
    arith::lemma_identity(top);
    rounding::lemma_packed_range(a.value() + w.value(), 1, limit, infinity);
    rounding::lemma_packed_range(a.value(), 1, limit, infinity);
    rounding::lemma_packed_range(w.value(), 1, limit, infinity);
    rounding::law_rounding_is_monotone(a.value(), a.value() + w.value(), 1, limit, infinity);
    rounding::law_rounding_is_monotone(w.value(), a.value() + w.value(), 1, limit, infinity);
    ieee::lemma_bits_order(r, a);
    ieee::lemma_bits_order(r, w);
    lemma_power_bits(e + 55);
    lemma_power_bits(e);
    ieee::lemma_bits_order(w, big);
    if a.value() + w.value() <= top.value() {
        rounding::law_rounding_is_monotone(
            a.value() + w.value(),
            top.value(),
            1,
            limit,
            infinity,
        );
    } else {
        lemma_lost(a, w, e);
    }
}

/// A small number that is added to a very large one is lost.
proof fn lemma_lost(a: Double, w: Double, e: int)
    requires
        1 <= e < 1990,
        has_room(a, e),
        below_power(w, e),
        a.value() + w.value() > pow2((e + 55 + 51) as nat),
    ensures
        arith::sum_of(a, w) == a,
{
    let limit: int = 0x20_0000_0000_0000;
    let big = Double { bits: (e * 0x10_0000_0000_0000) as u64 };
    let half = Double { bits: ((e + 54) * 0x10_0000_0000_0000) as u64 };
    lemma_power_bits(e + 55);
    lemma_power_bits(e + 54);
    lemma_power_bits(e);
    ieee::lemma_bits_order(w, big);
    ieee::lemma_bits_order(a, half);
    power2::lemma_pow2_unfold((e + 55 + 51) as nat);
    rounding::lemma_small_power((e + 51) as nat, (e + 54 + 51) as nat);
    assert(a.bits >= half.bits);
    let s = (a.exponent() - 1) as nat;
    power2::lemma_pow2_unfold((e + 52) as nat);
    rounding::lemma_small_power((e + 52) as nat, s);
    arith::lemma_identity(a);
    rounding::lemma_nearly_exact(0x10_0000_0000_0000 + a.fraction(), s, 0, limit);
    rounding::lemma_nearly_exact(0x10_0000_0000_0000 + a.fraction(), s, w.value(), limit);
}

/// The sum of the first `k` of some binary32 numbers in binary64, added up one by one.
pub open spec fn partial(values: Seq<Single>, k: int) -> Double
    decreases k,
{
    if k <= 0 {
        Double { bits: 0 }
    } else {
        signed::sum(partial(values, k - 1), signed::widened(values[k - 1]))
    }
}

/// The sum of binary32 numbers in binary64.
pub open spec fn sum(values: Seq<Single>) -> Double {
    partial(values, values.len() as int)
}

/// The sum of binary32 numbers in binary64.
pub(crate) fn sum_of(values: &Vec<Single>) -> (r: Double)
    ensures
        r == sum(values@),
{
    let mut total: Double = Double { bits: 0 };
    for i in 0..values.len()
        invariant
            total == partial(values@, i as int),
    {
        total = signed::add(total, signed::widen(values[i]));
    }
    total
}

} // verus!
