//! The weight of a whole range.

use vstd::arithmetic::power2;
use vstd::arithmetic::power2::pow2;
use vstd::prelude::*;

use crate::arith;
use crate::ieee;
use crate::ieee::Single;
use crate::rounding;
use crate::tree::RangeWeights;

verus! {

/// `a + b`.
pub open spec fn single_sum_of(a: Single, b: Single) -> Single {
    arith::single(a.value() + b.value(), 1)
}

impl Single {
    /// `self + other`.
    pub(crate) fn add(&self, other: &Single) -> (r: Single)
        requires
            self.bits < 0x7F80_0000,
            other.bits < 0x7F80_0000,
        ensures
            r == single_sum_of(*self, *other),
            r.bits <= 0x7F80_0000,
    {
        if self.bits == 0 {
            proof {
                arith::lemma_single_identity(*other);
            }
            return *other;
        }
        if other.bits == 0 {
            proof {
                arith::lemma_single_identity(*self);
            }
            return *self;
        }
        let (ma, ea): (u64, i32) = self.unpack();
        let (mb, eb): (u64, i32) = other.unpack();
        if ea >= eb {
            add_ordered(self, ma, ea, other, mb, eb)
        } else {
            add_ordered(other, mb, eb, self, ma, ea)
        }
    }
}

/// The sum of two numbers of which the first has the larger exponent.
fn add_ordered(a: &Single, ma: u64, ea: i32, b: &Single, mb: u64, eb: i32) -> (r: Single)
    requires
        0 < a.bits < 0x7F80_0000,
        0 < b.bits < 0x7F80_0000,
        0 <= eb <= ea <= 2100,
        0x80_0000 <= ma < 0x100_0000,
        0x80_0000 <= mb < 0x100_0000,
        a.value() * pow2(23) == ma * pow2(ea as nat),
        b.value() * pow2(23) == mb * pow2(eb as nat),
        a.value() > 0,
        b.value() > 0,
    ensures
        r == single_sum_of(*a, *b),
        r.bits <= 0x7F80_0000,
{
    let diff: i32 = ea - eb;
    if diff > 32 {
        proof {
            lemma_far_apart(*a, ma as int, ea as int, *b, mb as int, eb as int);
        }
        return *a;
    }
    let p: u64 = arith::power(diff as u32);
    proof {
        let m = ma as int;
        let q = p as int;
        rounding::lemma_small_power(diff as nat, 32);
        power2::lemma2_to64();
        assert(m <= m * q <= 0x100_0000 * 0x1_0000_0000) by (nonlinear_arith)
            requires
                0 <= m < 0x100_0000,
                0 < q <= 0x1_0000_0000,
        ;
    }
    let n: u128 = ma as u128 * p as u128 + mb as u128;
    let y: i32 = eb - 23;
    proof {
        power2::lemma_pow2_adds(diff as nat, eb as nat);
        let k = n as int;
        let u = pow2(23) as int;
        let va = a.value();
        let vb = b.value();
        let x = ma as int;
        let z = mb as int;
        let h = pow2(diff as nat) as int;
        let q = pow2(eb as nat) as int;
        assert((va + vb) * u == (x * h + z) * q) by (nonlinear_arith)
            requires
                va * u == x * (h * q),
                vb * u == z * q,
        ;
        assert(k * 1 == k);
        assert(1 * u == u);
        arith::lemma_scaled_quotient(va + vb, 1, k, 1, 23, eb as nat, 23, 0, y as int, 0x100_0000);
    }
    Single { bits: rounding::pack(n, 1, y, 0x100_0000, 0x7F80_0000) as u32 }
}

/// A number that is far smaller is lost in a sum.
proof fn lemma_far_apart(a: Single, ma: int, ea: int, b: Single, mb: int, eb: int)
    requires
        0 < a.bits < 0x7F80_0000,
        0 <= eb,
        eb + 32 < ea,
        0x80_0000 <= ma < 0x100_0000,
        mb < 0x100_0000,
        a.value() * pow2(23) == ma * pow2(ea as nat),
        b.value() * pow2(23) == mb * pow2(eb as nat),
        b.value() >= 0,
    ensures
        single_sum_of(a, b) == a,
{
    let s = (ea - 23) as nat;
    let u = pow2(23) as int;
    let p = pow2(s) as int;
    let q = pow2(eb as nat) as int;
    let va = a.value();
    let vb = b.value();
    power2::lemma2_to64();
    power2::lemma_pow2_adds(s, 23);
    assert(va == ma * p) by (nonlinear_arith)
        requires
            va * u == ma * (p * u),
            u > 0,
    ;
    power2::lemma_pow2_adds(eb as nat, 2);
    rounding::lemma_small_power((eb + 2) as nat, s);
    power2::lemma_pow2_pos(eb as nat);
    assert(2 * vb < p) by (nonlinear_arith)
        requires
            vb * u == mb * q,
            mb < 0x100_0000,
            u == 0x80_0000,
            q * 4 <= p,
            q > 0,
            vb >= 0,
    ;
    power2::lemma_pow2_pos(s);
    arith::lemma_single_identity(a);
    rounding::lemma_nearly_exact(ma, s, 0, 0x100_0000);
    rounding::lemma_nearly_exact(ma, s, vb, 0x100_0000);
}

/// Weights are not below zero and not above one.
pub open spec fn fair(weights: Seq<Single>) -> bool {
    forall|i: int| 0 <= i < weights.len() ==> fair_weight(#[trigger] weights[i])
}

/// A weight is not below zero and not above one.
pub open spec fn fair_weight(w: Single) -> bool {
    w.finite() && 0 <= w.value() <= pow2(149)
}

/// The sum of the first `k` weights in binary32, added up one by one.
pub open spec fn total(weights: Seq<Single>, k: int) -> Single
    decreases k,
{
    if k <= 0 {
        Single { bits: 0 }
    } else {
        single_sum_of(total(weights, k - 1), weights[k - 1])
    }
}

/// A sum of fair weights is at most their number.
proof fn lemma_total(weights: Seq<Single>, k: int)
    requires
        fair(weights),
        0 <= k <= weights.len() < 0x100_0000,
    ensures
        total(weights, k).bits < 0x7F80_0000,
        0 <= total(weights, k).value() <= k * pow2(149),
    decreases k,
{
    let t = pow2(149) as int;
    power2::lemma_pow2_pos(149);
    if k == 0 {
        assert(0 * t == 0);
    } else {
        lemma_total(weights, k - 1);
        assert(fair_weight(weights[k - 1]));
        let n = total(weights, k - 1).value() + weights[k - 1].value();
        let r = total(weights, k);
        assert((k - 1) * t + t == k * t) by (nonlinear_arith);
        arith::lemma_whole_is_exact_in_single(k);
        rounding::law_rounding_is_monotone(n, k * t, 1, 0x100_0000, 0x7F80_0000);
        rounding::lemma_packed_range(n, 1, 0x100_0000, 0x7F80_0000);
        rounding::lemma_packed_range(k * t, 1, 0x100_0000, 0x7F80_0000);
        ieee::lemma_single_order(r, arith::whole_single(k));
        ieee::lemma_single_order(arith::whole_single(k), r);
    }
}

/// How many of the first `k` weights are above zero.
pub open spec fn count(weights: Seq<Single>, k: int) -> int
    decreases k,
{
    if k <= 0 {
        0
    } else {
        count(weights, k - 1) + if weights[k - 1].value() > 0 {
            1int
        } else {
            0
        }
    }
}

/// Where every combo is wholly in a range or not at all, the range weighs as much as it has
/// combos.
pub proof fn law_whole_combos_are_counted(weights: Seq<Single>)
    requires
        weights.len() == 1326,
        forall|i: int| 0 <= i < 1326 ==> (#[trigger] weights[i]).finite() && (weights[i].value() == 0
            || weights[i].value() == pow2(149)),
    ensures
        total(weights, 1326).value() == count(weights, 1326) * pow2(149),
        count(weights, 1326) > 0 ==> total(weights, 1326) == arith::whole_single(count(weights, 1326)),
{
    lemma_count(weights, 1326);
}

proof fn lemma_count(weights: Seq<Single>, k: int)
    requires
        weights.len() == 1326,
        forall|i: int| 0 <= i < 1326 ==> (#[trigger] weights[i]).finite() && (weights[i].value() == 0
            || weights[i].value() == pow2(149)),
        0 <= k <= 1326,
    ensures
        0 <= count(weights, k) <= k,
        total(weights, k).bits < 0x7F80_0000,
        total(weights, k).value() == count(weights, k) * pow2(149),
        count(weights, k) > 0 ==> total(weights, k) == arith::whole_single(count(weights, k)),
    decreases k,
{
    let t = pow2(149) as int;
    power2::lemma_pow2_pos(149);
    if k == 0 {
        assert(0 * t == 0);
    } else {
        lemma_count(weights, k - 1);
        assert(weights[k - 1].finite());
        let before = total(weights, k - 1);
        let c = count(weights, k - 1);
        if weights[k - 1].value() == 0 {
            arith::lemma_single_identity(before);
        } else {
            assert(c * t + t == (c + 1) * t) by (nonlinear_arith);
            arith::lemma_whole_is_exact_in_single(c + 1);
        }
    }
}

/// The weight of a range: how many combos it has, each counted by its weight.
pub fn total_weight(range: &RangeWeights) -> (r: Single)
    requires
        range.complete(),
        fair(range.weights@),
    ensures
        r == total(range.weights@, 1326),
{
    let mut sum: Single = Single { bits: 0 };
    for i in 0..1326usize
        invariant
            range.complete(),
            fair(range.weights@),
            sum == total(range.weights@, i as int),
    {
        let w: Single = range.weights[i];
        proof {
            lemma_total(range.weights@, i as int);
            assert(fair_weight(w));
            ieee::lemma_single_zero(w);
        }
        if w.bits == 0x8000_0000 {
            proof {
                arith::lemma_single_identity(sum);
            }
        } else {
            sum = sum.add(&w);
        }
    }
    sum
}

} // verus!
