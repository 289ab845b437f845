//! Strategies as bytes.
//!
//! For every hand the weights of its actions are shared out over 255 units by the largest
//! remainders. The units of the last action are not stored: they are what the others leave.

use vstd::arithmetic::power2;
use vstd::arithmetic::power2::pow2;
use vstd::prelude::*;

use crate::apportion;
use crate::apportion::Share;
use crate::arith;
use crate::ieee;
use crate::ieee::{Double, Single};
use crate::rounding;
use crate::sums;

verus! {

/// The bit pattern of one.
pub const ONE: u64 = 0x3FF0_0000_0000_0000;

/// The bit pattern of 255, the number of units of a hand.
pub const UNITS: u64 = 0x406F_E000_0000_0000;

/// The weight that a frequency has: nothing where it is not finite or not above zero.
pub open spec fn weight(v: Single) -> Double {
    if v.finite() && v.value() > 0 {
        arith::widened(v)
    } else {
        Double { bits: 0 }
    }
}

/// The sum of the first `k` weights, added up one by one.
pub open spec fn total(w: Seq<Double>, k: int) -> Double
    decreases k,
{
    if k <= 0 {
        Double { bits: 0 }
    } else {
        arith::sum_of(total(w, k - 1), w[k - 1])
    }
}

/// The weights of the actions of one hand, and their sum; all alike where no weight is above zero.
pub open spec fn weights_and_sum(w: Seq<Double>) -> (Seq<Double>, Double) {
    let sum = total(w, w.len() as int);
    if sum.value() > 0 {
        (w, sum)
    } else {
        (
            Seq::new(w.len(), |i: int| Double { bits: ONE }),
            arith::whole_double(w.len() as int),
        )
    }
}

/// The exact part of the units that a weight has in a sum, as binary64 arithmetic gives it.
pub open spec fn exact_part(w: Double, sum: Double) -> Double {
    arith::product_of(arith::quotient_of(w, sum), Double { bits: UNITS })
}

/// A part as whole units and the rest of a unit.
pub open spec fn share_of(x: Double) -> Share {
    Share {
        floor: (x.value() / pow2(1074) as int) as u16,
        rest: arith::double(x.value() % pow2(1074) as int, 1),
    }
}

/// The shares that weights have in a sum.
pub open spec fn shares_in(w: Seq<Double>, sum: Double) -> Seq<Share> {
    Seq::new(w.len(), |i: int| share_of(exact_part(w[i], sum)))
}

/// The shares of the actions of one hand, given their weights.
pub open spec fn shares_of(w: Seq<Double>) -> Seq<Share> {
    shares_in(weights_and_sum(w).0, weights_and_sum(w).1)
}

/// A weight is not negative and below two to the 128.
pub open spec fn ordinary(w: Double) -> bool {
    w.bits < 0x47F0_0000_0000_0000
}

/// What sums of weights stay below.
pub open spec fn bounded(w: Double) -> bool {
    w.bits <= 0x4B60_0000_0000_0000
}

/// The sum of a bounded number and a weight is bounded, and no less than either.
proof fn lemma_sum(a: Double, w: Double)
    requires
        bounded(a),
        ordinary(w),
    ensures
        bounded(arith::sum_of(a, w)),
        arith::sum_of(a, w).value() >= a.value(),
        arith::sum_of(a, w).value() >= w.value(),
{
    sums::lemma_sum(a, w, 0x47F);
}

/// Partial sums are bounded and grow.
proof fn lemma_total(w: Seq<Double>, k: int)
    requires
        0 <= k <= w.len(),
        forall|i: int| 0 <= i < w.len() ==> ordinary(#[trigger] w[i]),
    ensures
        bounded(total(w, k)),
        forall|i: int| 0 <= i < k ==> (#[trigger] w[i]).value() <= total(w, k).value(),
    decreases k,
{
    if k > 0 {
        lemma_total(w, k - 1);
        assert(ordinary(w[k - 1]));
        lemma_sum(total(w, k - 1), w[k - 1]);
    }
}

/// 255, in units of the smallest number.
proof fn lemma_units()
    ensures
        (Double { bits: UNITS }).value() == 255 * pow2(1074),
{
    power2::lemma2_to64_rest();
    power2::lemma_pow2_adds(45, 1029);
    let p = pow2(1029) as int;
    assert(0x1F_E000_0000_0000 * p == 255 * (pow2(45) * p)) by (nonlinear_arith)
        requires
            pow2(45) == 0x2000_0000_0000,
    ;
}

/// A weight's part is no more than all units, and a share of it is a proper one.
proof fn lemma_part(w: Double, sum: Double)
    requires
        w.bits <= sum.bits,
        0 < sum.bits,
        bounded(sum),
    ensures
        arith::quotient_of(w, sum).bits <= ONE,
        exact_part(w, sum).bits <= UNITS,
        share_of(exact_part(w, sum)).valid(),
        0 <= exact_part(w, sum).value() / pow2(1074) as int <= 255,
{
    let limit: int = 0x20_0000_0000_0000;
    let infinity: int = 0x7FF0_0000_0000_0000;
    let zero = Double { bits: 0 };
    let one = Double { bits: ONE };
    let all = Double { bits: UNITS };
    let u = pow2(1074) as int;
    power2::lemma_pow2_pos(1074);
    arith::lemma_one();
    lemma_units();
    arith::lemma_identity(one);
    arith::lemma_identity(all);
    ieee::lemma_bits_order(sum, w);
    ieee::lemma_bits_order(w, sum);
    ieee::lemma_bits_order(zero, sum);
    let a = w.value();
    let b = sum.value();
    assert(zero.value() == 0);
    assert(a * u >= 0 && (a * u) * 1 <= u * b) by (nonlinear_arith)
        requires
            0 <= a <= b,
            u > 0,
    ;
    rounding::lemma_quotient_monotone(a * u, b, u, 1, limit, infinity);
    rounding::lemma_packed_range(a * u, b, limit, infinity);
    let q = arith::quotient_of(w, sum);
    ieee::lemma_bits_order(one, q);
    ieee::lemma_bits_order(q, one);
    let v = q.value();
    let c = all.value();
    assert(v * c >= 0 && (v * c) * 1 <= c * u) by (nonlinear_arith)
        requires
            0 <= v <= u,
            c >= 0,
    ;
    rounding::lemma_quotient_monotone(v * c, u, c, 1, limit, infinity);
    rounding::lemma_packed_range(v * c, u, limit, infinity);
    let x = exact_part(w, sum);
    ieee::lemma_bits_order(all, x);
    ieee::lemma_bits_order(x, all);
    let k = x.value();
    assert(0 <= k / u <= 255) by (nonlinear_arith)
        requires
            0 <= k <= 255 * u,
            u > 0,
    ;
    arith::lemma_fract_is_finite(k);
    let rest = share_of(x).rest;
    ieee::lemma_bits_order(rest, one);
}

/// The share of a weight in a sum.
fn share(w: Double, sum: Double) -> (r: Share)
    requires
        w.bits <= sum.bits,
        0 < sum.bits,
        bounded(sum),
    ensures
        r == share_of(exact_part(w, sum)),
        r.valid(),
{
    proof {
        lemma_part(w, sum);
        power2::lemma_pow2_pos(1074);
        lemma_units();
    }
    let ghost u = pow2(1074) as int;
    let zero: Double = Double { bits: 0 };
    let quotient: Double = if w.bits == 0 {
        proof {
            assert(w.value() == 0);
            let a = w.value();
            assert(a * u == 0) by (nonlinear_arith)
                requires
                    a == 0,
            ;
            ieee::lemma_bits_order(zero, sum);
            arith::lemma_zero(sum.value(), 0x20_0000_0000_0000);
        }
        zero
    } else {
        w.div(&sum)
    };
    let exact: Double = if quotient.bits == 0 {
        proof {
            let a = quotient.value();
            let c = (Double { bits: UNITS }).value();
            assert(a == 0);
            assert(a * c == 0) by (nonlinear_arith)
                requires
                    a == 0,
            ;
            arith::lemma_zero(u, 0x20_0000_0000_0000);
        }
        zero
    } else {
        quotient.mul(&Double { bits: UNITS })
    };
    Share { floor: exact.floor(), rest: exact.fract() }
}

/// The sum of numbers that are all one.
pub proof fn lemma_count_sum(n: int)
    requires
        0 < n < 0x1_0000_0000_0000_0000,
    ensures
        bounded(arith::whole_double(n)),
        arith::whole_double(n).bits >= ONE,
{
    let limit: int = 0x20_0000_0000_0000;
    let infinity: int = 0x7FF0_0000_0000_0000;
    let one = Double { bits: ONE };
    let top = Double { bits: 0x43F0_0000_0000_0000 };
    let u = pow2(1074) as int;
    power2::lemma_pow2_pos(1074);
    power2::lemma2_to64();
    power2::lemma_pow2_adds(64, 1074);
    sums::lemma_power_bits(0x43F);
    arith::lemma_one();
    arith::lemma_identity(one);
    arith::lemma_identity(top);
    assert(u <= n * u <= pow2(64) * u) by (nonlinear_arith)
        requires
            1 <= n <= pow2(64),
            u > 0,
    ;
    rounding::lemma_packed_range(u, 1, limit, infinity);
    rounding::lemma_packed_range(n * u, 1, limit, infinity);
    rounding::lemma_packed_range(pow2(64) * u, 1, limit, infinity);
    rounding::law_rounding_is_monotone(u, n * u, 1, limit, infinity);
    rounding::law_rounding_is_monotone(n * u, pow2(64) * u, 1, limit, infinity);
}

/// Weights of frequencies are ordinary.
pub proof fn lemma_weight(v: Single)
    ensures
        ordinary(weight(v)),
{
    if v.finite() && v.value() > 0 {
        let limit: int = 0x20_0000_0000_0000;
        let infinity: int = 0x7FF0_0000_0000_0000;
        let a = v.value();
        let t = pow2(925) as int;
        let under = Double { bits: 0x47EF_FFFF_E000_0000 };
        power2::lemma_pow2_pos(925);
        ieee::lemma_single_range(v);
        arith::lemma_identity(under);
        power2::lemma2_to64();
        power2::lemma_pow2_adds(29, 1149);
        power2::lemma_pow2_adds(253, 925);
        assert(under.value() == 0xFF_FFFF * pow2(253) * t) by {
            let p = pow2(1149) as int;
            let q = pow2(253) as int;
            assert(under.exponent() == 0x47E && under.fraction() == 0xF_FFFF_E000_0000);
            assert(0x1F_FFFF_E000_0000 * p == 0xFF_FFFF * (pow2(29) * p)) by (nonlinear_arith)
                requires
                    pow2(29) == 0x2000_0000,
            ;
            assert(0xFF_FFFF * (q * t) == 0xFF_FFFF * q * t) by (nonlinear_arith);
        }
        assert(0 <= a * t <= 0xFF_FFFF * pow2(253) * t) by (nonlinear_arith)
            requires
                0 <= a <= 0xFF_FFFF * pow2(253),
                t > 0,
        ;
        rounding::lemma_packed_range(a * t, 1, limit, infinity);
        rounding::law_rounding_is_monotone(a * t, under.value(), 1, limit, infinity);
    }
}

/// The weights of one hand's actions, out of frequencies that stand action by action.
pub open spec fn hand_weights(strategy: Seq<Single>, n_actions: int, n_hands: int, hand: int) -> Seq<Double> {
    Seq::new(n_actions as nat, |a: int| weight(strategy[a * n_hands + hand]))
}

/// The units of action `a` of a hand.
pub open spec fn units(strategy: Seq<Single>, n_actions: int, n_hands: int, hand: int, a: int) -> int {
    apportion::quota(shares_of(hand_weights(strategy, n_actions, n_hands, hand)), a)
}

/// The place of an action and a hand in an array that stands action by action is inside it.
proof fn lemma_place(a: int, n_actions: int, n_hands: int, hand: int)
    requires
        0 <= a < n_actions,
        0 <= hand < n_hands,
    ensures
        0 <= a * n_hands + hand < n_actions * n_hands,
        a * n_hands <= n_actions * n_hands,
{
    assert(0 <= a * n_hands && a * n_hands + n_hands <= n_actions * n_hands) by (nonlinear_arith)
        requires
            0 <= a < n_actions,
            0 < n_hands,
    ;
}

/// The shares of the actions of one hand.
fn hand_shares(strategy: &[Single], n_actions: usize, n_hands: usize, hand: usize) -> (r: Vec<Share>)
    requires
        0 < n_actions,
        hand < n_hands,
        n_actions * n_hands <= strategy.len(),
    ensures
        r@ == shares_of(
            hand_weights(strategy@, n_actions as int, n_hands as int, hand as int),
        ),
        forall|i: int| 0 <= i < r@.len() ==> (#[trigger] r@[i]).valid(),
{
    let ghost w = hand_weights(strategy@, n_actions as int, n_hands as int, hand as int);
    let mut weights: Vec<Double> = Vec::new();
    let mut sum: Double = Double { bits: 0 };
    proof {
        assert forall|i: int| 0 <= i < w.len() implies ordinary(#[trigger] w[i]) by {
            lemma_weight(strategy@[i * n_hands + hand]);
        }
    }
    for a in 0..n_actions
        invariant
            hand < n_hands,
            n_actions * n_hands <= strategy.len(),
            w == hand_weights(strategy@, n_actions as int, n_hands as int, hand as int),
            forall|i: int| 0 <= i < w.len() ==> ordinary(#[trigger] w[i]),
            weights@ == w.take(a as int),
            sum == total(w, a as int),
            bounded(sum),
    {
        proof {
            lemma_place(a as int, n_actions as int, n_hands as int, hand as int);
            lemma_total(w, a + 1);
            assert(ordinary(w[a as int]));
        }
        let v: Single = strategy[a * n_hands + hand];
        let weight: Double = if v.is_positive() {
            proof {
                ieee::lemma_positive_bits(v);
            }
            v.widen()
        } else {
            Double { bits: 0 }
        };
        sum = sum.add(&weight);
        weights.push(weight);
        assert(w.take(a + 1) =~= w.take(a as int).push(w[a as int]));
    }
    proof {
        assert(w.take(n_actions as int) =~= w);
        lemma_total(w, n_actions as int);
        ieee::lemma_bits_order(Double { bits: 0 }, sum);
    }
    let mut shares: Vec<Share> = Vec::new();
    if sum.bits == 0 {
        proof {
            lemma_count_sum(n_actions as int);
        }
        let count: Double = Double::from_whole(n_actions as u64);
        for a in 0..n_actions
            invariant
                shares@.len() == a,
                bounded(count),
                count.bits >= ONE,
                forall|i: int|
                    0 <= i < a ==> #[trigger] shares@[i] == share_of(
                        exact_part(Double { bits: ONE }, count),
                    ) && shares@[i].valid(),
        {
            shares.push(share(Double { bits: ONE }, count));
        }
        assert(shares@ =~= shares_of(w));
    } else {
        for a in 0..n_actions
            invariant
                shares@.len() == a,
                weights@.len() == n_actions,
                weights@ == w,
                bounded(sum),
                sum.bits > 0,
                forall|i: int| 0 <= i < w.len() ==> ordinary(#[trigger] w[i]),
                forall|i: int| 0 <= i < w.len() ==> (#[trigger] w[i]).value() <= sum.value(),
                forall|i: int|
                    0 <= i < a ==> #[trigger] shares@[i] == share_of(exact_part(w[i], sum))
                        && shares@[i].valid(),
        {
            proof {
                assert(ordinary(w[a as int]));
                ieee::lemma_bits_order(sum, w[a as int]);
            }
            shares.push(share(weights[a], sum));
        }
        assert(shares@ =~= shares_of(w));
    }
    shares
}

/// How large a weight is whose part holds whole units.
proof fn lemma_floor_weight(w: Double, sum: Double)
    requires
        w.bits <= sum.bits,
        0 < sum.bits,
        bounded(sum),
    ensures
        share_of(exact_part(w, sum)).floor * sum.value() * 0xF_FFFF_FFFF_FFFF <= 255 * w.value()
            * 0x10_0000_0000_0000,
{
    let l: int = 0x20_0000_0000_0000;
    let u = pow2(1074) as int;
    let a = w.value();
    let b = sum.value();
    let quotient = arith::quotient_of(w, sum);
    let q = quotient.value();
    let exact = exact_part(w, sum);
    let x = exact.value();
    let f = share_of(exact).floor as int;
    lemma_part(w, sum);
    lemma_units();
    power2::lemma_pow2_pos(1074);
    ieee::lemma_bits_order(w, sum);
    ieee::lemma_bits_order(Double { bits: 0 }, sum);
    assert(a >= 0 && b > 0);
    ieee::lemma_bits_order(quotient, quotient);
    ieee::lemma_bits_order(exact, exact);
    assert(f == x / u);
    if f >= 1 {
        let c = 255 * u;
        assert(a * u >= 0) by (nonlinear_arith)
            requires
                a >= 0,
                u > 0,
        ;
        assert(q * c >= 0) by (nonlinear_arith)
            requires
                q >= 0,
                c >= 0,
        ;
        arith::lemma_rounded_value(a * u, b);
        arith::lemma_rounded_value(q * c, u);
        assert((q * c) * 1 == (255 * q) * u) by (nonlinear_arith)
            requires
                c == 255 * u,
        ;
        rounding::lemma_equal_quotients(q * c, u, 255 * q, 1, l);
        rounding::lemma_rounding_error(255 * q, 1, l);
        assert(x * 1 == x);
        assert(l * x <= 255 * q * (l + 1));
        assert(x >= f * u) by (nonlinear_arith)
            requires
                f == x / u,
                u > 0,
        ;
        if a * u < l * b {
            rounding::lemma_significand_bound(a * u, b, l);
            power2::lemma2_to64();
            let m = rounding::significand(a * u, b, l);
            assert(m * 1 == m);
            assert(q <= l);
            lemma_huge();
            assert(f * u >= u) by (nonlinear_arith)
                requires
                    f >= 1,
                    u > 0,
            ;
            assert(false) by (nonlinear_arith)
                requires
                    l * x <= 255 * q * (l + 1),
                    q <= l,
                    x >= u,
                    u > 256 * (l + 1),
                    l == 0x20_0000_0000_0000,
            ;
        }
        rounding::lemma_rounding_error(a * u, b, l);
        assert(l * (q * b) <= a * u * (l + 1));
        lemma_combine(f, u, l, x, q, a, b);
    } else {
        assert(f * b == 0) by (nonlinear_arith)
            requires
                f == 0,
        ;
    }
}

/// Two to the 1074 is large.
proof fn lemma_huge()
    ensures
        pow2(1074) > 256 * 0x20_0000_0000_0001,
{
    power2::lemma2_to64();
    rounding::lemma_small_power(64, 1074);
}

/// The two roundings of a part, put together.
proof fn lemma_combine(f: int, u: int, l: int, x: int, q: int, a: int, b: int)
    requires
        f >= 1,
        u > 0,
        l == 0x20_0000_0000_0000,
        a >= 0,
        b > 0,
        q >= 0,
        x >= f * u,
        l * x <= 255 * q * (l + 1),
        l * (q * b) <= a * u * (l + 1),
    ensures
        f * b * 0xF_FFFF_FFFF_FFFF <= 255 * a * 0x10_0000_0000_0000,
{
    let k = l + 1;
    let fu = f * u;
    assert(l * fu <= 255 * q * k) by (nonlinear_arith)
        requires
            l * x <= 255 * q * k,
            x >= fu,
            l > 0,
    ;
    let lb = l * b;
    assert(lb > 0) by (nonlinear_arith)
        requires
            lb == l * b,
            l > 0,
            b > 0,
    ;
    assert((l * fu) * lb <= (255 * q * k) * lb) by (nonlinear_arith)
        requires
            l * fu <= 255 * q * k,
            lb > 0,
    ;
    assert((255 * q * k) * lb == (255 * k) * (l * (q * b))) by (nonlinear_arith)
        requires
            lb == l * b,
    ;
    assert((255 * k) * (l * (q * b)) <= (255 * k) * (a * u * k)) by (nonlinear_arith)
        requires
            l * (q * b) <= a * u * k,
            k > 0,
    ;
    let left = f * l * l * b;
    let right = 255 * k * k * a;
    assert((l * fu) * lb == left * u) by (nonlinear_arith)
        requires
            fu == f * u,
            lb == l * b,
            left == f * l * l * b,
    ;
    assert((255 * k) * (a * u * k) == right * u) by (nonlinear_arith)
        requires
            right == 255 * k * k * a,
    ;
    assert(left <= right) by (nonlinear_arith)
        requires
            left * u <= right * u,
            u > 0,
    ;
    let fb = f * b;
    assert(left == fb * 0x400_0000_0000_0000_0000_0000_0000) by (nonlinear_arith)
        requires
            left == f * l * l * b,
            fb == f * b,
            l == 0x20_0000_0000_0000,
    ;
    assert(right == (255 * a) * 0x400_0000_0000_0040_0000_0000_0001) by (nonlinear_arith)
        requires
            right == 255 * k * k * a,
            k == 0x20_0000_0000_0001,
    ;
    assert(fb >= 0) by (nonlinear_arith)
        requires
            fb == f * b,
            f >= 1,
            b > 0,
    ;
}

/// Partial sums do not go beyond the whole.
proof fn lemma_total_grows(w: Seq<Double>, j: int, k: int)
    requires
        0 <= j <= k <= w.len(),
        forall|i: int| 0 <= i < w.len() ==> ordinary(#[trigger] w[i]),
    ensures
        total(w, j).value() <= total(w, k).value(),
    decreases k,
{
    if j < k {
        lemma_total_grows(w, j, k - 1);
        lemma_total(w, k - 1);
        assert(ordinary(w[k - 1]));
        lemma_sum(total(w, k - 1), w[k - 1]);
    }
}

/// The whole units of the first `k` actions are covered by the sum of their weights.
proof fn lemma_whole_covered(w: Seq<Double>, k: int)
    requires
        0 <= k <= w.len(),
        forall|i: int| 0 <= i < w.len() ==> ordinary(#[trigger] w[i]),
        total(w, w.len() as int).value() > 0,
    ensures
        ({
            let sum = total(w, w.len() as int);
            apportion::whole(shares_in(w, sum), k) * sum.value() * 0xFFF_FFFF_FFFF
                <= 0xF_F000_0000_0000 * total(w, k).value()
        }),
        apportion::whole(shares_in(w, total(w, w.len() as int)), k) >= 0,
    decreases k,
{
    let n = w.len() as int;
    let sum = total(w, n);
    let shares = shares_in(w, sum);
    if k > 0 {
        lemma_whole_covered(w, k - 1);
        lemma_total(w, n);
        lemma_total(w, k - 1);
        lemma_total_grows(w, k, n);
        let x = w[k - 1];
        assert(ordinary(x));
        ieee::lemma_bits_order(sum, x);
        ieee::lemma_bits_order(Double { bits: 0 }, sum);
        lemma_floor_weight(x, sum);
        lemma_sum(total(w, k - 1), x);
        ieee::lemma_bits_order(total(w, k - 1), x);
        ieee::lemma_bits_order(x, x);
        let p = total(w, k - 1).value();
        let a = x.value();
        let l: int = 0x20_0000_0000_0000;
        arith::lemma_rounded_value(p + a, 1);
        rounding::lemma_rounding_error(p + a, 1, l);
        let r = total(w, k).value();
        assert(r * 1 == r);
        lemma_step(
            apportion::whole(shares, k - 1),
            shares[k - 1].floor as int,
            sum.value(),
            p,
            a,
            r,
        );
    } else {
        assert(0 * sum.value() == 0) by (nonlinear_arith);
    }
}

/// One step of the covering: `before` whole units in the partial sum `p`, `f` more in `a`.
proof fn lemma_step(before: int, f: int, b: int, p: int, a: int, r: int)
    requires
        before >= 0,
        f >= 0,
        b > 0,
        p >= 0,
        a >= 0,
        p <= r <= b,
        before * b * 0xFFF_FFFF_FFFF <= 0xF_F000_0000_0000 * p,
        f * b * 0xF_FFFF_FFFF_FFFF <= 255 * a * 0x10_0000_0000_0000,
        0x20_0000_0000_0000 * r >= (p + a) * 0x1F_FFFF_FFFF_FFFF,
    ensures
        (before + f) * b * 0xFFF_FFFF_FFFF <= 0xF_F000_0000_0000 * r,
{
    let y = before * b;
    let z = f * b;
    assert((before + f) * b == y + z) by (nonlinear_arith)
        requires
            y == before * b,
            z == f * b,
    ;
    if f == 0 {
        assert(z == 0) by (nonlinear_arith)
            requires
                z == f * b,
                f == 0,
        ;
        assert(0xF_F000_0000_0000 * p <= 0xF_F000_0000_0000 * r);
    } else {
        assert(z >= b) by (nonlinear_arith)
            requires
                z == f * b,
                f >= 1,
                b > 0,
        ;
        lemma_step_linear(y, z, b, p, a, r);
    }
}

proof fn lemma_step_linear(y: int, z: int, b: int, p: int, a: int, r: int)
    requires
        z >= b > 0,
        p >= 0,
        a >= 0,
        r <= b,
        y * 0xFFF_FFFF_FFFF <= 0xF_F000_0000_0000 * p,
        z * 0xF_FFFF_FFFF_FFFF <= 255 * a * 0x10_0000_0000_0000,
        0x20_0000_0000_0000 * r >= (p + a) * 0x1F_FFFF_FFFF_FFFF,
    ensures
        (y + z) * 0xFFF_FFFF_FFFF <= 0xF_F000_0000_0000 * r,
{
    assert(p + a <= 2 * r);
    assert(0x20_0000_0000_0000 * r >= 0x20_0000_0000_0000 * (p + a) - 2 * b);
    assert(256 * (0xF_F000_0000_0000 * r) >= 256 * (0xF_F000_0000_0000 * (p + a)) - 255 * b);
    assert(256 * (z * 0xFFF_FFFF_FFFF) <= z * 0xF_FFFF_FFFF_FFFF - 255 * b);
    let k = 0xF_F000_0000_0000 * (p + a);
    assert(k == 0xF_F000_0000_0000 * p + 0xF_F000_0000_0000 * a);
    assert(255 * a * 0x10_0000_0000_0000 == 256 * (0xF_F000_0000_0000 * a));
    assert((y + z) * 0xFFF_FFFF_FFFF == y * 0xFFF_FFFF_FFFF + z * 0xFFF_FFFF_FFFF);
    assert(256 * ((y + z) * 0xFFF_FFFF_FFFF) <= 256 * k - 255 * b);
}

/// The whole units of a hand are never more than all units.
pub proof fn law_whole_units_fit(w: Seq<Double>)
    requires
        0 < w.len() <= 0xFFFF_FFFF_FFFF_FFFF,
        forall|i: int| 0 <= i < w.len() ==> ordinary(#[trigger] w[i]),
    ensures
        apportion::whole(shares_of(w), w.len() as int) <= 255,
{
    let n = w.len() as int;
    let sum = total(w, n);
    if sum.value() > 0 {
        lemma_whole_covered(w, n);
        let f = apportion::whole(shares_in(w, sum), n);
        let b = sum.value();
        assert(f <= 255) by (nonlinear_arith)
            requires
                f * b * 0xFFF_FFFF_FFFF <= 0xF_F000_0000_0000 * b,
                b > 0,
        ;
    } else {
        let one = Double { bits: ONE };
        let count = arith::whole_double(n);
        let u = pow2(1074) as int;
        let l: int = 0x20_0000_0000_0000;
        power2::lemma_pow2_pos(1074);
        arith::lemma_one();
        lemma_count_sum(n);
        lemma_floor_weight(one, count);
        let f = share_of(exact_part(one, count)).floor as int;
        lemma_whole_alike(shares_of(w), f, n);
        assert(n * u >= 0) by (nonlinear_arith)
            requires
                n >= 0,
                u >= 0,
        ;
        arith::lemma_rounded_value(n * u, 1);
        rounding::lemma_rounding_error(n * u, 1, l);
        let b = count.value();
        assert(b * 1 == b);
        assert(n * f <= 255) by (nonlinear_arith)
            requires
                f >= 0,
                n >= 1,
                u > 0,
                l * b >= (n * u) * (l - 1),
                f * b * 0xF_FFFF_FFFF_FFFF <= 255 * u * 0x10_0000_0000_0000,
                l == 0x20_0000_0000_0000,
        {
            let g = n * f;
            assert(f * (l * b) >= f * ((n * u) * (l - 1)));
            assert(f * ((n * u) * (l - 1)) == (g * u) * (l - 1));
            assert(f * (l * b) == l * (f * b));
            assert((g * u) * (l - 1) * 0xF_FFFF_FFFF_FFFF <= l * (f * b) * 0xF_FFFF_FFFF_FFFF);
            assert((g * u) * (l - 1) * 0xF_FFFF_FFFF_FFFF <= l * (255 * u * 0x10_0000_0000_0000));
        }
    }
}

proof fn lemma_whole_alike(s: Seq<Share>, f: int, k: int)
    requires
        0 <= k <= s.len(),
        forall|i: int| 0 <= i < s.len() ==> (#[trigger] s[i]).floor == f,
    ensures
        apportion::whole(s, k) == k * f,
    decreases k,
{
    if k > 0 {
        lemma_whole_alike(s, f, k - 1);
        assert(k * f == (k - 1) * f + f) by (nonlinear_arith);
    } else {
        assert(0 * f == 0) by (nonlinear_arith);
    }
}

/// How many bytes are stored.
pub open spec fn stored_len(n_actions: int, n_hands: int) -> int {
    if n_actions <= 1 || n_hands <= 0 {
        0
    } else {
        (n_actions - 1) * n_hands
    }
}

/// The bytes of a strategy: the units of all actions but the last, action by action.
pub open spec fn quantized(strategy: Seq<Single>, n_actions: int, n_hands: int) -> Seq<u8> {
    Seq::new(
        stored_len(n_actions, n_hands) as nat,
        |i: int| units(strategy, n_actions, n_hands, i % n_hands, i / n_hands) as u8,
    )
}

/// What is known of the units of a hand: they are 255 together.
pub proof fn lemma_units_of_hand(strategy: Seq<Single>, n_actions: int, n_hands: int, hand: int)
    requires
        0 < n_actions <= 0xFFFF_FFFF_FFFF_FFFF,
    ensures
        ({
            let s = shares_of(hand_weights(strategy, n_actions, n_hands, hand));
            &&& s.len() == n_actions
            &&& apportion::quotas(s, n_actions) == 255
            &&& forall|a: int|
                0 <= a < n_actions ==> 0 <= #[trigger] apportion::quota(s, a) <= 255
        }),
{
    let w = hand_weights(strategy, n_actions, n_hands, hand);
    let s = shares_of(w);
    assert forall|i: int| 0 <= i < w.len() implies ordinary(#[trigger] w[i]) by {
        lemma_weight(strategy[i * n_hands + hand]);
    }
    law_whole_units_fit(w);
    apportion::law_all_units_are_given(s);
    apportion::lemma_quota_is_part(s, n_actions);
}

/// The bytes of a strategy of `n_actions` frequencies for each hand, which stand action by action.
pub fn quantize_strategy(strategy: &[Single], n_actions: usize, n_hands: usize) -> (out: Vec<u8>)
    requires
        n_actions > 1 && n_hands > 0 ==> n_actions * n_hands <= strategy.len(),
    ensures
        out@ == quantized(strategy@, n_actions as int, n_hands as int),
{
    let mut out: Vec<u8> = Vec::new();
    if n_actions <= 1 || n_hands == 0 {
        assert(out@ =~= quantized(strategy@, n_actions as int, n_hands as int));
        return out;
    }
    let ghost n = n_actions as int;
    let ghost h = n_hands as int;
    let mut quotas: Vec<Vec<u16>> = Vec::new();
    for hand in 0..n_hands
        invariant
            n_actions > 1,
            n == n_actions,
            h == n_hands,
            n_actions * n_hands <= strategy.len(),
            quotas@.len() == hand,
            forall|k: int|
                0 <= k < hand ==> (#[trigger] quotas@[k])@.len() == n && forall|a: int|
                    0 <= a < n ==> quotas@[k]@[a] == units(strategy@, n, h, k, a),
    {
        let shares: Vec<Share> = hand_shares(strategy, n_actions, n_hands, hand);
        let given: Vec<u16> = apportion::apportion(&shares);
        quotas.push(given);
    }
    assert(0 * h == 0) by (nonlinear_arith);
    for a in 0..n_actions - 1
        invariant
            n_actions > 1,
            n_hands > 0,
            n == n_actions,
            h == n_hands,
            quotas@.len() == n_hands,
            out@.len() == a * h,
            forall|k: int|
                0 <= k < h ==> (#[trigger] quotas@[k])@.len() == n && forall|b: int|
                    0 <= b < n ==> quotas@[k]@[b] == units(strategy@, n, h, k, b),
            forall|i: int|
                0 <= i < out@.len() ==> #[trigger] out@[i] == units(
                    strategy@,
                    n,
                    h,
                    i % h,
                    i / h,
                ) as u8,
    {
        for hand in 0..n_hands
            invariant
                0 <= a < n_actions - 1,
                n_hands > 0,
                n == n_actions,
                h == n_hands,
                quotas@.len() == n_hands,
                out@.len() == a * h + hand,
                forall|k: int|
                    0 <= k < h ==> (#[trigger] quotas@[k])@.len() == n && forall|b: int|
                        0 <= b < n ==> quotas@[k]@[b] == units(strategy@, n, h, k, b),
                forall|i: int|
                    0 <= i < out@.len() ==> #[trigger] out@[i] == units(
                        strategy@,
                        n,
                        h,
                        i % h,
                        i / h,
                    ) as u8,
        {
            proof {
                lemma_units_of_hand(strategy@, n, h, hand as int);
                let s = shares_of(hand_weights(strategy@, n, h, hand as int));
                assert(apportion::quota(s, a as int) <= 255);
                vstd::arithmetic::div_mod::lemma_fundamental_div_mod_converse(
                    a * h + hand,
                    h,
                    a as int,
                    hand as int,
                );
                assert(h * a == a * h) by (nonlinear_arith);
            }
            let given: &Vec<u16> = &quotas[hand];
            out.push(given[a] as u8);
        }
        proof {
            assert((a + 1) * h == a * h + h) by (nonlinear_arith);
        }
    }
    assert(out@ =~= quantized(strategy@, n, h));
    out
}

/// The units that the stored bytes give to the first `k` actions of a hand.
pub open spec fn stored_total(bytes: Seq<u8>, n_hands: int, hand: int, k: int) -> int
    decreases k,
{
    if k <= 0 {
        0
    } else {
        stored_total(bytes, n_hands, hand, k - 1) + bytes[(k - 1) * n_hands + hand]
    }
}

/// The units of action `a` of a hand, read from the stored bytes: the last action has what the
/// others leave.
pub open spec fn stored_units(bytes: Seq<u8>, n_actions: int, n_hands: int, hand: int, a: int) -> int {
    if a < n_actions - 1 {
        bytes[a * n_hands + hand] as int
    } else {
        let rest = 255 - stored_total(bytes, n_hands, hand, n_actions - 1);
        if rest > 0 {
            rest
        } else {
            0
        }
    }
}

/// A number of units as a frequency.
pub open spec fn unit_frequency(units: int) -> Single {
    if units == 0 {
        Single { bits: 0 }
    } else {
        arith::single_quotient_of(arith::whole_single(units), Single { bits: 0x437F_0000 })
    }
}

/// The frequency of action `a` of a hand: one where it is the only action, the same for all
/// actions where there are too few bytes, else by its units.
pub open spec fn frequency(bytes: Seq<u8>, n_actions: int, n_hands: int, hand: int, a: int) -> Single {
    if n_actions == 1 {
        Single { bits: 0x3F80_0000 }
    } else if bytes.len() < (n_actions - 1) * n_hands {
        arith::single_quotient_of(Single { bits: 0x3F80_0000 }, arith::whole_single(n_actions))
    } else {
        unit_frequency(stored_units(bytes, n_actions, n_hands, hand, a))
    }
}

/// The frequencies that stored bytes stand for, action by action.
pub open spec fn dequantized(bytes: Seq<u8>, n_actions: int, n_hands: int) -> Seq<Single> {
    Seq::new(
        (n_actions * n_hands) as nat,
        |i: int| frequency(bytes, n_actions, n_hands, i % n_hands, i / n_hands),
    )
}

fn read_unit_frequency(units: u32) -> (r: Single)
    ensures
        r == unit_frequency(units as int),
{
    if units == 0 {
        return Single { bits: 0 };
    }
    proof {
        arith::lemma_whole_range(units as int);
    }
    Single::from_whole(units as u64).div(&Single { bits: 0x437F_0000 })
}

/// What the others leave to the last action of a hand.
fn last_units(bytes: &[u8], n_actions: usize, n_hands: usize, hand: usize) -> (r: u32)
    requires
        n_actions > 1,
        hand < n_hands,
        (n_actions - 1) * n_hands <= bytes.len(),
    ensures
        r == stored_units(
            bytes@,
            n_actions as int,
            n_hands as int,
            hand as int,
            n_actions - 1,
        ),
{
    let mut rest: u32 = 255;
    for a in 0..n_actions - 1
        invariant
            n_actions > 1,
            hand < n_hands,
            (n_actions - 1) * n_hands <= bytes.len(),
            rest == (if stored_total(bytes@, n_hands as int, hand as int, a as int) < 255 {
                255 - stored_total(bytes@, n_hands as int, hand as int, a as int)
            } else {
                0
            }),
            stored_total(bytes@, n_hands as int, hand as int, a as int) >= 0,
    {
        proof {
            lemma_place(a as int, n_actions - 1, n_hands as int, hand as int);
        }
        let value: u32 = bytes[a * n_hands + hand] as u32;
        rest = if value < rest {
            rest - value
        } else {
            0
        };
    }
    rest
}

/// The frequencies that stored bytes stand for.
pub fn dequantize_strategy(bytes: &[u8], n_actions: usize, n_hands: usize) -> (out: Vec<Single>)
    requires
        n_actions * n_hands <= usize::MAX,
    ensures
        out@ == dequantized(bytes@, n_actions as int, n_hands as int),
{
    let mut out: Vec<Single> = Vec::new();
    let ghost n = n_actions as int;
    let ghost h = n_hands as int;
    assert(0 * h == 0 && n * 0 == 0) by (nonlinear_arith);
    if n_actions == 0 || n_hands == 0 {
        assert(out@ =~= dequantized(bytes@, n, h));
        return out;
    }
    proof {
        assert((n - 1) * h == n * h - h && n * h >= h) by (nonlinear_arith)
            requires
                n >= 1,
                h > 0,
        ;
        arith::lemma_whole_range(n);
    }
    let enough: bool = bytes.len() >= (n_actions - 1) * n_hands;
    let alike: Single = if n_actions == 1 {
        Single { bits: 0x3F80_0000 }
    } else {
        Single { bits: 0x3F80_0000 }.div(&Single::from_whole(n_actions as u64))
    };
    for a in 0..n_actions
        invariant
            n_actions > 0,
            n_hands > 0,
            n == n_actions,
            h == n_hands,
            n_actions * n_hands <= usize::MAX,
            enough == (bytes@.len() >= (n - 1) * h),
            alike == (if n == 1 {
                Single { bits: 0x3F80_0000 }
            } else {
                arith::single_quotient_of(Single { bits: 0x3F80_0000 }, arith::whole_single(n))
            }),
            out@.len() == a * h,
            forall|i: int|
                0 <= i < out@.len() ==> #[trigger] out@[i] == frequency(
                    bytes@,
                    n,
                    h,
                    i % h,
                    i / h,
                ),
    {
        for hand in 0..n_hands
            invariant
                0 <= a < n_actions,
                n_hands > 0,
                n == n_actions,
                h == n_hands,
                n_actions * n_hands <= usize::MAX,
                enough == (bytes@.len() >= (n - 1) * h),
                alike == (if n == 1 {
                    Single { bits: 0x3F80_0000 }
                } else {
                    arith::single_quotient_of(Single { bits: 0x3F80_0000 }, arith::whole_single(n))
                }),
                out@.len() == a * h + hand,
                forall|i: int|
                    0 <= i < out@.len() ==> #[trigger] out@[i] == frequency(
                        bytes@,
                        n,
                        h,
                        i % h,
                        i / h,
                    ),
        {
            proof {
                vstd::arithmetic::div_mod::lemma_fundamental_div_mod_converse(
                    a * h + hand,
                    h,
                    a as int,
                    hand as int,
                );
                assert(h * a == a * h) by (nonlinear_arith);
                lemma_place(a as int, n, h, hand as int);
            }
            let value: Single = if n_actions == 1 || !enough {
                alike
            } else if a < n_actions - 1 {
                proof {
                    lemma_place(a as int, n - 1, h, hand as int);
                }
                read_unit_frequency(bytes[a * n_hands + hand] as u32)
            } else {
                read_unit_frequency(last_units(bytes, n_actions, n_hands, hand))
            };
            out.push(value);
        }
        proof {
            assert((a + 1) * h == a * h + h) by (nonlinear_arith);
        }
    }
    assert(out@ =~= dequantized(bytes@, n, h));
    out
}

/// The first units of a hand are read as they were stored.
proof fn lemma_stored_total(strategy: Seq<Single>, n_actions: int, n_hands: int, hand: int, k: int)
    requires
        1 < n_actions <= 0xFFFF_FFFF_FFFF_FFFF,
        0 <= hand < n_hands,
        0 <= k < n_actions,
    ensures
        stored_total(quantized(strategy, n_actions, n_hands), n_hands, hand, k)
            == apportion::quotas(shares_of(hand_weights(strategy, n_actions, n_hands, hand)), k),
    decreases k,
{
    if k > 0 {
        lemma_stored_total(strategy, n_actions, n_hands, hand, k - 1);
        lemma_stored_byte(strategy, n_actions, n_hands, hand, k - 1);
    }
}

proof fn lemma_stored_byte(strategy: Seq<Single>, n_actions: int, n_hands: int, hand: int, a: int)
    requires
        1 < n_actions <= 0xFFFF_FFFF_FFFF_FFFF,
        0 <= hand < n_hands,
        0 <= a < n_actions - 1,
    ensures
        quantized(strategy, n_actions, n_hands)[a * n_hands + hand] == units(
            strategy,
            n_actions,
            n_hands,
            hand,
            a,
        ),
{
    lemma_place(a, n_actions - 1, n_hands, hand);
    vstd::arithmetic::div_mod::lemma_fundamental_div_mod_converse(
        a * n_hands + hand,
        n_hands,
        a,
        hand,
    );
    assert(n_hands * a == a * n_hands) by (nonlinear_arith);
    lemma_units_of_hand(strategy, n_actions, n_hands, hand);
    let s = shares_of(hand_weights(strategy, n_actions, n_hands, hand));
    assert(apportion::quota(s, a) <= 255);
}

/// What is read of the bytes of a strategy is the units that every action was given, the last one
/// among them; so the units of a hand are always 255 together.
pub proof fn law_units_survive(strategy: Seq<Single>, n_actions: int, n_hands: int, hand: int)
    requires
        1 < n_actions <= 0xFFFF_FFFF_FFFF_FFFF,
        0 <= hand < n_hands,
    ensures
        ({
            let bytes = quantized(strategy, n_actions, n_hands);
            &&& forall|a: int|
                0 <= a < n_actions ==> #[trigger] stored_units(
                    bytes,
                    n_actions,
                    n_hands,
                    hand,
                    a,
                ) == units(strategy, n_actions, n_hands, hand, a)
            &&& stored_total(bytes, n_hands, hand, n_actions - 1) + stored_units(
                bytes,
                n_actions,
                n_hands,
                hand,
                n_actions - 1,
            ) == 255
        }),
{
    let bytes = quantized(strategy, n_actions, n_hands);
    let s = shares_of(hand_weights(strategy, n_actions, n_hands, hand));
    lemma_units_of_hand(strategy, n_actions, n_hands, hand);
    lemma_stored_total(strategy, n_actions, n_hands, hand, n_actions - 1);
    assert forall|a: int| 0 <= a < n_actions implies #[trigger] stored_units(
        bytes,
        n_actions,
        n_hands,
        hand,
        a,
    ) == units(strategy, n_actions, n_hands, hand, a) by {
        if a < n_actions - 1 {
            lemma_stored_byte(strategy, n_actions, n_hands, hand, a);
        } else {
            assert(apportion::quota(s, a) >= 0);
        }
    }
    assert(apportion::quota(s, n_actions - 1) >= 0);
}

/// A weight is nothing, or not small.
pub open spec fn sizable(w: Double) -> bool {
    w.value() == 0 || w.value() >= pow2(925)
}

proof fn lemma_weight_is_sizable(v: Single)
    ensures
        sizable(weight(v)),
{
    if v.finite() && v.value() > 0 {
        let limit: int = 0x20_0000_0000_0000;
        let infinity: int = 0x7FF0_0000_0000_0000;
        let least = Double { bits: 0x36A0_0000_0000_0000 };
        let a = v.value();
        let t = pow2(925) as int;
        power2::lemma_pow2_pos(925);
        sums::lemma_power_bits(0x36A);
        arith::lemma_identity(least);
        lemma_weight(v);
        assert(a * t >= t) by (nonlinear_arith)
            requires
                a >= 1,
                t > 0,
        ;
        rounding::lemma_packed_range(t, 1, limit, infinity);
        rounding::lemma_packed_range(a * t, 1, limit, infinity);
        rounding::law_rounding_is_monotone(t, a * t, 1, limit, infinity);
        ieee::lemma_bits_order(weight(v), least);
    } else {
        assert((Double { bits: 0 }).value() == 0);
    }
}

/// How large a part is, given the weight.
proof fn lemma_part_is_large(w: Double, sum: Double)
    requires
        w.bits <= sum.bits,
        0 < sum.bits,
        bounded(sum),
        sizable(w),
    ensures
        exact_part(w, sum).value() * sum.value() * 0x10_0000_0000_0000 >= 255 * w.value() * pow2(
            1074,
        ) * 0xF_FFFF_FFFF_FFFF,
{
    let l: int = 0x20_0000_0000_0000;
    let u = pow2(1074) as int;
    let a = w.value();
    let b = sum.value();
    let quotient = arith::quotient_of(w, sum);
    let q = quotient.value();
    let exact = exact_part(w, sum);
    let x = exact.value();
    lemma_part(w, sum);
    lemma_units();
    power2::lemma_pow2_pos(1074);
    ieee::lemma_bits_order(w, sum);
    ieee::lemma_bits_order(Double { bits: 0 }, sum);
    ieee::lemma_bits_order(quotient, quotient);
    ieee::lemma_bits_order(exact, exact);
    assert(a >= 0 && b > 0);
    if a == 0 {
        assert(x * b >= 0) by (nonlinear_arith)
            requires
                x >= 0,
                b > 0,
        ;
        assert(255 * a * u == 0) by (nonlinear_arith)
            requires
                a == 0,
        ;
    } else {
        let top = Double { bits: 0x4B60_0000_0000_0000 };
        sums::lemma_power_bits(0x4B6);
        ieee::lemma_bits_order(sum, top);
        ieee::lemma_bits_order(top, sum);
        power2::lemma2_to64_rest();
        power2::lemma_pow2_adds(53, 0x4B6 + 51);
        power2::lemma_pow2_adds(925, 1074);
        rounding::lemma_small_power(53 + 0x4B6 + 51, 925 + 1074);
        let t = pow2(925) as int;
        let m = pow2(0x4B6 + 51) as int;
        assert(a * u >= t * u) by (nonlinear_arith)
            requires
                a >= t,
                u > 0,
        ;
        assert(l * b <= l * m) by (nonlinear_arith)
            requires
                b <= m,
                l > 0,
        ;
        assert(a * u >= l * b);
        let c = 255 * u;
        assert(q * c >= 0) by (nonlinear_arith)
            requires
                q >= 0,
                c >= 0,
        ;
        arith::lemma_rounded_value(a * u, b);
        arith::lemma_rounded_value(q * c, u);
        assert((q * c) * 1 == (255 * q) * u) by (nonlinear_arith)
            requires
                c == 255 * u,
        ;
        rounding::lemma_equal_quotients(q * c, u, 255 * q, 1, l);
        rounding::lemma_rounding_error(255 * q, 1, l);
        assert(x * 1 == x);
        rounding::lemma_rounding_error(a * u, b, l);
        lemma_combine_below(u, l, x, q, a, b);
    }
}

/// The two roundings of a part, put together from below.
proof fn lemma_combine_below(u: int, l: int, x: int, q: int, a: int, b: int)
    requires
        u > 0,
        l == 0x20_0000_0000_0000,
        a >= 0,
        b > 0,
        q >= 0,
        l * x >= 255 * q * (l - 1),
        l * (q * b) >= a * u * (l - 1),
    ensures
        x * b * 0x10_0000_0000_0000 >= 255 * a * u * 0xF_FFFF_FFFF_FFFF,
{
    let k = l - 1;
    let lb = l * b;
    assert(lb > 0) by (nonlinear_arith)
        requires
            lb == l * b,
            l > 0,
            b > 0,
    ;
    assert((l * x) * lb >= (255 * q * k) * lb) by (nonlinear_arith)
        requires
            l * x >= 255 * q * k,
            lb > 0,
    ;
    assert((255 * q * k) * lb == (255 * k) * (l * (q * b))) by (nonlinear_arith)
        requires
            lb == l * b,
    ;
    assert((255 * k) * (l * (q * b)) >= (255 * k) * (a * u * k)) by (nonlinear_arith)
        requires
            l * (q * b) >= a * u * k,
            k > 0,
    ;
    let xb = x * b;
    let au = 255 * a * u;
    assert((l * x) * lb == xb * 0x400_0000_0000_0000_0000_0000_0000) by (nonlinear_arith)
        requires
            lb == l * b,
            xb == x * b,
            l == 0x20_0000_0000_0000,
    ;
    assert((255 * k) * (a * u * k) == au * 0x3FF_FFFF_FFFF_FFC0_0000_0000_0001) by (nonlinear_arith)
        requires
            au == 255 * a * u,
            k == 0x1F_FFFF_FFFF_FFFF,
    ;
    assert(au >= 0) by (nonlinear_arith)
        requires
            au == 255 * a * u,
            a >= 0,
            u > 0,
    ;
}

/// The exact sum of the first `k` weights.
pub open spec fn exact_total(w: Seq<Double>, k: int) -> int
    decreases k,
{
    if k <= 0 {
        0
    } else {
        exact_total(w, k - 1) + w[k - 1].value()
    }
}

/// The exact sum of the first `k` parts.
pub open spec fn parts_total(w: Seq<Double>, sum: Double, k: int) -> int
    decreases k,
{
    if k <= 0 {
        0
    } else {
        parts_total(w, sum, k - 1) + exact_part(w[k - 1], sum).value()
    }
}

/// How far a sum that was added up one by one may be above the exact one.
proof fn lemma_total_error(w: Seq<Double>, k: int)
    requires
        0 <= k <= w.len(),
        forall|i: int| 0 <= i < w.len() ==> ordinary(#[trigger] w[i]),
    ensures
        0x10_0000_0000_0000 * total(w, k).value() <= 0x10_0000_0000_0000 * exact_total(w, k) + k
            * total(w, w.len() as int).value(),
    decreases k,
{
    let n = w.len() as int;
    let b = total(w, n).value();
    if k > 0 {
        lemma_total_error(w, k - 1);
        lemma_total(w, k - 1);
        lemma_total_grows(w, k, n);
        let x = w[k - 1];
        assert(ordinary(x));
        lemma_sum(total(w, k - 1), x);
        ieee::lemma_bits_order(total(w, k - 1), x);
        ieee::lemma_bits_order(x, x);
        let p = total(w, k - 1).value();
        let a = x.value();
        let l: int = 0x20_0000_0000_0000;
        arith::lemma_rounded_value(p + a, 1);
        rounding::lemma_rounding_error(p + a, 1, l);
        let r = total(w, k).value();
        assert(r * 1 == r);
        assert(k * b == (k - 1) * b + b) by (nonlinear_arith);
    } else {
        assert((Double { bits: 0 }).value() == 0);
        assert(0 * b == 0) by (nonlinear_arith);
    }
}

/// The parts together are large where the weights are.
proof fn lemma_parts_are_large(w: Seq<Double>, sum: Double, k: int)
    requires
        0 <= k <= w.len(),
        forall|i: int| 0 <= i < w.len() ==> (#[trigger] w[i]).bits <= sum.bits && sizable(w[i]),
        0 < sum.bits,
        bounded(sum),
    ensures
        parts_total(w, sum, k) * sum.value() * 0x10_0000_0000_0000 >= 255 * exact_total(w, k) * pow2(
            1074,
        ) * 0xF_FFFF_FFFF_FFFF,
    decreases k,
{
    let u = pow2(1074) as int;
    let b = sum.value();
    if k > 0 {
        lemma_parts_are_large(w, sum, k - 1);
        assert(w[k - 1].bits <= sum.bits);
        lemma_part_is_large(w[k - 1], sum);
        let x = exact_part(w[k - 1], sum).value();
        let a = w[k - 1].value();
        let y = parts_total(w, sum, k - 1);
        let z = exact_total(w, k - 1);
        assert((y + x) * b == y * b + x * b) by (nonlinear_arith);
        assert(255 * (z + a) * u == 255 * z * u + 255 * a * u) by (nonlinear_arith);
    } else {
        assert(0 * b == 0) by (nonlinear_arith);
        assert(255 * 0 * u == 0) by (nonlinear_arith);
    }
}

/// The whole units fall short of the parts by less than one unit for each action.
proof fn lemma_parts_and_whole(w: Seq<Double>, sum: Double, k: int)
    requires
        0 <= k <= w.len(),
        forall|i: int| 0 <= i < w.len() ==> (#[trigger] w[i]).bits <= sum.bits,
        0 < sum.bits,
        bounded(sum),
    ensures
        parts_total(w, sum, k) <= (apportion::whole(shares_in(w, sum), k) + k) * pow2(1074),
    decreases k,
{
    let u = pow2(1074) as int;
    power2::lemma_pow2_pos(1074);
    if k > 0 {
        lemma_parts_and_whole(w, sum, k - 1);
        assert(w[k - 1].bits <= sum.bits);
        lemma_part(w[k - 1], sum);
        let x = exact_part(w[k - 1], sum).value();
        let f = x / u;
        assert(x <= (f + 1) * u) by (nonlinear_arith)
            requires
                f == x / u,
                u > 0,
        ;
        let y = apportion::whole(shares_in(w, sum), k - 1) + k - 1;
        assert(y * u + (f + 1) * u == (y + f + 1) * u) by (nonlinear_arith);
    } else {
        assert(0 * u == 0) by (nonlinear_arith);
    }
}

/// From the parts to the units that are left over.
proof fn lemma_few_left(s: int, whole: int, n: int, parts: int, b: int, weights: int, u: int)
    requires
        s == 255 - whole,
        0 < n <= 0xFFFF_FFFF,
        b > 0,
        u > 0,
        parts <= (whole + n) * u,
        parts * b * 0x10_0000_0000_0000 >= 255 * weights * u * 0xF_FFFF_FFFF_FFFF,
        0x10_0000_0000_0000 * b <= 0x10_0000_0000_0000 * weights + n * b,
    ensures
        s <= n,
{
    if s > n {
        let ub = u * b;
        assert(ub > 0) by (nonlinear_arith)
            requires
                ub == u * b,
                u > 0,
                b > 0,
        ;
        assert(parts * b <= 254 * ub) by (nonlinear_arith)
            requires
                parts <= (whole + n) * u,
                whole + n <= 254,
                u > 0,
                b > 0,
                ub == u * b,
        ;
        let wu = weights * u;
        assert(255 * weights * u == 255 * wu) by (nonlinear_arith)
            requires
                wu == weights * u,
        ;
        assert(0x10_0000_0000_0000 * ub <= 0x10_0000_0000_0000 * wu + 0xFFFF_FFFF * ub) by (nonlinear_arith)
            requires
                0x10_0000_0000_0000 * b <= 0x10_0000_0000_0000 * weights + n * b,
                n <= 0xFFFF_FFFF,
                b > 0,
                u > 0,
                ub == u * b,
                wu == weights * u,
        {
            assert(n * b <= 0xFFFF_FFFF * b);
            assert((0x10_0000_0000_0000 * b) * u <= (0x10_0000_0000_0000 * weights + 0xFFFF_FFFF
                * b) * u);
        }
        assert(254 * ub * 0x10_0000_0000_0000 >= 255 * wu * 0xF_FFFF_FFFF_FFFF);
        assert(wu * 0x10_0000_0000_0000 >= ub * 0xF_FFFF_0000_0001);
        assert(false);
    }
}

/// Where the actions of a hand are not beyond counting, no more units are left over than there
/// are actions.
proof fn lemma_left_over(w: Seq<Double>)
    requires
        0 < w.len() <= 0xFFFF_FFFF,
        forall|i: int| 0 <= i < w.len() ==> ordinary(#[trigger] w[i]) && sizable(w[i]),
    ensures
        apportion::left_over(shares_of(w)) <= w.len(),
{
    let n = w.len() as int;
    let u = pow2(1074) as int;
    power2::lemma_pow2_pos(1074);
    assert forall|i: int| 0 <= i < w.len() implies ordinary(#[trigger] w[i]) by {
        assert(ordinary(w[i]) && sizable(w[i]));
    }
    let (v, sum) = weights_and_sum(w);
    lemma_total(w, n);
    ieee::lemma_bits_order(Double { bits: 0 }, total(w, n));
    if total(w, n).value() > 0 {
        assert forall|i: int| 0 <= i < v.len() implies (#[trigger] v[i]).bits <= sum.bits && sizable(
            v[i],
        ) by {
            assert(ordinary(w[i]) && sizable(w[i]));
            ieee::lemma_bits_order(sum, w[i]);
        }
        lemma_total_error(w, n);
        lemma_parts_are_large(v, sum, n);
        lemma_parts_and_whole(v, sum, n);
        lemma_few_left(
            255 - apportion::whole(shares_of(w), n),
            apportion::whole(shares_of(w), n),
            n,
            parts_total(v, sum, n),
            sum.value(),
            exact_total(w, n),
            u,
        );
    } else {
        let one = Double { bits: ONE };
        lemma_count_sum(n);
        arith::lemma_one();
        sums::lemma_power_bits(0x3FF);
        rounding::lemma_small_power(925, 1074);
        assert forall|i: int| 0 <= i < v.len() implies (#[trigger] v[i]).bits <= sum.bits && sizable(
            v[i],
        ) by {}
        lemma_exact_ones(v, n);
        lemma_parts_are_large(v, sum, n);
        lemma_parts_and_whole(v, sum, n);
        assert(n * u >= 0) by (nonlinear_arith)
            requires
                n >= 0,
                u >= 0,
        ;
        arith::lemma_rounded_value(n * u, 1);
        rounding::lemma_rounding_error(n * u, 1, 0x20_0000_0000_0000);
        let b = sum.value();
        assert(b * 1 == b);
        ieee::lemma_bits_order(one, sum);
        ieee::lemma_bits_order(sum, one);
        assert(n * b >= b) by (nonlinear_arith)
            requires
                n >= 1,
                b > 0,
        ;
        let nu = n * u;
        assert(0x20_0000_0000_0000 * b <= nu * 0x20_0000_0000_0001);
        assert(nu <= 2 * b);
        lemma_few_left(
            255 - apportion::whole(shares_of(w), n),
            apportion::whole(shares_of(w), n),
            n,
            parts_total(v, sum, n),
            b,
            nu,
            u,
        );
    }
}

proof fn lemma_exact_ones(v: Seq<Double>, k: int)
    requires
        0 <= k <= v.len(),
        forall|i: int| 0 <= i < v.len() ==> #[trigger] v[i] == (Double { bits: ONE }),
    ensures
        exact_total(v, k) == k * pow2(1074),
    decreases k,
{
    let u = pow2(1074) as int;
    arith::lemma_one();
    if k > 0 {
        lemma_exact_ones(v, k - 1);
        assert(v[k - 1] == (Double { bits: ONE }));
        assert(k * u == (k - 1) * u + u) by (nonlinear_arith);
    } else {
        assert(0 * u == 0) by (nonlinear_arith);
    }
}

/// Every action's units are within one unit of its exact part.
pub proof fn law_within_one_unit(strategy: Seq<Single>, n_actions: int, n_hands: int, hand: int, a: int)
    requires
        0 < n_actions <= 0xFFFF_FFFF,
        0 <= a < n_actions,
    ensures
        ({
            let (w, sum) = weights_and_sum(hand_weights(strategy, n_actions, n_hands, hand));
            let exact = exact_part(w[a], sum).value();
            let given = units(strategy, n_actions, n_hands, hand, a);
            (given - 1) * pow2(1074) <= exact <= (given + 1) * pow2(1074)
        }),
{
    let hw = hand_weights(strategy, n_actions, n_hands, hand);
    let (w, sum) = weights_and_sum(hw);
    let s = shares_of(hw);
    let u = pow2(1074) as int;
    power2::lemma_pow2_pos(1074);
    assert forall|i: int| 0 <= i < hw.len() implies ordinary(#[trigger] hw[i]) && sizable(hw[i]) by {
        lemma_weight(strategy[i * n_hands + hand]);
        lemma_weight_is_sizable(strategy[i * n_hands + hand]);
    }
    lemma_left_over(hw);
    apportion::law_within_one_unit(s, a);
    lemma_total(hw, n_actions);
    lemma_count_sum(n_actions);
    ieee::lemma_bits_order(Double { bits: 0 }, total(hw, n_actions));
    assert(ordinary(hw[a]));
    ieee::lemma_bits_order(total(hw, n_actions), hw[a]);
    lemma_part(w[a], sum);
    let x = exact_part(w[a], sum).value();
    let f = x / u;
    let g = units(strategy, n_actions, n_hands, hand, a);
    assert((g - 1) * u <= x <= (g + 1) * u) by (nonlinear_arith)
        requires
            f == x / u,
            f <= g <= f + 1,
            u > 0,
    ;
}

} // verus!
