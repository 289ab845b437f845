//! What holds of stored strategies: they are the frequencies that they were made of, in units.

use vstd::arithmetic::power2;
use vstd::arithmetic::power2::pow2;
use vstd::prelude::*;

use crate::apportion;
use crate::apportion::Share;
use crate::arith;
use crate::ieee::{Double, Single};
use crate::money_laws;
use crate::rounding;
use crate::strategy;
use crate::sums;

verus! {

/// The frequency of an action and a hand, where frequencies stand action by action.
pub open spec fn frequency_at(frequencies: Seq<Single>, n_hands: int, hand: int, a: int) -> Single {
    frequencies[a * n_hands + hand]
}

/// Whether a frequency counts: finite and above zero.
pub open spec fn counts(v: Single) -> bool {
    v.finite() && v.value() > 0
}

proof fn lemma_units()
    ensures
        (Double { bits: strategy::UNITS }).value() == 255 * pow2(1074),
        money_laws::ordinary(Double { bits: strategy::UNITS }),
        pow2(1074) > 0,
{
    power2::lemma_pow2_pos(1074);
    power2::lemma2_to64();
    power2::lemma2_to64_rest();
    power2::lemma_pow2_adds(45, 1029);
    let p = pow2(1029) as int;
    assert(0x1F_E000_0000_0000 * p == 255 * (pow2(45) * p)) by (nonlinear_arith)
        requires
            pow2(45) == 0x2000_0000_0000,
    ;
    let u = Double { bits: strategy::UNITS };
    assert(u.exponent() == 1030 && u.fraction() == 0xF_E000_0000_0000);
}

proof fn lemma_all_of_it(w: Double)
    requires
        0 < w.bits < 0x7FF0_0000_0000_0000,
    ensures
        strategy::share_of(strategy::exact_part(w, w)).floor == 255,
        strategy::share_of(strategy::exact_part(w, w)).rest.bits == 0,
{
    let limit: int = 0x20_0000_0000_0000;
    let infinity: int = 0x7FF0_0000_0000_0000;
    let t = pow2(1074) as int;
    let one = Double { bits: 0x3FF0_0000_0000_0000 };
    let units = Double { bits: strategy::UNITS };
    lemma_units();
    money_laws::lemma_ordinary(w);
    money_laws::lemma_ordinary(one);
    arith::lemma_one();
    arith::lemma_identity(one);
    let v = w.value();
    let x = v * t;
    assert(x >= 0 && x * 1 == t * v) by (nonlinear_arith)
        requires
            x == v * t,
            v > 0,
            t > 0,
    ;
    rounding::lemma_quotient_monotone(x, v, t, 1, limit, infinity);
    rounding::lemma_quotient_monotone(t, 1, x, v, limit, infinity);
    assert(arith::quotient_of(w, w) == one);
    money_laws::lemma_times(one, units, 255);
    arith::lemma_identity(units);
    assert(strategy::exact_part(w, w) == units);
    vstd::arithmetic::div_mod::lemma_fundamental_div_mod_converse(255 * t, t, 255, 0);
    arith::lemma_zero(1, limit);
}

proof fn lemma_none_of_it(sum: Double)
    requires
        0 < sum.bits < 0x7FF0_0000_0000_0000,
    ensures
        strategy::share_of(strategy::exact_part(Double { bits: 0 }, sum)).floor == 0,
        strategy::share_of(strategy::exact_part(Double { bits: 0 }, sum)).rest.bits == 0,
{
    let limit: int = 0x20_0000_0000_0000;
    let t = pow2(1074) as int;
    let zero = Double { bits: 0 };
    let units = Double { bits: strategy::UNITS };
    lemma_units();
    money_laws::lemma_ordinary(sum);
    money_laws::lemma_ordinary(zero);
    assert(0 * t == 0);
    arith::lemma_zero(sum.value(), limit);
    arith::lemma_zero(1, limit);
    assert(arith::quotient_of(zero, sum) == zero);
    money_laws::lemma_times(zero, units, 255);
    assert(strategy::exact_part(zero, sum) == zero);
    vstd::arithmetic::div_mod::lemma_fundamental_div_mod_converse(0, t, 0, 0);
}

/// The sum of weights of which only one is above zero is that one.
proof fn lemma_only_one(w: Seq<Double>, a: int, k: int)
    requires
        0 <= a < w.len(),
        0 <= k <= w.len(),
        w[a].bits < 0x7FF0_0000_0000_0000,
        forall|i: int| 0 <= i < w.len() && i != a ==> (#[trigger] w[i]).bits == 0,
    ensures
        strategy::total(w, k) == (if a < k {
            w[a]
        } else {
            Double { bits: 0 }
        }),
    decreases k,
{
    if k > 0 {
        lemma_only_one(w, a, k - 1);
        arith::lemma_identity(w[a]);
        arith::lemma_zero(1, 0x20_0000_0000_0000);
        assert((Double { bits: 0 }).value() == 0);
        if k - 1 != a {
            assert(w[k - 1].bits == 0);
            assert(w[k - 1] == Double { bits: 0 });
        }
    }
}

proof fn lemma_whole(s: Seq<Share>, a: int, k: int)
    requires
        0 <= a < s.len(),
        0 <= k <= s.len(),
        s[a].floor == 255,
        forall|i: int| 0 <= i < s.len() && i != a ==> (#[trigger] s[i]).floor == 0,
    ensures
        apportion::whole(s, k) == (if a < k {
            255int
        } else {
            0int
        }),
    decreases k,
{
    if k > 0 {
        lemma_whole(s, a, k - 1);
        if k - 1 != a {
            assert(s[k - 1].floor == 0);
        }
    }
}

proof fn lemma_not_negative(p: spec_fn(int) -> bool, n: int)
    ensures
        apportion::count(p, n) >= 0,
    decreases n,
{
    if n > 0 {
        lemma_not_negative(p, n - 1);
    }
}

/// A frequency that counts has a weight.
proof fn lemma_weight(v: Single)
    requires
        counts(v),
    ensures
        0 < strategy::weight(v).bits < 0x7FF0_0000_0000_0000,
{
    let limit: int = 0x20_0000_0000_0000;
    let infinity: int = 0x7FF0_0000_0000_0000;
    let least = Double { bits: 0x36A0_0000_0000_0000 };
    let t = pow2(925) as int;
    let x = v.value() * t;
    power2::lemma_pow2_pos(925);
    sums::lemma_power_bits(0x36A);
    arith::lemma_identity(least);
    strategy::lemma_weight(v);
    let n = v.value();
    assert(x >= t) by (nonlinear_arith)
        requires
            x == n * t,
            n >= 1,
            t > 0,
    ;
    rounding::law_rounding_is_monotone(t, x, 1, limit, infinity);
    rounding::lemma_packed_range(t, 1, limit, infinity);
    rounding::lemma_packed_range(x, 1, limit, infinity);
}

/// A hand that takes one action always, and no other ever, has all 255 units there and none
/// elsewhere; what is read back of the stored bytes is one there and zero elsewhere.
pub proof fn law_pure_hands_stay_pure(frequencies: Seq<Single>, n_actions: int, n_hands: int, hand: int, a: int)
    requires
        1 < n_actions <= 0xFFFF_FFFF,
        0 <= hand < n_hands,
        0 <= a < n_actions,
        counts(frequency_at(frequencies, n_hands, hand, a)),
        forall|b: int|
            0 <= b < n_actions && b != a ==> !counts(
                #[trigger] frequency_at(frequencies, n_hands, hand, b),
            ),
    ensures
        ({
            let bytes = strategy::quantized(frequencies, n_actions, n_hands);
            let back = strategy::dequantized(bytes, n_actions, n_hands);
            forall|b: int|
                0 <= b < n_actions ==> #[trigger] frequency_at(back, n_hands, hand, b) == (if b == a {
                    Single { bits: 0x3F80_0000 }
                } else {
                    Single { bits: 0 }
                })
        }),
{
    let w = strategy::hand_weights(frequencies, n_actions, n_hands, hand);
    let v = frequency_at(frequencies, n_hands, hand, a);
    lemma_weight(v);
    assert(w[a] == strategy::weight(v));
    assert forall|i: int| 0 <= i < w.len() && i != a implies (#[trigger] w[i]).bits == 0 by {
        assert(!counts(frequency_at(frequencies, n_hands, hand, i)));
    }
    lemma_only_one(w, a, w.len() as int);
    money_laws::lemma_ordinary(w[a]);
    let sum = w[a];
    assert(strategy::weights_and_sum(w) == (w, sum));
    let s = strategy::shares_of(w);
    lemma_all_of_it(w[a]);
    lemma_none_of_it(sum);
    assert forall|i: int| 0 <= i < s.len() && i != a implies (#[trigger] s[i]).floor == 0 by {
        assert(w[i] == Double { bits: 0 });
    }
    lemma_whole(s, a, s.len() as int);
    assert(apportion::left_over(s) == 0);
    assert forall|b: int| 0 <= b < n_actions implies strategy::units(
        frequencies,
        n_actions,
        n_hands,
        hand,
        b,
    ) == (if b == a {
        255int
    } else {
        0int
    }) by {
        lemma_not_negative(|j: int| apportion::before(s, j, b), s.len() as int);
        assert(apportion::extra(s, b) == 0);
    }
    let bytes = strategy::quantized(frequencies, n_actions, n_hands);
    let back = strategy::dequantized(bytes, n_actions, n_hands);
    strategy::law_units_survive(frequencies, n_actions, n_hands, hand);
    lemma_unit_frequency(255);
    assert forall|b: int| 0 <= b < n_actions implies #[trigger] frequency_at(back, n_hands, hand, b)
        == (if b == a {
        Single { bits: 0x3F80_0000 }
    } else {
        Single { bits: 0 }
    }) by {
        lemma_read_back(frequencies, n_actions, n_hands, hand, b);
    }
}

/// What is read at an action and a hand is what the units of that hand and action come to.
proof fn lemma_read_back(frequencies: Seq<Single>, n_actions: int, n_hands: int, hand: int, b: int)
    requires
        1 < n_actions <= 0xFFFF_FFFF,
        0 <= hand < n_hands,
        0 <= b < n_actions,
    ensures
        ({
            let bytes = strategy::quantized(frequencies, n_actions, n_hands);
            let back = strategy::dequantized(bytes, n_actions, n_hands);
            frequency_at(back, n_hands, hand, b) == strategy::unit_frequency(
                strategy::units(frequencies, n_actions, n_hands, hand, b),
            )
        }),
{
    let bytes = strategy::quantized(frequencies, n_actions, n_hands);
    let i = b * n_hands + hand;
    strategy::law_units_survive(frequencies, n_actions, n_hands, hand);
    assert(0 <= b * n_hands && b * n_hands + n_hands <= n_actions * n_hands && (n_actions - 1) * n_hands
        >= 0) by (nonlinear_arith)
        requires
            0 <= b < n_actions,
            0 < n_hands,
    ;
    assert(n_hands * b == b * n_hands) by (nonlinear_arith);
    vstd::arithmetic::div_mod::lemma_fundamental_div_mod_converse(i, n_hands, b, hand);
    assert(strategy::stored_units(bytes, n_actions, n_hands, hand, b) == strategy::units(
        frequencies,
        n_actions,
        n_hands,
        hand,
        b,
    ));
}

/// Units are read as 255ths, rounded once.
proof fn lemma_unit_frequency(units: int)
    requires
        0 < units <= 255,
    ensures
        strategy::unit_frequency(units) == arith::single(units * pow2(149), 255),
        units == 255 ==> strategy::unit_frequency(units) == (Single { bits: 0x3F80_0000 }),
{
    let t = pow2(149) as int;
    let c = Single { bits: 0x437F_0000 };
    power2::lemma_pow2_pos(149);
    power2::lemma2_to64();
    power2::lemma_pow2_adds(16, 133);
    let p = pow2(133) as int;
    assert(0xFF_0000 * p == 255 * (pow2(16) * p)) by (nonlinear_arith)
        requires
            pow2(16) == 0x1_0000,
    ;
    assert(c.exponent() == 134 && c.fraction() == 0x7F_0000);
    assert(c.value() == 255 * t);
    arith::lemma_whole_is_exact_in_single(units);
    let v = units * t;
    let x = v * t;
    assert(v > 0 && x >= 0 && x * 255 == v * (255 * t)) by (nonlinear_arith)
        requires
            v == units * t,
            x == v * t,
            units > 0,
            t > 0,
    ;
    rounding::lemma_quotient_monotone(x, 255 * t, v, 255, 0x100_0000, 0x7F80_0000);
    rounding::lemma_quotient_monotone(v, 255, x, 255 * t, 0x100_0000, 0x7F80_0000);
    if units == 255 {
        let one = Single { bits: 0x3F80_0000 };
        money_laws::lemma_one_single();
        arith::lemma_single_identity(one);
        assert(v * 1 == t * 255);
        rounding::lemma_quotient_monotone(v, 255, t, 1, 0x100_0000, 0x7F80_0000);
        rounding::lemma_quotient_monotone(t, 1, v, 255, 0x100_0000, 0x7F80_0000);
    }
}

/// What is read back of a stored strategy is, for every action and hand, a number of 255ths that is
/// within one of what the hand's frequency is of all its frequencies: 255 times the quotient, each
/// step rounded to binary64.
pub proof fn law_units_follow_frequencies(frequencies: Seq<Single>, n_actions: int, n_hands: int, hand: int, a: int) -> (units:
    int)
    requires
        1 < n_actions <= 0xFFFF_FFFF,
        0 <= hand < n_hands,
        0 <= a < n_actions,
    ensures
        0 <= units <= 255,
        ({
            let bytes = strategy::quantized(frequencies, n_actions, n_hands);
            let back = strategy::dequantized(bytes, n_actions, n_hands);
            frequency_at(back, n_hands, hand, a) == (if units == 0 {
                Single { bits: 0 }
            } else {
                arith::single(units * pow2(149), 255)
            })
        }),
        ({
            let w = Seq::new(
                n_actions as nat,
                |b: int| strategy::weight(frequency_at(frequencies, n_hands, hand, b)),
            );
            let sum = strategy::total(w, n_actions);
            let part = arith::double(w[a].value() * pow2(1074), sum.value());
            sum.value() > 0 && money_laws::ordinary(part) ==> {
                let exact = arith::double(255 * part.value(), 1).value();
                (units - 1) * pow2(1074) <= exact <= (units + 1) * pow2(1074)
            }
        }),
{
    let units = strategy::units(frequencies, n_actions, n_hands, hand, a);
    let w = strategy::hand_weights(frequencies, n_actions, n_hands, hand);
    assert(w =~= Seq::new(
        n_actions as nat,
        |b: int| strategy::weight(frequency_at(frequencies, n_hands, hand, b)),
    ));
    lemma_read_back(frequencies, n_actions, n_hands, hand, a);
    strategy::lemma_units_of_hand(frequencies, n_actions, n_hands, hand);
    let s = strategy::shares_of(w);
    assert(0 <= apportion::quota(s, a) <= 255);
    if units > 0 {
        lemma_unit_frequency(units);
    }
    strategy::law_within_one_unit(frequencies, n_actions, n_hands, hand, a);
    let sum = strategy::total(w, n_actions);
    let part = arith::double(w[a].value() * pow2(1074), sum.value());
    if sum.value() > 0 && money_laws::ordinary(part) {
        lemma_units();
        money_laws::lemma_ordinary(part);
        money_laws::lemma_times(part, Double { bits: strategy::UNITS }, 255);
        assert(strategy::weights_and_sum(w) == (w, sum));
    }
    units
}

/// Where two actions of a hand have the same share, the earlier one has no fewer units.
pub proof fn law_ties_go_to_the_earlier_action(s: Seq<Share>, i: int, j: int)
    requires
        0 <= i < j < s.len(),
        s[i].floor == s[j].floor,
        s[i].rest.value() == s[j].rest.value(),
        apportion::left_over(s) <= s.len(),
    ensures
        apportion::quota(s, i) >= apportion::quota(s, j),
{
    let p = |k: int| apportion::before(s, k, i);
    let q = |k: int| apportion::before(s, k, j);
    assert forall|k: int| 0 <= k < s.len() && #[trigger] p(k) implies q(k) by {}
    lemma_fewer(p, q, s.len() as int);
}

proof fn lemma_fewer(p: spec_fn(int) -> bool, q: spec_fn(int) -> bool, n: int)
    requires
        forall|k: int| 0 <= k < n && #[trigger] p(k) ==> q(k),
    ensures
        apportion::count(p, n) <= apportion::count(q, n),
    decreases n,
{
    if n > 0 {
        lemma_fewer(p, q, n - 1);
    }
}

} // verus!
