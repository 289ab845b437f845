//! What holds of conversions between chips, big blinds, percentages and parts of one.

use vstd::arithmetic::power2;
use vstd::arithmetic::power2::pow2;
use vstd::prelude::*;

use crate::arith;
use crate::config;
use crate::config::{Rake, CHIP_SCALE};
use crate::export;
use crate::ieee;
use crate::ieee::{Double, Single};
use crate::job;
use crate::number_laws;
use crate::rounding;
use crate::signed;
use crate::solution;
use crate::sums;
use crate::weights;

verus! {

proof fn lemma_hundred()
    ensures
        (Double { bits: CHIP_SCALE }).value() == 100 * pow2(1074),
        (Single { bits: solution::HUNDRED }).value() == 100 * pow2(149),
        pow2(1074) > 0,
        pow2(149) > 0,
{
    power2::lemma_pow2_pos(1074);
    power2::lemma_pow2_pos(149);
    power2::lemma2_to64();
    power2::lemma2_to64_rest();
    power2::lemma_pow2_adds(46, 1028);
    power2::lemma_pow2_adds(17, 132);
    let p = pow2(1028) as int;
    assert(0x19_0000_0000_0000 * p == 100 * (pow2(46) * p)) by (nonlinear_arith)
        requires
            pow2(46) == 0x4000_0000_0000,
    ;
    let q = pow2(132) as int;
    assert(0xC8_0000 * q == 100 * (pow2(17) * q)) by (nonlinear_arith)
        requires
            pow2(17) == 0x2_0000,
    ;
}

/// A quotient by an integer is that of the values.
proof fn lemma_over(a: Double, b: Double, n: int)
    requires
        a.value() >= 0,
        n > 0,
        b.value() == n * pow2(1074),
    ensures
        arith::quotient_of(a, b) == arith::double(a.value(), n),
{
    let t = pow2(1074) as int;
    let v = a.value();
    let x = v * t;
    let d = n * t;
    power2::lemma_pow2_pos(1074);
    assert(x >= 0 && d > 0 && x * n == v * d) by (nonlinear_arith)
        requires
            x == v * t,
            d == n * t,
            v >= 0,
            n > 0,
            t > 0,
    ;
    rounding::lemma_quotient_monotone(x, d, v, n, 0x20_0000_0000_0000, 0x7FF0_0000_0000_0000);
    rounding::lemma_quotient_monotone(v, n, x, d, 0x20_0000_0000_0000, 0x7FF0_0000_0000_0000);
}

/// A product with an integer is that of the values.
pub proof fn lemma_times(a: Double, b: Double, n: int)
    requires
        a.value() >= 0,
        n >= 0,
        b.value() == n * pow2(1074),
    ensures
        arith::product_of(a, b) == arith::double(n * a.value(), 1),
        arith::product_of(b, a) == arith::double(n * a.value(), 1),
{
    let t = pow2(1074) as int;
    let v = a.value();
    let x = v * (n * t);
    let y = n * v;
    power2::lemma_pow2_pos(1074);
    assert(x >= 0 && y >= 0 && x * 1 == y * t && (n * t) * v == x) by (nonlinear_arith)
        requires
            x == v * (n * t),
            y == n * v,
            v >= 0,
            n >= 0,
            t > 0,
    ;
    rounding::lemma_quotient_monotone(x, t, y, 1, 0x20_0000_0000_0000, 0x7FF0_0000_0000_0000);
    rounding::lemma_quotient_monotone(y, 1, x, t, 0x20_0000_0000_0000, 0x7FF0_0000_0000_0000);
}

/// A number that is neither negative nor beyond all numbers.
pub open spec fn ordinary(d: Double) -> bool {
    d.bits < 0x7FF0_0000_0000_0000
}

pub proof fn lemma_ordinary(d: Double)
    requires
        ordinary(d),
    ensures
        d.value() >= 0,
        d.value() == 0 <==> d.bits == 0,
        !d.nan() && !d.infinite() && !d.negative(),
        signed::size(d) == d,
{
    ieee::lemma_zero_bits(d);
}

/// The rake's percentage is a hundredth as a part of one, and its cap in big blinds a hundred times
/// as many chips, both rounded once; without a rake both are zero.
pub proof fn law_rakes_are_scaled(rake: Rake)
    requires
        ordinary(rake.percent),
        ordinary(rake.cap_bb),
    ensures
        config::rake_rate_of(Some(rake)) == arith::double(rake.percent.value(), 100),
        config::rake_cap_of(Some(rake)) == arith::double(100 * rake.cap_bb.value(), 1),
        config::rake_rate_of(None).bits == 0,
        config::rake_cap_of(None).bits == 0,
{
    let hundred = Double { bits: CHIP_SCALE };
    lemma_hundred();
    lemma_ordinary(rake.percent);
    lemma_ordinary(rake.cap_bb);
    lemma_ordinary(hundred);
    lemma_over(rake.percent, hundred, 100);
    lemma_times(rake.cap_bb, hundred, 100);
}

/// An integer of chips is exact in binary64.
proof fn lemma_whole(n: int)
    requires
        0 <= n <= 0x7FFF_FFFF,
    ensures
        signed::whole(n).value() == n * pow2(1074),
        ordinary(signed::whole(n)),
{
    if n > 0 {
        arith::lemma_whole_is_exact(n);
    } else {
        arith::lemma_zero(1, 0x20_0000_0000_0000);
        assert(0 * pow2(1074) == 0);
    }
}

/// The exploitability to reach is the percentage times the pot over a hundred, each step rounded to
/// binary64 and the last to binary32.
pub proof fn law_targets_are_parts_of_the_pot(chips: int, percent: Double)
    requires
        0 <= chips <= 0x7FFF_FFFF,
        ordinary(percent),
        ordinary(arith::double(chips * percent.value(), 1)),
    ensures
        ({
            let times = arith::double(chips * percent.value(), 1);
            config::target_chips(chips, percent) == signed::narrowed(
                arith::double(times.value(), 100),
            )
        }),
{
    let hundred = Double { bits: CHIP_SCALE };
    lemma_hundred();
    lemma_whole(chips);
    lemma_ordinary(percent);
    lemma_ordinary(hundred);
    lemma_ordinary(signed::whole(chips));
    lemma_times(percent, signed::whole(chips), chips);
    let times = arith::double(chips * percent.value(), 1);
    assert(signed::product(signed::whole(chips), percent) == times);
    lemma_ordinary(times);
    lemma_over(times, hundred, 100);
}

/// An exploitability in chips over the pot, times a hundred, is the percentage of the pot.
pub proof fn law_percentages_are_of_the_pot(exploitability: Single, pot: int)
    requires
        exploitability.bits < 0x7F80_0000,
        0 < pot <= 0x7FFF_FFFF,
    ensures
        ({
            let part = arith::double(exploitability.value() * pow2(925), pot);
            ordinary(part) && job::percent_of_pot(exploitability, pot) == arith::double(
                100 * part.value(),
                1,
            )
        }),
{
    let hundred = Double { bits: CHIP_SCALE };
    let w = signed::widened(exploitability);
    number_laws::law_narrowing_undoes_widening(exploitability);
    assert(ordinary(w));
    lemma_hundred();
    lemma_whole(pot);
    lemma_ordinary(w);
    lemma_ordinary(hundred);
    lemma_ordinary(signed::whole(pot));
    let t = pow2(1074) as int;
    assert(pot * t > 0) by (nonlinear_arith)
        requires
            pot > 0,
            t > 0,
    ;
    lemma_over(w, signed::whole(pot), pot);
    let part = arith::double(w.value(), pot);
    arith::lemma_identity(w);
    let v = w.value();
    assert(v * 1 <= v * pot) by (nonlinear_arith)
        requires
            v >= 0,
            pot >= 1,
    ;
    rounding::lemma_quotient_monotone(v, pot, v, 1, 0x20_0000_0000_0000, 0x7FF0_0000_0000_0000);
    rounding::lemma_packed_range(v, pot, 0x20_0000_0000_0000, 0x7FF0_0000_0000_0000);
    assert(signed::quotient(w, signed::whole(pot)) == part);
    lemma_ordinary(part);
    lemma_times(part, hundred, 100);
}

/// A hundredth of a number of chips, given in big blinds, is that number of chips again: amounts
/// that are written with two decimals come out exactly. The sign does not matter.
pub proof fn law_chips_come_back(n: int)
    requires
        0 < n < 0x7FFF_FFFF,
    ensures
        arith::chips_of(arith::double(n * pow2(1074), 100)) == n,
        arith::chips_of(signed::with_sign(arith::double(n * pow2(1074), 100), true)) == -n,
{
    let limit: int = 0x20_0000_0000_0000;
    let infinity: int = 0x7FF0_0000_0000_0000;
    let t = pow2(1074) as int;
    let x = n * t;
    let a = arith::double(x, 100);
    let hundred = Double { bits: CHIP_SCALE };
    lemma_hundred();
    power2::lemma2_to64();
    power2::lemma2_to64_rest();
    arith::lemma_whole_is_exact(n);
    arith::lemma_whole_is_exact(2 * n);
    assert(x > 0 && x * 1 <= x * 100 && (2 * n) * t == 2 * x) by (nonlinear_arith)
        requires
            x == n * t,
            n > 0,
            t > 0,
    ;
    rounding::lemma_quotient_monotone(x, 100, x, 1, limit, infinity);
    rounding::lemma_packed_range(x, 100, limit, infinity);
    rounding::lemma_packed_range(x, 1, limit, infinity);
    assert(ordinary(a));
    lemma_ordinary(a);
    arith::lemma_rounded_value(x, 100);
    power2::lemma_pow2_adds(64, 1010);
    power2::lemma_pow2_pos(1010);
    let u = pow2(1010) as int;
    assert(x >= limit * 100) by (nonlinear_arith)
        requires
            x == n * t,
            n >= 1,
            t == pow2(64) * u,
            pow2(64) == 0x1_0000_0000_0000_0000,
            u >= 1,
            limit == 0x20_0000_0000_0000,
    ;
    rounding::lemma_rounding_error(x, 100, limit);
    let v = a.value();
    assert(limit * (v * 100) <= x * (limit + 1));
    assert(limit * (v * 100) >= x * (limit - 1));
    let y = 100 * v;
    assert(limit * y == limit * (v * 100)) by (nonlinear_arith)
        requires
            y == 100 * v,
    ;
    assert(x * (limit + 1) == limit * x + x && x * (limit - 1) == limit * x - x) by (nonlinear_arith);
    assert(0 <= y <= 2 * x) by (nonlinear_arith)
        requires
            limit * y <= limit * x + x,
            limit * y >= limit * x - x,
            x > 0,
            limit == 0x20_0000_0000_0000,
    ;
    lemma_ordinary(hundred);
    lemma_times(a, hundred, 100);
    let w = arith::double(y, 1);
    rounding::law_rounding_is_monotone(y, 2 * x, 1, limit, infinity);
    rounding::lemma_packed_range(y, 1, limit, infinity);
    rounding::lemma_packed_range(2 * x, 1, limit, infinity);
    assert(ordinary(w));
    arith::lemma_rounded_value(y, 1);
    rounding::lemma_rounding_error(y, 1, limit);
    let z = w.value();
    assert(z * 1 == z);
    assert(limit * z <= y * (limit + 1) && limit * z >= y * (limit - 1));
    assert(y * (limit + 1) == limit * y + y && y * (limit - 1) == limit * y - y) by (nonlinear_arith);
    assert(-t < 2 * (z - x) < t) by (nonlinear_arith)
        requires
            limit * z <= limit * y + y,
            limit * z >= limit * y - y,
            limit * y <= limit * x + x,
            limit * y >= limit * x - x,
            0 <= y <= 2 * x,
            x == n * t,
            0 < n < 0x7FFF_FFFF,
            t > 0,
            limit == 0x20_0000_0000_0000,
    ;
    let r = 2 * z + t - n * (2 * t);
    assert(n * (2 * t) == 2 * x) by (nonlinear_arith)
        requires
            x == n * t,
    ;
    vstd::arithmetic::div_mod::lemma_fundamental_div_mod_converse(2 * z + t, 2 * t, n, r);
    let b = signed::with_sign(a, true);
    assert(b.abs_bits() == a.bits);
    assert(b.exponent() == a.exponent() && b.fraction() == a.fraction());
}

/// What a hand expects in chips is stored as a hundredth of it in big blinds, rounded once, with the
/// same sign; what is no number stays as it is.
pub proof fn law_expected_chips_are_divided(v: Single)
    ensures
        !v.finite() ==> solution::in_big_blinds(v) == v,
        v.finite() && !v.negative() ==> solution::in_big_blinds(v) == arith::single(v.value(), 100),
        v.finite() && v.negative() ==> solution::in_big_blinds(v) == signed::single_with_sign(
            arith::single(-v.value(), 100),
            true,
        ),
{
    if v.finite() {
        let a = signed::single_size(v);
        let t = pow2(149) as int;
        let x = a.value() * t;
        lemma_hundred();
        ieee::lemma_single_zero(a);
        assert(a.exponent() == v.exponent() && a.fraction() == v.fraction());
        let s = a.value();
        assert(x >= 0 && x * 100 == s * (100 * t)) by (nonlinear_arith)
            requires
                x == s * t,
                s >= 0,
                t > 0,
        ;
        rounding::lemma_quotient_monotone(x, 100 * t, s, 100, 0x100_0000, 0x7F80_0000);
        rounding::lemma_quotient_monotone(s, 100, x, 100 * t, 0x100_0000, 0x7F80_0000);
    }
}

/// At the root a range is reached in full, and where none of it comes nothing of it is.
pub proof fn law_ranges_reach_the_root(values: Seq<Single>)
    requires
        0 < sums::sum(values).bits < 0x7FF0_0000_0000_0000,
    ensures
        export::reach_of(sums::sum(values), values).bits == 0x3FF0_0000_0000_0000,
        forall|none: Seq<Single>|
            #![trigger export::reach_of(sums::sum(values), none)]
            sums::sum(none).bits == 0 ==> export::reach_of(sums::sum(values), none).bits == 0,
{
    let limit: int = 0x20_0000_0000_0000;
    let infinity: int = 0x7FF0_0000_0000_0000;
    let s = sums::sum(values);
    let t = pow2(1074) as int;
    let one = Double { bits: 0x3FF0_0000_0000_0000 };
    lemma_hundred();
    lemma_ordinary(s);
    arith::lemma_one();
    arith::lemma_identity(one);
    let v = s.value();
    let x = v * t;
    assert(x >= 0 && x * 1 == t * v) by (nonlinear_arith)
        requires
            x == v * t,
            v >= 0,
            t > 0,
    ;
    rounding::lemma_quotient_monotone(x, v, t, 1, limit, infinity);
    rounding::lemma_quotient_monotone(t, 1, x, v, limit, infinity);
    assert forall|none: Seq<Single>|
        #![trigger export::reach_of(sums::sum(values), none)]
        sums::sum(none).bits == 0 implies export::reach_of(sums::sum(values), none).bits == 0 by {
        let z = sums::sum(none);
        lemma_ordinary(z);
        assert(0 * t == 0);
        arith::lemma_zero(v, limit);
    }
}

pub proof fn lemma_one_single()
    ensures
        ({
            let one = Single { bits: 0x3F80_0000 };
            &&& one.value() == pow2(149)
            &&& signed::widened(one).value() == pow2(1074)
            &&& ordinary(signed::widened(one))
        }),
{
    let one = Single { bits: 0x3F80_0000 };
    power2::lemma2_to64();
    power2::lemma_pow2_adds(23, 126);
    power2::lemma_pow2_adds(149, 925);
    arith::lemma_one();
    arith::lemma_identity(Double { bits: 0x3FF0_0000_0000_0000 });
    assert(one.exponent() == 127 && one.fraction() == 0);
    assert(one.value() == 0x80_0000 * pow2(126));
    assert(signed::single_size(one) == one);
}

/// Weights that are one or nothing add up to the number of ones.
pub proof fn law_whole_weights_add_up(values: Seq<Single>, k: int)
    requires
        0 <= k <= values.len(),
        k <= 0x7FFF_FFFF,
        forall|i: int|
            0 <= i < values.len() ==> (#[trigger] values[i]).bits == 0 || values[i].bits
                == 0x3F80_0000,
    ensures
        sums::partial(values, k) == signed::whole(weights::count(values, k)),
        0 <= weights::count(values, k) <= k,
    decreases k,
{
    let t = pow2(1074) as int;
    lemma_hundred();
    arith::lemma_zero(1, 0x20_0000_0000_0000);
    if k == 0 {
        assert(0 * t == 0);
    } else {
        law_whole_weights_add_up(values, k - 1);
        let c = weights::count(values, k - 1);
        let before = sums::partial(values, k - 1);
        lemma_whole(c);
        lemma_one_single();
        lemma_ordinary(before);
        assert(values[k - 1].bits == 0 || values[k - 1].bits == 0x3F80_0000);
        let w = signed::widened(values[k - 1]);
        if values[k - 1].bits == 0 {
            assert(values[k - 1].value() == 0);
            assert(0 * pow2(925) == 0);
            assert(w.bits == 0);
            lemma_ordinary(w);
            arith::lemma_identity(before);
        } else {
            assert(values[k - 1] == Single { bits: 0x3F80_0000 });
            lemma_ordinary(w);
            assert(c * t + t == (c + 1) * t && c * t + t > 0) by (nonlinear_arith)
                requires
                    c >= 0,
                    t > 0,
            ;
            assert(values[k - 1].value() > 0);
        }
    }
}

} // verus!
