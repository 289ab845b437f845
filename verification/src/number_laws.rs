//! What holds of arithmetic on IEEE 754 numbers: rounding, infinities, NaNs and signs.

use vstd::arithmetic::power2;
use vstd::arithmetic::power2::pow2;
use vstd::prelude::*;

use crate::arith;
use crate::ieee;
use crate::ieee::{Double, Single};
use crate::rounding;
use crate::signed;
use crate::strategy;

verus! {

/// What a quotient is rounded to is no further from it than a half, and where it is a half away it is
/// even, so no other integer is meant.
pub proof fn law_rounding_is_to_the_nearest(a: int, b: int)
    requires
        a >= 0,
        b > 0,
    ensures
        ({
            let q = rounding::nearest_even(a, b);
            &&& -b <= 2 * (q * b - a) <= b
            &&& 2 * (q * b - a) == b || 2 * (q * b - a) == -b ==> q % 2 == 0
        }),
        ({
            let q = rounding::nearest_away(a, b);
            &&& -b < 2 * (q * b - a) <= b
        }),
{
    let k = a / b;
    let r = a % b;
    vstd::arithmetic::div_mod::lemma_fundamental_div_mod(a, b);
    assert((k + 1) * b == k * b + b) by (nonlinear_arith);
    assert(b * k == k * b) by (nonlinear_arith);
    let n = 2 * a + b;
    let d = 2 * b;
    vstd::arithmetic::div_mod::lemma_fundamental_div_mod(n, d);
    let q = n / d;
    assert(d * q == 2 * (q * b)) by (nonlinear_arith)
        requires
            d == 2 * b,
    ;
}

/// The order of two numbers does not matter to their sum or their product.
pub proof fn law_sums_and_products_commute(a: Double, b: Double)
    ensures
        signed::sum(a, b) == signed::sum(b, a),
        signed::product(a, b) == signed::product(b, a),
{
    let x = signed::size(a).value();
    let y = signed::size(b).value();
    assert(x * y == y * x) by (nonlinear_arith);
    if a.infinite() && b.infinite() && a.negative() == b.negative() {
        assert(a.abs_bits() == b.abs_bits());
        assert(a.bits == b.bits);
    }
}

/// Nothing over nothing, an infinity over an infinity, an infinity less an infinity, and nothing times
/// an infinity are no numbers, and neither is what a NaN is part of; anything else over nothing is
/// an infinity, and a finite number over an infinity is nothing. Signs follow the usual rule.
pub proof fn law_what_is_no_number(a: Double, b: Double)
    ensures
        a.nan() || b.nan() ==> signed::sum(a, b).nan() && signed::product(a, b).nan()
            && signed::quotient(a, b).nan(),
        a.infinite() && b.infinite() ==> signed::quotient(a, b).nan() && (signed::sum(a, b).nan()
            <==> a.negative() != b.negative()),
        a.abs_bits() == 0 && b.abs_bits() == 0 ==> signed::quotient(a, b).nan(),
        a.abs_bits() == 0 && b.infinite() ==> signed::product(a, b).nan(),
        !a.nan() && a.abs_bits() != 0 && b.abs_bits() == 0 ==> signed::quotient(a, b).infinite()
            && signed::quotient(a, b).negative() == (a.negative() != b.negative()),
        signed::finite(a) && b.infinite() ==> signed::quotient(a, b).abs_bits() == 0,
        a.infinite() && !b.nan() && b.abs_bits() != 0 ==> signed::product(a, b).infinite()
            && signed::product(a, b).negative() == (a.negative() != b.negative()),
        a.infinite() && signed::finite(b) ==> signed::sum(a, b) == a && signed::quotient(
            a,
            b,
        ).infinite(),
{
    ieee::lemma_zero_bits(a);
    ieee::lemma_zero_bits(b);
    let n = signed::not_a_number();
    assert(n.nan());
    let i = signed::infinity();
    let j = signed::with_sign(i, true);
    assert(i.infinite() && !i.negative());
    assert(j.infinite() && j.negative());
}

/// Chips of what is no number are none, and amounts beyond thirty-two bits are kept within them.
pub proof fn law_chips_stay_within_bounds(d: Double)
    ensures
        -0x8000_0000 <= arith::chips_of(d) <= 0x7FFF_FFFF,
        d.nan() ==> arith::chips_of(d) == 0,
        d.infinite() && !d.negative() ==> arith::chips_of(d) == 0x7FFF_FFFF,
        d.infinite() && d.negative() ==> arith::chips_of(d) == -0x8000_0000,
        d.abs_bits() == 0 ==> arith::chips_of(d) == 0,
{
    let hundred = Double { bits: 0x4059_0000_0000_0000 };
    let a = Double { bits: d.abs_bits() as u64 };
    let t = pow2(1074) as int;
    let p = arith::product_of(a, hundred);
    power2::lemma_pow2_pos(1074);
    ieee::lemma_zero_bits(a);
    ieee::lemma_zero_bits(hundred);
    let x = a.value();
    let y = hundred.value();
    assert(x * y >= 0) by (nonlinear_arith)
        requires
            x >= 0,
            y >= 0,
    ;
    rounding::lemma_packed_range(x * y, t, 0x20_0000_0000_0000, 0x7FF0_0000_0000_0000);
    ieee::lemma_zero_bits(p);
    let v = p.value();
    assert(v >= 0);
    assert(rounding::nearest_away(v, t) >= 0) by {
        vstd::arithmetic::div_mod::lemma_div_pos_is_pos(2 * v + t, 2 * t);
    }
    if d.abs_bits() == 0 {
        assert(x == 0);
        assert(x * y == 0) by (nonlinear_arith)
            requires
                x == 0,
        ;
        arith::lemma_zero(t, 0x20_0000_0000_0000);
        assert(v == 0);
        vstd::arithmetic::div_mod::lemma_fundamental_div_mod_converse(t, 2 * t, 0, t);
    }
}

/// A binary32 number is exact in binary64, and narrowed again it is what it was.
pub proof fn law_narrowing_undoes_widening(v: Single)
    requires
        v.finite(),
    ensures
        signed::finite(signed::widened(v)),
        signed::widened(v).negative() == v.negative(),
        signed::widened(v).value() == v.value() * pow2(925),
        signed::narrowed(signed::widened(v)) == v,
{
    let a = signed::single_size(v);
    let limit: int = 0x20_0000_0000_0000;
    let t = pow2(925) as int;
    let x = a.value() * t;
    let w = arith::widened(a);
    power2::lemma_pow2_pos(925);
    ieee::lemma_single_zero(a);
    assert(a.bits < 0x7F80_0000);
    assert(a.exponent() == v.exponent() && a.fraction() == v.fraction());
    let n = a.value();
    assert(x >= 0) by (nonlinear_arith)
        requires
            x == n * t,
            n >= 0,
            t > 0,
    ;
    lemma_widened_range(a);
    arith::lemma_rounded_value(x, 1);
    if a.bits == 0 {
        assert(0 * t == 0);
        rounding::lemma_small_exact(0, limit);
        arith::lemma_zero(1, limit);
        assert(w.bits == 0);
        assert(w.value() == 0);
    } else if a.exponent() == 0 {
        rounding::lemma_shift_exact(a.fraction(), 925, limit);
        assert(w.value() == x);
    } else {
        let e = (a.exponent() - 1) as nat;
        let m = 0x80_0000 + a.fraction();
        power2::lemma_pow2_adds(e, 925);
        let p = pow2(e) as int;
        assert((m * p) * t == m * (p * t)) by (nonlinear_arith);
        rounding::lemma_shift_exact(m, e + 925, limit);
        assert(w.value() == x);
    }
    let d = signed::widened(v);
    assert(signed::size(d) == w);
    assert(d.exponent() == w.exponent() && d.fraction() == w.fraction());
    assert(d.negative() == v.negative());
    assert((-n) * t == -(n * t)) by (nonlinear_arith);
    arith::lemma_single_identity(a);
    assert(x * 1 == n * t);
    rounding::lemma_quotient_monotone(x, t, n, 1, 0x100_0000, 0x7F80_0000);
    rounding::lemma_quotient_monotone(n, 1, x, t, 0x100_0000, 0x7F80_0000);
    assert(arith::single(x, t) == a);
}

proof fn lemma_widened_range(a: Single)
    requires
        a.bits < 0x7F80_0000,
    ensures
        arith::widened(a).bits < 0x7FF0_0000_0000_0000,
{
    ieee::lemma_single_zero(a);
    if a.value() > 0 {
        strategy::lemma_weight(a);
    } else {
        assert(0 * pow2(925) == 0);
        arith::lemma_zero(1, 0x20_0000_0000_0000);
    }
}

} // verus!
