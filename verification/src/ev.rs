//! Expected values as sixteen-bit numbers and a scale.

use vstd::arithmetic::power2;
use vstd::arithmetic::power2::pow2;
use vstd::prelude::*;

use crate::arith;
use crate::ieee::Single;
use crate::rounding;
use crate::signed;
use crate::signed::{SINGLE_INFINITY, SINGLE_NAN};

verus! {

/// The bit pattern of 32767, the largest sixteen-bit number.
pub const LARGEST: u32 = 0x46FF_FE00;

/// A number without its sign.
pub open spec fn unsigned(v: Single) -> Single {
    Single { bits: v.abs_bits() as u32 }
}

/// The bit pattern of the largest of the first `k` numbers, signs and what is not finite left out.
pub open spec fn largest(values: Seq<Single>, k: int) -> int
    decreases k,
{
    if k <= 0 {
        0
    } else if values[k - 1].finite() && values[k - 1].abs_bits() > largest(values, k - 1) {
        values[k - 1].abs_bits()
    } else {
        largest(values, k - 1)
    }
}

/// The scale of numbers: the largest is 32767 of it; one where all are zero.
pub open spec fn scale_of(values: Seq<Single>) -> Single {
    let max = largest(values, values.len() as int);
    if max == 0 {
        Single { bits: 0x3F80_0000 }
    } else {
        arith::single_quotient_of(Single { bits: max as u32 }, Single { bits: LARGEST })
    }
}

/// How many of the scale a number is, signs left out: what is nearest to the quotient, halves
/// upwards.
pub open spec fn steps(v: Single, scale: Single) -> int {
    if v.value() == 0 {
        0
    } else if scale.value() == 0 {
        0x8000
    } else {
        rounding::nearest_away(
            arith::single_quotient_of(unsigned(v), scale).value(),
            pow2(149) as int,
        )
    }
}

/// A number by its scale, kept within sixteen bits; nothing where it is not finite.
pub open spec fn scaled(v: Single, scale: Single) -> int {
    let w = steps(v, scale);
    if !v.finite() {
        0
    } else if v.negative() {
        if w < 0x8000 {
            -w
        } else {
            -0x8000
        }
    } else if w < 0x7FFF {
        w
    } else {
        0x7FFF
    }
}

/// The sixteen-bit numbers that are stored.
pub open spec fn encoded(values: Seq<Single>) -> Seq<i16> {
    let max = largest(values, values.len() as int);
    Seq::new(
        values.len(),
        |i: int|
            if max == 0 {
                0i16
            } else {
                scaled(values[i], scale_of(values)) as i16
            },
    )
}

/// A stored number times the scale.
pub open spec fn restored(v: i16, scale: Single) -> Single {
    let a = if v < 0 {
        -v
    } else {
        v as int
    };
    let product = if scale.nan() || (!scale.finite() && a == 0) {
        Single { bits: signed::SINGLE_NAN }
    } else if !scale.finite() {
        Single { bits: signed::SINGLE_INFINITY }
    } else if a == 0 || unsigned(scale).bits == 0 {
        Single { bits: 0 }
    } else {
        arith::single_product_of(arith::whole_single(a), unsigned(scale))
    };
    if !product.nan() && (v < 0) != scale.negative() {
        Single { bits: (product.bits + 0x8000_0000) as u32 }
    } else {
        product
    }
}

fn scale_value(v: Single, scale: Single) -> (r: i16)
    requires
        scale.bits < 0x7F80_0000,
    ensures
        r == scaled(v, scale),
{
    let a: Single = Single { bits: v.bits % 0x8000_0000 };
    if a.bits >= 0x7F80_0000 {
        return 0;
    }
    proof {
        power2::lemma2_to64();
        crate::ieee::lemma_single_zero(v);
        crate::ieee::lemma_single_zero(scale);
    }
    let negative: bool = v.bits >= 0x8000_0000;
    let cap: u64 = if negative {
        0x8000
    } else {
        0x7FFF
    };
    let w: u64 = if a.bits == 0 {
        0
    } else if scale.bits == 0 {
        cap
    } else {
        let q: Single = a.div(&scale);
        arith::round_away(q.bits as u64, 0x80_0000, 23, 127, 16, cap)
    };
    if negative {
        (-(w as i32)) as i16
    } else {
        w as i16
    }
}

/// The largest of the numbers, as a bit pattern.
fn find_largest(values: &[Single]) -> (r: u32)
    ensures
        r == largest(values@, values@.len() as int),
        r < 0x7F80_0000,
{
    let mut max: u32 = 0;
    for i in 0..values.len()
        invariant
            max == largest(values@, i as int),
            max < 0x7F80_0000,
    {
        let a: u32 = values[i].bits % 0x8000_0000;
        if a < 0x7F80_0000 && a > max {
            max = a;
        }
    }
    max
}

/// The scale is a number of the ordinary kind.
proof fn lemma_scale(values: Seq<Single>)
    requires
        largest(values, values.len() as int) < 0x7F80_0000,
    ensures
        scale_of(values).bits < 0x7F80_0000,
{
    let max = largest(values, values.len() as int);
    lemma_largest_not_negative(values, values.len() as int);
    if max > 0 {
        let m = Single { bits: max as u32 };
        let c = Single { bits: LARGEST };
        let t = pow2(149) as int;
        power2::lemma_pow2_pos(149);
        lemma_largest_value();
        crate::ieee::lemma_single_zero(m);
        let a = m.value();
        let b = c.value();
        assert(a * t >= 0 && (a * t) * 1 <= a * b) by (nonlinear_arith)
            requires
                a >= 0,
                0 < t <= b,
        ;
        rounding::lemma_quotient_monotone(a * t, b, a, 1, 0x100_0000, 0x7F80_0000);
        rounding::lemma_packed_range(a * t, b, 0x100_0000, 0x7F80_0000);
        arith::lemma_single_identity(m);
        rounding::lemma_packed_range(a, 1, 0x100_0000, 0x7F80_0000);
    }
}

proof fn lemma_largest_not_negative(values: Seq<Single>, k: int)
    ensures
        0 <= largest(values, k) < 0x8000_0000,
    decreases k,
{
    if k > 0 {
        lemma_largest_not_negative(values, k - 1);
    }
}

/// 32767, in units of the smallest number.
proof fn lemma_largest_value()
    ensures
        (Single { bits: LARGEST }).value() == 32767 * pow2(149),
        pow2(149) <= 32767 * pow2(149),
{
    power2::lemma2_to64();
    power2::lemma_pow2_adds(9, 140);
    power2::lemma_pow2_pos(149);
    let p = pow2(140) as int;
    assert(0xFF_FE00 * p == 32767 * (pow2(9) * p)) by (nonlinear_arith)
        requires
            pow2(9) == 512,
    ;
}

/// Numbers as sixteen-bit ones, and their scale.
pub fn quantize_ev(values: &[Single]) -> (r: (Vec<i16>, Single))
    ensures
        r.0@ == encoded(values@),
        r.1 == scale_of(values@),
{
    let max: u32 = find_largest(values);
    let mut out: Vec<i16> = Vec::new();
    if max == 0 {
        for i in 0..values.len()
            invariant
                out@.len() == i,
                forall|j: int| 0 <= j < i ==> #[trigger] out@[j] == 0,
        {
            out.push(0);
        }
        assert(out@ =~= encoded(values@));
        return (out, Single { bits: 0x3F80_0000 });
    }
    proof {
        lemma_scale(values@);
    }
    let scale: Single = Single { bits: max }.div(&Single { bits: LARGEST });
    for i in 0..values.len()
        invariant
            scale.bits < 0x7F80_0000,
            out@.len() == i,
            forall|j: int| 0 <= j < i ==> #[trigger] out@[j] == scaled(values@[j], scale),
    {
        out.push(scale_value(values[i], scale));
    }
    assert(out@ =~= encoded(values@));
    (out, scale)
}

fn restore(v: i16, scale: Single) -> (r: Single)
    ensures
        r == restored(v, scale),
{
    let a: u64 = if v < 0 {
        (-(v as i64)) as u64
    } else {
        v as u64
    };
    let s: Single = Single { bits: scale.bits % 0x8000_0000 };
    if s.bits > 0x7F80_0000 || (s.bits == 0x7F80_0000 && a == 0) {
        return Single { bits: SINGLE_NAN };
    }
    let product: Single = if s.bits == 0x7F80_0000 {
        Single { bits: SINGLE_INFINITY }
    } else if a == 0 || s.bits == 0 {
        Single { bits: 0 }
    } else {
        proof {
            arith::lemma_whole_range(a as int);
        }
        Single::from_whole(a).mul(&s)
    };
    if (v < 0) != (scale.bits >= 0x8000_0000) {
        Single { bits: product.bits + 0x8000_0000 }
    } else {
        product
    }
}

/// The numbers that stored ones and a scale stand for.
pub fn dequantize_ev(values: &[i16], scale: Single) -> (out: Vec<Single>)
    ensures
        out@ == Seq::new(values@.len(), |i: int| restored(values@[i], scale)),
{
    let mut out: Vec<Single> = Vec::new();
    for i in 0..values.len()
        invariant
            out@.len() == i,
            forall|j: int| 0 <= j < i ==> #[trigger] out@[j] == restored(values@[j], scale),
    {
        out.push(restore(values[i], scale));
    }
    assert(out@ =~= Seq::new(values@.len(), |i: int| restored(values@[i], scale)));
    out
}

/// The largest of the numbers, as a number.
pub open spec fn largest_value(values: Seq<Single>) -> int {
    Single { bits: largest(values, values.len() as int) as u32 }.value()
}

/// The largest number is within sixteen bits of the scale.
pub open spec fn fits(values: Seq<Single>) -> bool {
    2 * largest_value(values) <= 65535 * scale_of(values).value()
}

/// No finite number is larger than the largest.
proof fn lemma_largest(values: Seq<Single>, k: int, i: int)
    requires
        0 <= i < k <= values.len(),
        values[i].finite(),
    ensures
        values[i].abs_bits() <= largest(values, k),
        largest(values, k) < 0x7F80_0000,
    decreases k,
{
    lemma_largest_finite(values, k - 1);
    if i < k - 1 {
        lemma_largest(values, k - 1, i);
    }
}

proof fn lemma_largest_finite(values: Seq<Single>, k: int)
    ensures
        0 <= largest(values, k) < 0x7F80_0000,
    decreases k,
{
    if k > 0 {
        lemma_largest_finite(values, k - 1);
    }
}

/// Halves upwards: the nearest integer is off by no more than a half.
proof fn lemma_away_error(q: int, t: int)
    requires
        q >= 0,
        t > 0,
    ensures
        2 * (rounding::nearest_away(q, t) * t) <= 2 * q + t,
        2 * (rounding::nearest_away(q, t) * t) >= 2 * q - t,
        rounding::nearest_away(q, t) >= 0,
{
    let w = rounding::nearest_away(q, t);
    let n = 2 * q + t;
    let d = 2 * t;
    vstd::arithmetic::div_mod::lemma_fundamental_div_mod(n, d);
    assert(d * w == 2 * (w * t)) by (nonlinear_arith)
        requires
            d == 2 * t,
    ;
    assert(w >= 0) by (nonlinear_arith)
        requires
            w == n / d,
            n >= 0,
            d > 0,
    ;
}

/// One number: `a` is read back as `r`, which is off by no more than the scale `s`.
proof fn lemma_number_error(v: Single, scale: Single, m: int)
    requires
        v.finite(),
        0 < scale.bits < 0x7F80_0000,
        0 < unsigned(v).value() <= m,
        2 * m <= 65535 * scale.value(),
    ensures
        ({
            let a = unsigned(v).value();
            let w = steps(v, scale);
            let e = if w < 0x7FFF {
                w
            } else {
                0x7FFF
            };
            let s = scale.value();
            &&& 0 <= w <= 0x8000
            &&& forall|k: int|
                #![trigger rounding::rounded(k * s, 1, 0x100_0000)]
                (k == w || k == e) ==> {
                    let r = rounding::rounded(k * s, 1, 0x100_0000);
                    r - a <= s && a - r <= s
                }
        }),
{
    let l: int = 0x100_0000;
    let t = pow2(149) as int;
    let a = unsigned(v).value();
    let s = scale.value();
    power2::lemma_pow2_pos(149);
    crate::ieee::lemma_single_zero(v);
    crate::ieee::lemma_single_zero(scale);
    crate::ieee::lemma_single_zero(unsigned(v));
    assert(s > 0);
    let w = steps(v, scale);
    let quotient = arith::single_quotient_of(unsigned(v), scale);
    let q = quotient.value();
    lemma_quotient_finite(a, s);
    assert(a * t >= 0) by (nonlinear_arith)
        requires
            a >= 0,
            t > 0,
    ;
    arith::lemma_single_rounded_value(a * t, s);
    crate::ieee::lemma_single_zero(quotient);
    lemma_away_error(q, t);
    lemma_steps_error(a, s, t, q, w);
    let e = if w < 0x7FFF {
        w
    } else {
        0x7FFF
    };
    assert forall|k: int|
        #![trigger rounding::rounded(k * s, 1, 0x100_0000)]
        (k == w || k == e) implies {
        let r = rounding::rounded(k * s, 1, 0x100_0000);
        r - a <= s && a - r <= s
    } by {
        let r = rounding::rounded(k * s, 1, l);
        assert(k * s >= 0) by (nonlinear_arith)
            requires
                k >= 0,
                s > 0,
        ;
        rounding::lemma_rounding_error(k * s, 1, l);
        assert(r * 1 == r);
        lemma_product_error(a, s, k, w, r);
    }
}

/// A number that is within sixteen bits of the scale has an ordinary quotient.
proof fn lemma_quotient_finite(a: int, s: int)
    requires
        0 < a,
        0 < s,
        2 * a <= 65535 * s,
    ensures
        arith::single(a * pow2(149), s).bits <= 0x4700_0000,
{
    let top = Single { bits: 0x4700_0000 };
    let t = pow2(149) as int;
    power2::lemma2_to64();
    power2::lemma_pow2_pos(149);
    power2::lemma_pow2_adds(23, 141);
    power2::lemma_pow2_adds(15, 149);
    assert(top.value() == 0x8000 * t);
    arith::lemma_single_identity(top);
    assert(a * t >= 0 && (a * t) * 1 <= (0x8000 * t) * s) by (nonlinear_arith)
        requires
            0 < a,
            2 * a <= 65535 * s,
            s > 0,
            t > 0,
    ;
    rounding::lemma_quotient_monotone(a * t, s, 0x8000 * t, 1, 0x100_0000, 0x7F80_0000);
    rounding::lemma_packed_range(a * t, s, 0x100_0000, 0x7F80_0000);
    rounding::lemma_packed_range(0x8000 * t, 1, 0x100_0000, 0x7F80_0000);
}

/// The steps of a number are off by a little more than a half.
proof fn lemma_steps_error(a: int, s: int, t: int, q: int, w: int)
    requires
        0 < a,
        0 < s,
        t == pow2(149),
        2 * a <= 65535 * s,
        q == rounding::rounded(a * t, s, 0x100_0000),
        q >= 0,
        w >= 0,
        2 * (w * t) <= 2 * q + t,
        2 * (w * t) >= 2 * q - t,
    ensures
        256 * (w * s - a) <= 129 * s,
        256 * (a - w * s) <= 129 * s,
        w <= 0x8000,
{
    let l: int = 0x100_0000;
    power2::lemma2_to64();
    rounding::lemma_small_power(64, 149);
    if a * t >= l * s {
        rounding::lemma_rounding_error(a * t, s, l);
        assert(l * (q * s) <= (a * t) * (l + 1));
        assert(l * (q * s) >= (a * t) * (l - 1));
        let at = a * t;
        let qs = q * s;
        let ws = w * s;
        let st = s * t;
        assert(st > 0) by (nonlinear_arith)
            requires
                st == s * t,
                s > 0,
                t > 0,
        ;
        assert(2 * at <= 65535 * st) by (nonlinear_arith)
            requires
                at == a * t,
                st == s * t,
                2 * a <= 65535 * s,
                t > 0,
        ;
        assert(2 * (ws * t) <= 2 * qs + st && 2 * (ws * t) >= 2 * qs - st) by (nonlinear_arith)
            requires
                2 * (w * t) <= 2 * q + t,
                2 * (w * t) >= 2 * q - t,
                s > 0,
                ws == w * s,
                qs == q * s,
                st == s * t,
        {
            assert((2 * (w * t)) * s <= (2 * q + t) * s);
            assert((2 * (w * t)) * s >= (2 * q - t) * s);
            assert((w * t) * s == (w * s) * t);
        }
        assert(l * qs <= at * l + at) by (nonlinear_arith)
            requires
                l * qs <= at * (l + 1),
        ;
        assert(l * qs >= at * l - at) by (nonlinear_arith)
            requires
                l * qs >= at * (l - 1),
        ;
        let up = ws * t;
        assert(256 * (up - at) <= 129 * st);
        assert(256 * (at - up) <= 129 * st);
        assert(256 * (ws - a) <= 129 * s) by (nonlinear_arith)
            requires
                256 * (up - at) <= 129 * st,
                up == ws * t,
                at == a * t,
                st == s * t,
                t > 0,
        ;
        assert(256 * (a - ws) <= 129 * s) by (nonlinear_arith)
            requires
                256 * (at - up) <= 129 * st,
                up == ws * t,
                at == a * t,
                st == s * t,
                t > 0,
        ;
        assert(w <= 0x8000) by (nonlinear_arith)
            requires
                256 * (ws - a) <= 129 * s,
                2 * a <= 65535 * s,
                ws == w * s,
                s > 0,
        ;
    } else {
        rounding::lemma_significand_bound(a * t, s, l);
        let g = rounding::significand(a * t, s, l);
        assert(g * 1 == g) by (nonlinear_arith);
        assert(q <= l);
        if w >= 1 {
            assert(w * t >= t) by (nonlinear_arith)
                requires
                    w >= 1,
                    t > 0,
            ;
        }
        assert(w * s == 0) by (nonlinear_arith)
            requires
                w == 0,
        ;
        assert(a <= s) by (nonlinear_arith)
            requires
                a * t < l * s,
                t > 4 * l,
                s > 0,
                a > 0,
                l > 0,
        ;
        assert(256 * a <= 129 * s) by (nonlinear_arith)
            requires
                a * t < l * s,
                t > 4 * l,
                s > 0,
                a > 0,
                l > 0,
        ;
    }
}

/// A number of steps times the scale is off by no more than the scale.
proof fn lemma_product_error(a: int, s: int, k: int, w: int, r: int)
    requires
        0 < a,
        0 < s,
        2 * a <= 65535 * s,
        0 <= w <= 0x8000,
        k == w || (k == 0x7FFF && w == 0x8000),
        256 * (w * s - a) <= 129 * s,
        256 * (a - w * s) <= 129 * s,
        0x100_0000 * r <= (k * s) * 0x100_0001,
        0x100_0000 * r >= (k * s) * 0xFF_FFFF,
    ensures
        r - a <= s,
        a - r <= s,
{
    let ks = k * s;
    assert(0 <= ks <= 0x8000 * s) by (nonlinear_arith)
        requires
            ks == k * s,
            0 <= k <= 0x8000,
            s > 0,
    ;
    if k != w {
        assert(ks == w * s - s) by (nonlinear_arith)
            requires
                ks == k * s,
                k == w - 1,
        ;
    }
}

/// A number that is not zero is read back within one step of the scale.
proof fn lemma_read_back(v: Single, scale: Single, m: int, e: i16)
    requires
        v.finite(),
        0 < scale.bits < 0x7F80_0000,
        0 < unsigned(v).value() <= m,
        2 * m <= 65535 * scale.value(),
        e == scaled(v, scale),
        restored(e, scale).finite(),
    ensures
        -scale.value() <= restored(e, scale).value() - v.value() <= scale.value(),
{
    let a = unsigned(v).value();
    let s = scale.value();
    let w = steps(v, scale);
    let c = if v.negative() || w < 0x7FFF {
        w
    } else {
        0x7FFF
    };
    crate::ieee::lemma_single_zero(v);
    lemma_number_error(v, scale, m);
    let r = rounding::rounded(c * s, 1, 0x100_0000);
    assert(r - a <= s && a - r <= s);
    assert(v.value() == (if v.negative() {
        -a
    } else {
        a
    }));
    if c == 0 {
        power2::lemma2_to64();
        assert(c * s == 0) by (nonlinear_arith)
            requires
                c == 0,
        ;
        rounding::lemma_small_exact(0, 0x100_0000);
        let q = rounding::significand(0, 1, 0x100_0000);
        let p = pow2(rounding::excess(0, 1, 0x100_0000)) as int;
        assert(q == 0);
        assert(q * p == 0) by (nonlinear_arith)
            requires
                q == 0,
        ;
        assert(r == q * p);
        assert((Single { bits: 0 }).value() == 0);
    } else {
        lemma_restored(e, c, scale);
    }
}

/// A number is not cut off by more than the scale: it is no further than that beyond the last number
/// of sixteen bits, as that one is read back.
pub open spec fn within_reach(v: Single, scale: Single) -> bool {
    let last: int = if v.negative() {
        0x8000
    } else {
        0x7FFF
    };
    unsigned(v).value() <= rounding::rounded(last * scale.value(), 1, 0x100_0000) + scale.value()
}

/// A number beyond the last one of sixteen bits is stored as the last one.
proof fn lemma_cut_off(v: Single, scale: Single)
    requires
        v.finite(),
        0 < scale.bits < 0x7F80_0000,
        2 * unsigned(v).value() > 65535 * scale.value(),
    ensures
        steps(v, scale) >= 0x8000,
{
    let t = pow2(149) as int;
    let h = pow2(148) as int;
    let half = Single { bits: 0x46FF_FF00 };
    let a = unsigned(v).value();
    let s = scale.value();
    power2::lemma2_to64();
    power2::lemma_pow2_pos(148);
    power2::lemma_pow2_unfold(149);
    power2::lemma_pow2_adds(8, 140);
    let p = pow2(140) as int;
    assert(0xFF_FF00 * p == 65535 * (pow2(8) * p)) by (nonlinear_arith)
        requires
            pow2(8) == 256,
    ;
    assert(half.value() == 65535 * h);
    crate::ieee::lemma_single_zero(v);
    crate::ieee::lemma_single_zero(unsigned(v));
    crate::ieee::lemma_single_zero(scale);
    arith::lemma_single_identity(half);
    assert(a * t >= 0 && (65535 * h) * s <= (a * t) * 1) by (nonlinear_arith)
        requires
            2 * a > 65535 * s,
            t == 2 * h,
            h > 0,
            s > 0,
    ;
    rounding::lemma_quotient_monotone(65535 * h, 1, a * t, s, 0x100_0000, 0x7F80_0000);
    rounding::lemma_packed_range(a * t, s, 0x100_0000, 0x7F80_0000);
    rounding::lemma_packed_range(65535 * h, 1, 0x100_0000, 0x7F80_0000);
    let quotient = arith::single_quotient_of(unsigned(v), scale);
    crate::ieee::lemma_single_order(quotient, half);
    let q = quotient.value();
    assert((2 * q + t) / (2 * t) >= 0x8000) by (nonlinear_arith)
        requires
            q >= 65535 * h,
            t == 2 * h,
            h > 0,
    ;
}

/// A number that is cut off by no more than the scale is read back within one step of it.
proof fn lemma_cut_off_read_back(v: Single, scale: Single, e: i16)
    requires
        v.finite(),
        0 < scale.bits < 0x7F80_0000,
        2 * unsigned(v).value() > 65535 * scale.value(),
        within_reach(v, scale),
        e == scaled(v, scale),
        restored(e, scale).finite(),
    ensures
        -scale.value() <= restored(e, scale).value() - v.value() <= scale.value(),
{
    let a = unsigned(v).value();
    let s = scale.value();
    let last: int = if v.negative() {
        0x8000
    } else {
        0x7FFF
    };
    crate::ieee::lemma_single_zero(v);
    crate::ieee::lemma_single_zero(scale);
    lemma_cut_off(v, scale);
    lemma_restored(e, last, scale);
    assert(last * s >= 0) by (nonlinear_arith)
        requires
            last >= 0,
            s > 0,
    ;
    let r = rounding::rounded(last * s, 1, 0x100_0000);
    rounding::lemma_rounding_error(last * s, 1, 0x100_0000);
    assert(r * 1 == r);
    assert(last * s <= 0x8000 * s) by (nonlinear_arith)
        requires
            last <= 0x8000,
            s > 0,
    ;
    assert(v.value() == (if v.negative() {
        -a
    } else {
        a
    }));
}

/// Every finite number that is not cut off by more than the scale, and that is read back as a finite
/// one, is read back within one step of the scale.
pub proof fn law_within_scale(values: Seq<Single>, i: int)
    requires
        0 <= i < values.len(),
        values[i].finite(),
        within_reach(values[i], scale_of(values)),
        restored(encoded(values)[i], scale_of(values)).finite(),
    ensures
        ({
            let s = scale_of(values).value();
            let back = restored(encoded(values)[i], scale_of(values)).value();
            -s <= back - values[i].value() <= s
        }),
{
    let v = values[i];
    let n = values.len() as int;
    let scale = scale_of(values);
    let max = largest(values, n);
    lemma_largest(values, n, i);
    lemma_scale(values);
    crate::ieee::lemma_single_zero(v);
    crate::ieee::lemma_single_zero(unsigned(v));
    crate::ieee::lemma_single_zero(scale);
    if max == 0 || v.value() == 0 {
        assert(encoded(values)[i] == 0);
        assert((Single { bits: 0 }).value() == 0);
        assert((Single { bits: 0x8000_0000 }).value() == 0);
    } else if scale.bits == 0 {
        lemma_no_reach(v, scale);
    } else if 2 * unsigned(v).value() <= 65535 * scale.value() {
        lemma_number_error(v, scale, unsigned(v).value());
        lemma_read_back(v, scale, unsigned(v).value(), encoded(values)[i]);
    } else {
        lemma_cut_off(v, scale);
        lemma_cut_off_read_back(v, scale, encoded(values)[i]);
    }
}

/// Nothing but zero is within reach of a scale of zero.
proof fn lemma_no_reach(v: Single, scale: Single)
    requires
        scale.bits == 0,
        within_reach(v, scale),
    ensures
        unsigned(v).value() <= 0,
{
    let last: int = if v.negative() {
        0x8000
    } else {
        0x7FFF
    };
    let s = scale.value();
    assert(s == 0);
    assert(last * s == 0) by (nonlinear_arith)
        requires
            s == 0,
    ;
    power2::lemma2_to64();
    rounding::lemma_small_exact(0, 0x100_0000);
}

/// What a number of steps is read back as.
proof fn lemma_restored(e: i16, c: int, scale: Single)
    requires
        0 < c <= 0x8000,
        e == c || e == -c,
        0 < scale.bits < 0x7F80_0000,
        restored(e, scale).finite(),
    ensures
        restored(e, scale).value() == (if e < 0 {
            -rounding::rounded(c * scale.value(), 1, 0x100_0000)
        } else {
            rounding::rounded(c * scale.value(), 1, 0x100_0000)
        }),
{
    let product = arith::single_product_of(arith::whole_single(c), scale);
    lemma_product_bits(c, scale);
    assert(unsigned(scale) == scale);
    assert(product.bits < 0x7F80_0000);
    lemma_product_value(c, scale);
}

proof fn lemma_product_bits(c: int, scale: Single)
    requires
        0 < c <= 0x8000,
        0 < scale.bits < 0x7F80_0000,
    ensures
        arith::single_product_of(arith::whole_single(c), scale).bits <= 0x7F80_0000,
{
    let t = pow2(149) as int;
    power2::lemma_pow2_pos(149);
    crate::ieee::lemma_single_zero(scale);
    arith::lemma_whole_range(c);
    crate::ieee::lemma_single_zero(arith::whole_single(c));
    let x = arith::whole_single(c).value();
    let s = scale.value();
    assert(x * s >= 0) by (nonlinear_arith)
        requires
            x >= 0,
            s >= 0,
    ;
    rounding::lemma_packed_range(x * s, t, 0x100_0000, 0x7F80_0000);
}

proof fn lemma_product_value(c: int, scale: Single)
    requires
        0 < c <= 0x8000,
        0 < scale.bits < 0x7F80_0000,
        arith::single_product_of(arith::whole_single(c), scale).bits < 0x7F80_0000,
    ensures
        arith::single_product_of(arith::whole_single(c), scale).value() == rounding::rounded(
            c * scale.value(),
            1,
            0x100_0000,
        ),
{
    let l: int = 0x100_0000;
    let t = pow2(149) as int;
    let s = scale.value();
    power2::lemma_pow2_pos(149);
    crate::ieee::lemma_single_zero(scale);
    arith::lemma_whole_range(c);
    assert(c * t >= 0) by (nonlinear_arith)
        requires
            c > 0,
            t > 0,
    ;
    arith::lemma_single_rounded_value(c * t, 1);
    rounding::lemma_shift_exact(c, 149, l);
    let x = arith::whole_single(c).value();
    assert(x == c * t);
    assert(x * s >= 0 && c * s >= 0 && (x * s) * 1 == (c * s) * t) by (nonlinear_arith)
        requires
            x == c * t,
            c > 0,
            t > 0,
            s >= 0,
    ;
    arith::lemma_single_rounded_value(x * s, t);
    rounding::lemma_equal_quotients(x * s, t, c * s, 1, l);
}

/// A scale that is not among the very smallest numbers cuts no number off.
pub proof fn law_ordinary_scales_reach(values: Seq<Single>, i: int)
    requires
        0 <= i < values.len(),
        values[i].finite(),
        scale_of(values).bits >= 0x80_0000,
    ensures
        within_reach(values[i], scale_of(values)),
{
    let v = values[i];
    let n = values.len() as int;
    let scale = scale_of(values);
    let s = scale.value();
    let last: int = if v.negative() {
        0x8000
    } else {
        0x7FFF
    };
    lemma_largest(values, n, i);
    lemma_scale(values);
    crate::ieee::lemma_single_zero(scale);
    crate::ieee::lemma_single_zero(unsigned(v));
    let top = Single { bits: largest(values, n) as u32 };
    crate::ieee::lemma_single_order(top, unsigned(v));
    crate::ieee::lemma_single_zero(top);
    assert(last * s >= 0x7FFF * s && last * s >= 0) by (nonlinear_arith)
        requires
            last >= 0x7FFF,
            s > 0,
    ;
    rounding::lemma_rounding_error(last * s, 1, 0x100_0000);
    let r = rounding::rounded(last * s, 1, 0x100_0000);
    assert(r * 1 == r);
    assert(last * s <= 0x8000 * s) by (nonlinear_arith)
        requires
            last <= 0x8000,
            s > 0,
    ;
    if largest(values, n) > 0 {
        lemma_ordinary_scales_fit(values);
    }
}

/// A scale that is not among the very smallest numbers keeps the largest number within sixteen
/// bits.
proof fn lemma_ordinary_scales_fit(values: Seq<Single>)
    requires
        largest(values, values.len() as int) > 0,
        scale_of(values).bits >= 0x80_0000,
    ensures
        fits(values),
{
    let l: int = 0x100_0000;
    let t = pow2(149) as int;
    let n = values.len() as int;
    let top = Single { bits: largest(values, n) as u32 };
    let scale = scale_of(values);
    let m = top.value();
    let s = scale.value();
    let c = Single { bits: LARGEST };
    power2::lemma_pow2_pos(149);
    power2::lemma2_to64();
    lemma_largest_finite(values, n);
    lemma_scale(values);
    lemma_largest_value();
    crate::ieee::lemma_single_zero(top);
    let least = Single { bits: 0x80_0000 };
    assert(least.value() == 0x80_0000) by {
        assert(0x80_0000 * 1 == 0x80_0000);
    }
    crate::ieee::lemma_single_order(scale, least);
    assert(m * t >= 0 && (m * t) * 32767 == m * (32767 * t)) by (nonlinear_arith)
        requires
            m >= 0,
            t > 0,
    ;
    arith::lemma_single_rounded_value(m * t, 32767 * t);
    rounding::lemma_equal_quotients(m * t, 32767 * t, m, 32767, l);
    if m >= l * 32767 {
        rounding::lemma_rounding_error(m, 32767, l);
        assert(l * (s * 32767) >= m * (l - 1));
    } else {
        let g = rounding::significand(m, 32767, l);
        assert(g * 1 == g) by (nonlinear_arith);
        assert(s == rounding::nearest_even(m, 32767));
        vstd::arithmetic::div_mod::lemma_fundamental_div_mod(m, 32767);
    }
}

} // verus!
