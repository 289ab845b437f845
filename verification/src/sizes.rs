//! Bet sizes as the engine reads them: percentages, parted by commas.

use vstd::arithmetic::power2;
use vstd::arithmetic::power2::pow2;
use vstd::prelude::*;

use crate::arith;
use crate::config::BetSizing;
use crate::ieee;
use crate::ieee::Double;
use crate::rounding;
use crate::signed;
use crate::text;

verus! {

/// The bit pattern of 0.000000001: numbers that are closer to an integer count as the integer.
pub const NEARLY: u64 = 0x3E11_2E0B_E826_D695;

/// The integer nearest to a number that is not negative, halves up.
pub open spec fn nearest(v: Double) -> int {
    rounding::nearest_away(v.value(), pow2(1074) as int)
}

/// Whether a number that is not negative counts as the integer nearest to it.
pub open spec fn nearly_whole(v: Double) -> bool {
    let d = v.value() - nearest(v) * pow2(1074);
    let t = (Double { bits: NEARLY }).value();
    -t < d < t
}

/// The integer that a number counts as, if it counts as one; the nearest that has sixty-four bits.
/// Halves are rounded away from zero. Infinities and NaNs count as no integer.
pub open spec fn whole_of(v: Double) -> Option<int> {
    let size = signed::size(v);
    if !signed::finite(v) || !nearly_whole(size) {
        None
    } else if v.negative() {
        Some(
            if nearest(size) > 0x8000_0000_0000_0000 {
                -0x8000_0000_0000_0000
            } else {
                -nearest(size)
            },
        )
    } else {
        Some(
            if nearest(size) > 0x7FFF_FFFF_FFFF_FFFF {
                0x7FFF_FFFF_FFFF_FFFF
            } else {
                nearest(size)
            },
        )
    }
}

/// The digits of a number.
pub open spec fn digits(n: nat) -> Seq<char>
    decreases n,
{
    let last = ('0' as int + n % 10) as char;
    if n < 10 {
        seq![last]
    } else {
        digits(n / 10).push(last)
    }
}

/// An integer with its sign.
pub open spec fn integer(n: int) -> Seq<char> {
    if n < 0 {
        seq!['-'] + digits((-n) as nat)
    } else {
        digits(n as nat)
    }
}

/// How a size is written: as an integer where it counts as one, else as it is shown.
pub open spec fn label(v: Double, shown: Seq<char>) -> Seq<char> {
    match whole_of(v) {
        Some(n) => integer(n),
        None => shown,
    }
}

/// The first `k` sizes, each as a percentage, with commas between.
pub open spec fn size_text(sizes: Seq<Double>, shown: Seq<String>, k: int) -> Seq<char>
    decreases k,
{
    if k <= 0 {
        Seq::empty()
    } else {
        let before = size_text(sizes, shown, k - 1);
        let this = label(sizes[k - 1], shown[k - 1]@).push('%');
        if k == 1 {
            this
        } else {
            before.push(',') + this
        }
    }
}

fn digit(d: u64) -> (c: char)
    requires
        d < 10,
    ensures
        c == ('0' as int + d) as char,
{
    (48u8 + d as u8) as char
}

/// Puts the digits of a number at the end of a string.
pub(crate) fn append_number(out: &mut String, n: u64)
    ensures
        final(out)@ == old(out)@ + digits(n as nat),
    decreases n,
{
    if n >= 10 {
        append_number(out, n / 10);
    }
    out.push(digit(n % 10));
    assert(out@ =~= old(out)@ + digits(n as nat));
}

fn append_integer(out: &mut String, n: i64)
    ensures
        final(out)@ == old(out)@ + integer(n as int),
{
    if n < 0 {
        out.push('-');
        append_number(out, (-(n as i128)) as u64);
        assert(out@ =~= old(out)@ + integer(n as int));
    } else {
        append_number(out, n as u64);
    }
}

/// The parts of a number that is at least one half: its significand over a power of two.
proof fn lemma_split(v: Double, b: nat, n: int)
    requires
        0x3FE0_0000_0000_0000 <= v.bits < 0x4330_0000_0000_0000,
        b == 1075 - v.exponent(),
    ensures
        ({
            let m = 0x10_0000_0000_0000 + v.fraction();
            let d = pow2(b) as int;
            let p = pow2((1074 - b) as nat) as int;
            &&& 1 <= b <= 53
            &&& p > 0
            &&& v.value() - n * pow2(1074) == (m - n * d) * p
            &&& nearest(v) == (2 * m + d) / (2 * d)
        }),
{
    let m = 0x10_0000_0000_0000 + v.fraction();
    let d = pow2(b) as int;
    let x = (1074 - b) as nat;
    let p = pow2(x) as int;
    power2::lemma_pow2_adds(x, b);
    power2::lemma_pow2_pos(x);
    power2::lemma_pow2_pos(b);
    let one = pow2(1074) as int;
    assert(one == p * d);
    assert(v.value() == m * p);
    assert(m * p - n * (p * d) == (m - n * d) * p) by (nonlinear_arith);
    assert(p * (2 * m + d) == 2 * (m * p) + p * d) by (nonlinear_arith);
    assert(p * (2 * d) == 2 * (p * d)) by (nonlinear_arith);
    arith::lemma_div_common(p, 2 * m + d, 2 * d);
}

/// The threshold in the units of a significand.
proof fn lemma_threshold(b: nat, diff: int)
    requires
        1 <= b <= 53,
    ensures
        ({
            let t = (Double { bits: NEARLY }).value();
            let p = pow2((1074 - b) as nat) as int;
            let q = pow2((82 - b) as nat) as int;
            &&& diff * p < t <==> diff * q < 0x11_2E0B_E826_D695
            &&& -t < diff * p <==> -0x11_2E0B_E826_D695 < diff * q
        }),
{
    let t = (Double { bits: NEARLY }).value();
    let p = pow2((1074 - b) as nat) as int;
    let q = pow2((82 - b) as nat) as int;
    let s = pow2(992) as int;
    power2::lemma_pow2_adds((82 - b) as nat, 992);
    power2::lemma_pow2_pos(992);
    assert(p == q * s);
    assert(t == 0x11_2E0B_E826_D695 * s);
    assert(diff * (q * s) == (diff * q) * s) by (nonlinear_arith);
    let y = diff * q;
    assert(y * s < 0x11_2E0B_E826_D695 * s <==> y < 0x11_2E0B_E826_D695) by (nonlinear_arith)
        requires
            s > 0,
    ;
    assert(-(0x11_2E0B_E826_D695 * s) < y * s <==> -0x11_2E0B_E826_D695 < y) by (nonlinear_arith)
        requires
            s > 0,
    ;
}

/// The integer nearest to a number that is not negative, if the number counts as it; two to the 63
/// stands for all above it.
fn whole_part(v: Double) -> (r: Option<u64>)
    requires
        v.bits < 0x7FF0_0000_0000_0000,
    ensures
        match r {
            Some(n) => nearly_whole(v) && n == (if nearest(v) > 0x8000_0000_0000_0000 {
                0x8000_0000_0000_0000
            } else {
                nearest(v)
            }),
            None => !nearly_whole(v),
        },
{
    proof {
        power2::lemma2_to64();
        power2::lemma2_to64_rest();
    }
    let exponent: u64 = v.bits / 0x10_0000_0000_0000;
    let m: u64 = 0x10_0000_0000_0000 + v.bits % 0x10_0000_0000_0000;
    if exponent < 1022 {
        proof {
            arith::lemma_below_half(
                v.exponent(),
                v.fraction(),
                0x10_0000_0000_0000,
                52,
                1023,
            );
            let one = pow2(1074) as int;
            assert(0 * one == 0) by (nonlinear_arith);
            ieee::lemma_zero_bits(v);
            ieee::lemma_zero_bits(Double { bits: NEARLY });
        }
        return if v.lt(&(Double { bits: NEARLY })) {
            Some(0)
        } else {
            None
        };
    }
    if exponent >= 1075 {
        proof {
            lemma_large(v);
        }
        return if exponent >= 1086 {
            Some(0x8000_0000_0000_0000)
        } else {
            Some(m * arith::power((exponent - 1075) as u32))
        };
    }
    let b: u32 = (1075 - exponent) as u32;
    let d: u64 = arith::power(b);
    let q: u128 = arith::power(20) as u128 * arith::power(62 - b) as u128;
    proof {
        rounding::lemma_small_power(b as nat, 53);
        power2::lemma_pow2_adds(20, (62 - b) as nat);
    }
    let n: u64 = (2 * m + d) / (2 * d);
    proof {
        lemma_split(v, b as nat, n as int);
        lemma_close(m as int, d as int);
        power2::lemma_pow2_adds(b as nat, (82 - b) as nat);
        power2::lemma_pow2_adds(41, 41);
    }
    let w: u64 = n * d;
    let diff: u64 = if m >= w {
        m - w
    } else {
        w - m
    };
    proof {
        let x = diff as int;
        let y = q as int;
        let z = d as int;
        assert(x * y <= z * y) by (nonlinear_arith)
            requires
                0 <= x <= z,
                0 <= y,
        ;
        lemma_threshold(b as nat, m - w);
        assert((-x) * y == -(x * y)) by (nonlinear_arith);
    }
    if diff as u128 * q < 0x11_2E0B_E826_D695 {
        Some(n)
    } else {
        None
    }
}

/// Numbers from two to the 52 on are integers.
proof fn lemma_large(v: Double)
    requires
        0x4330_0000_0000_0000 <= v.bits < 0x7FF0_0000_0000_0000,
    ensures
        nearly_whole(v),
        ({
            let m = 0x10_0000_0000_0000 + v.fraction();
            let p = pow2((v.exponent() - 1075) as nat) as int;
            &&& nearest(v) == m * p
            &&& p > 0
            &&& v.exponent() >= 1086 ==> m * p >= 0x8000_0000_0000_0000
            &&& v.exponent() < 1086 ==> m * p < 0x8000_0000_0000_0000
        }),
{
    let x = (v.exponent() - 1075) as nat;
    let m = 0x10_0000_0000_0000 + v.fraction();
    let p = pow2(x) as int;
    let t = pow2(1074) as int;
    power2::lemma2_to64();
    power2::lemma2_to64_rest();
    power2::lemma_pow2_pos(x);
    power2::lemma_pow2_pos(1074);
    power2::lemma_pow2_adds(x, 1074);
    assert(v.value() == m * (p * t));
    let n = m * p;
    assert(m * (p * t) == n * t) by (nonlinear_arith)
        requires
            n == m * p,
    ;
    assert(2 * (n * t) + t == n * (2 * t) + t) by (nonlinear_arith);
    assert(n >= 0) by (nonlinear_arith)
        requires
            n == m * p,
            m > 0,
            p > 0,
    ;
    vstd::arithmetic::div_mod::lemma_fundamental_div_mod_converse(2 * (n * t) + t, 2 * t, n, t);
    ieee::lemma_zero_bits(Double { bits: NEARLY });
    if v.exponent() >= 1086 {
        rounding::lemma_small_power(11, x);
        assert(n >= 0x8000_0000_0000_0000) by (nonlinear_arith)
            requires
                n == m * p,
                m >= 0x10_0000_0000_0000,
                p >= 0x800,
        ;
    } else {
        rounding::lemma_small_power(x, 10);
        assert(n < 0x8000_0000_0000_0000) by (nonlinear_arith)
            requires
                n == m * p,
                0 < m < 0x20_0000_0000_0000,
                0 < p <= 0x400,
        ;
    }
}

/// The nearest multiple is no further than the divisor.
proof fn lemma_close(m: int, d: int)
    requires
        0 < m < 0x20_0000_0000_0000,
        0 < d <= 0x20_0000_0000_0000,
    ensures
        ({
            let n = (2 * m + d) / (2 * d);
            &&& 0 <= n < 0x40_0000_0000_0000
            &&& 0 <= n * d < 0x40_0000_0000_0000
            &&& -d <= m - n * d <= d
        }),
{
    let n = (2 * m + d) / (2 * d);
    let r = (2 * m + d) % (2 * d);
    vstd::arithmetic::div_mod::lemma_fundamental_div_mod(2 * m + d, 2 * d);
    assert((2 * d) * n == 2 * (n * d)) by (nonlinear_arith);
    assert(0 <= n) by (nonlinear_arith)
        requires
            2 * m + d == 2 * (n * d) + r,
            r < 2 * d,
            m > 0,
            d > 0,
    ;
    assert(n <= n * d) by (nonlinear_arith)
        requires
            n >= 0,
            d >= 1,
    ;
}

/// The integer that a size counts as, if it counts as one.
pub fn whole_size(v: Double) -> (r: Option<i64>)
    ensures
        match r {
            Some(n) => whole_of(v) == Some(n as int),
            None => whole_of(v) is None,
        },
{
    let size: Double = Double { bits: v.bits % 0x8000_0000_0000_0000 };
    if size.bits >= 0x7FF0_0000_0000_0000 {
        return None;
    }
    match whole_part(size) {
        None => None,
        Some(n) => if v.bits >= 0x8000_0000_0000_0000 {
            Some((-(n as i128)) as i64)
        } else if n > 0x7FFF_FFFF_FFFF_FFFF {
            Some(0x7FFF_FFFF_FFFF_FFFF)
        } else {
            Some(n as i64)
        },
    }
}

/// Sizes as the engine reads them. `shown` is how the sizes are written that are no integers.
pub fn sizes_to_string(sizes: &Vec<Double>, shown: &Vec<String>) -> (r: String)
    requires
        shown@.len() == sizes@.len(),
    ensures
        r@ == size_text(sizes@, shown@, sizes@.len() as int),
{
    let mut out: String = String::new();
    assert(out@ =~= size_text(sizes@, shown@, 0));
    for i in 0..sizes.len()
        invariant
            shown@.len() == sizes@.len(),
            out@ == size_text(sizes@, shown@, i as int),
    {
        let ghost before = out@;
        if i > 0 {
            out.push(',');
        }
        match whole_size(sizes[i]) {
            Some(n) => append_integer(&mut out, n),
            None => text::append_str(&mut out, shown[i].as_str()),
        }
        out.push('%');
        assert(out@ =~= size_text(sizes@, shown@, i + 1));
    }
    out
}

/// A player's bets and raises on a street as the engine reads them.
#[derive(Debug, Clone, PartialEq, Eq)]
pub struct BetText {
    pub bet: String,
    pub raise: String,
}

/// A player's bets and raises on a street as the engine reads them.
pub fn bet_options(sizing: &BetSizing<Double>, shown: &BetSizing<String>) -> (r: BetText)
    requires
        shown.bet@.len() == sizing.bet@.len(),
        shown.raise@.len() == sizing.raise@.len(),
    ensures
        r.bet@ == size_text(sizing.bet@, shown.bet@, sizing.bet@.len() as int),
        r.raise@ == size_text(sizing.raise@, shown.raise@, sizing.raise@.len() as int),
{
    BetText {
        bet: sizes_to_string(&sizing.bet, &shown.bet),
        raise: sizes_to_string(&sizing.raise, &shown.raise),
    }
}

/// Donk bets as the engine reads them; none without sizes.
pub fn donk_options(sizes: &Vec<Double>, shown: &Vec<String>) -> (r: Option<String>)
    requires
        shown@.len() == sizes@.len(),
    ensures
        match r {
            None => sizes@.len() == 0,
            Some(t) => sizes@.len() > 0 && t@ == size_text(sizes@, shown@, sizes@.len() as int),
        },
{
    if sizes.len() == 0 {
        None
    } else {
        Some(sizes_to_string(sizes, shown))
    }
}

} // verus!
