//! Differences of binary64 numbers.

use vstd::arithmetic::power2;
use vstd::arithmetic::power2::pow2;
use vstd::prelude::*;

use crate::arith;
use crate::ieee;
use crate::ieee::Double;
use crate::rounding;

verus! {

/// `a - b`, where that is not negative.
pub open spec fn difference_of(a: Double, b: Double) -> Double {
    arith::double(a.value() - b.value(), 1)
}

/// A full significand, shifted, less than a quarter of its last unit rounds to that number.
proof fn lemma_nearly_full(m: int, s: nat, rest: int)
    requires
        0x10_0000_0000_0000 <= m < 0x20_0000_0000_0000,
        0 < rest,
        4 * rest < pow2(s),
    ensures
        ({
            let limit = 0x20_0000_0000_0000int;
            let n = m * pow2(s) - rest;
            rounding::excess(n, 1, limit) * (limit / 2) + rounding::significand(n, 1, limit) == s * (
            limit / 2) + m
        }),
{
    let limit: int = 0x20_0000_0000_0000;
    let p = pow2(s) as int;
    let n = m * p - rest;
    power2::lemma2_to64();
    power2::lemma_pow2_pos(s);
    if s == 0 {
        assert(false);
    }
    let h = pow2((s - 1) as nat) as int;
    power2::lemma_pow2_unfold(s);
    power2::lemma_pow2_pos((s - 1) as nat);
    assert(1 * p == p);
    assert(1 * h == h);
    if m > 0x10_0000_0000_0000 {
        assert(limit * h <= n < limit * p) by (nonlinear_arith)
            requires
                n == m * p - rest,
                p == 2 * h,
                limit == 0x20_0000_0000_0000,
                0x10_0000_0000_0001 <= m < limit,
                0 < rest < p,
                h > 0,
        ;
        rounding::lemma_excess_shift(n, 1, limit, s);
        rounding::lemma_excess_step(n, h, limit);
        rounding::lemma_excess_shift(n, 1, limit, (s - 1) as nat);
        assert(rounding::excess(n, 1, limit) == s);
        assert(n == (m - 1) * p + (p - rest)) by (nonlinear_arith)
            requires
                n == m * p - rest,
        ;
        vstd::arithmetic::div_mod::lemma_fundamental_div_mod_converse(n, p, m - 1, p - rest);
    } else {
        if s == 1 {
            assert(false);
        }
        let g = pow2((s - 2) as nat) as int;
        power2::lemma_pow2_unfold((s - 1) as nat);
        power2::lemma_pow2_pos((s - 2) as nat);
        assert(1 * g == g);
        assert(limit * g <= n < limit * h) by (nonlinear_arith)
            requires
                n == m * p - rest,
                p == 2 * h,
                h == 2 * g,
                limit == 0x20_0000_0000_0000,
                m == 0x10_0000_0000_0000,
                0 < rest < p,
                g > 0,
        ;
        rounding::lemma_excess_shift(n, 1, limit, (s - 1) as nat);
        rounding::lemma_excess_step(n, g, limit);
        rounding::lemma_excess_shift(n, 1, limit, (s - 2) as nat);
        assert(rounding::excess(n, 1, limit) == s - 1);
        assert(n == (limit - 1) * h + (h - rest)) by (nonlinear_arith)
            requires
                n == m * p - rest,
                p == 2 * h,
                limit == 2 * m,
        ;
        vstd::arithmetic::div_mod::lemma_fundamental_div_mod_converse(n, h, limit - 1, h - rest);
    }
}

/// A number that is far smaller is lost in a difference.
proof fn lemma_far_apart(a: Double, ma: int, ea: int, b: Double, mb: int, eb: int)
    requires
        0 < a.bits < 0x7FF0_0000_0000_0000,
        0 <= eb,
        eb + 64 < ea,
        0x10_0000_0000_0000 <= ma < 0x20_0000_0000_0000,
        mb < 0x20_0000_0000_0000,
        a.value() * pow2(52) == ma * pow2(ea as nat),
        b.value() * pow2(52) == mb * pow2(eb as nat),
        b.value() > 0,
    ensures
        difference_of(a, b) == a,
{
    let limit: int = 0x20_0000_0000_0000;
    let s = (ea - 52) as nat;
    let u = pow2(52) as int;
    let p = pow2(s) as int;
    let q = pow2(eb as nat) as int;
    let va = a.value();
    let vb = b.value();
    power2::lemma2_to64();
    power2::lemma2_to64_rest();
    power2::lemma_pow2_adds(s, 52);
    assert(va == ma * p) by (nonlinear_arith)
        requires
            va * u == ma * (p * u),
            u > 0,
    ;
    power2::lemma_pow2_adds(eb as nat, 3);
    rounding::lemma_small_power((eb + 3) as nat, s);
    power2::lemma_pow2_pos(eb as nat);
    assert(4 * vb < p) by (nonlinear_arith)
        requires
            vb * u == mb * q,
            mb < 0x20_0000_0000_0000,
            u == 0x10_0000_0000_0000,
            q * 8 <= p,
            q > 0,
            vb >= 0,
    ;
    arith::lemma_identity(a);
    rounding::lemma_nearly_exact(ma, s, 0, limit);
    lemma_nearly_full(ma, s, vb);
}

/// Where a number is larger, so is its exponent, or it is the same.
proof fn lemma_exponents(va: int, ma: int, ea: nat, vb: int, mb: int, eb: nat)
    requires
        va > vb,
        ma < 0x20_0000_0000_0000,
        0x10_0000_0000_0000 <= mb,
        va * pow2(52) == ma * pow2(ea),
        vb * pow2(52) == mb * pow2(eb),
    ensures
        ea >= eb,
{
    if ea < eb {
        let u = pow2(52) as int;
        let p = pow2(ea) as int;
        let q = pow2(eb) as int;
        power2::lemma_pow2_pos(52);
        power2::lemma_pow2_pos(ea);
        power2::lemma_pow2_unfold((ea + 1) as nat);
        rounding::lemma_small_power((ea + 1) as nat, eb);
        assert(false) by (nonlinear_arith)
            requires
                va > vb,
                u > 0,
                va * u == ma * p,
                vb * u == mb * q,
                ma < 0x20_0000_0000_0000,
                mb >= 0x10_0000_0000_0000,
                2 * p <= q,
                p > 0,
        ;
    }
}

impl Double {
    /// `self - other`, where `self` is larger.
    pub(crate) fn less(&self, other: &Double) -> (r: Double)
        requires
            other.bits < self.bits < 0x7FF0_0000_0000_0000,
        ensures
            r == difference_of(*self, *other),
            r.bits <= 0x7FF0_0000_0000_0000,
    {
        if other.bits == 0 {
            proof {
                arith::lemma_identity(*self);
            }
            return *self;
        }
        let (ma, ea): (u64, i32) = self.unpack();
        let (mb, eb): (u64, i32) = other.unpack();
        proof {
            ieee::lemma_bits_order(*other, *self);
            lemma_exponents(
                self.value(),
                ma as int,
                ea as nat,
                other.value(),
                mb as int,
                eb as nat,
            );
        }
        if ea - eb > 64 {
            proof {
                lemma_far_apart(*self, ma as int, ea as int, *other, mb as int, eb as int);
            }
            return *self;
        }
        near(self, ma, ea, other, mb, eb)
    }
}

/// The difference of two numbers whose exponents are not far apart.
fn near(a: &Double, ma: u64, ea: i32, b: &Double, mb: u64, eb: i32) -> (r: Double)
    requires
        0 < a.bits < 0x7FF0_0000_0000_0000,
        0 < b.bits < 0x7FF0_0000_0000_0000,
        0 <= eb <= ea <= 2100,
        ea - eb <= 64,
        0x10_0000_0000_0000 <= ma < 0x20_0000_0000_0000,
        0x10_0000_0000_0000 <= mb < 0x20_0000_0000_0000,
        a.value() * pow2(52) == ma * pow2(ea as nat),
        b.value() * pow2(52) == mb * pow2(eb as nat),
        0 < b.value() < a.value(),
    ensures
        r == difference_of(*a, *b),
        r.bits <= 0x7FF0_0000_0000_0000,
{
    let diff: u32 = (ea - eb) as u32;
    let half: u32 = diff / 2;
    let left: u64 = arith::power(half);
    let right: u64 = arith::power(diff - half);
    proof {
        power2::lemma2_to64();
        rounding::lemma_small_power(half as nat, 32);
        rounding::lemma_small_power((diff - half) as nat, 32);
        let x = left as int;
        let y = right as int;
        assert(x * y <= 0x1_0000_0000 * 0x1_0000_0000) by (nonlinear_arith)
            requires
                0 <= x <= 0x1_0000_0000,
                0 <= y <= 0x1_0000_0000,
        ;
    }
    let p: u128 = left as u128 * right as u128;
    let ghost v = a.value() - b.value();
    proof {
        power2::lemma2_to64();
        power2::lemma2_to64_rest();
        power2::lemma_pow2_adds(half as nat, (diff - half) as nat);
        power2::lemma_pow2_adds(diff as nat, eb as nat);
        rounding::lemma_small_power(diff as nat, 64);
        let x = ma as int;
        let h = p as int;
        let z = mb as int;
        let q = pow2(eb as nat) as int;
        let u = pow2(52) as int;
        let va = a.value();
        let vb = b.value();
        power2::lemma_pow2_pos(eb as nat);
        assert(0 < x * h < 0x20_0000_0000_0000 * 0x1_0000_0000_0000_0001) by (nonlinear_arith)
            requires
                0 < x < 0x20_0000_0000_0000,
                0 < h <= 0x1_0000_0000_0000_0000,
        ;
        assert((va - vb) * u == (x * h - z) * q) by (nonlinear_arith)
            requires
                va * u == x * (h * q),
                vb * u == z * q,
        ;
        assert(x * h - z > 0) by (nonlinear_arith)
            requires
                (va - vb) * u == (x * h - z) * q,
                va - vb > 0,
                u > 0,
                q > 0,
        ;
    }
    let first: u128 = ma as u128 * p - mb as u128;
    let mut n: u128 = first;
    let mut k: i32 = 0;
    assert(first * 1 == first);
    while n < 0x20_0000_0000_0000
        invariant
            0 < first < 0x20_0000_0000_0000 * 0x1_0000_0000_0000_0001,
            first <= n,
            n < 0x40_0000_0000_0000 || n == first,
            0 <= k <= 53,
            n == first * pow2(k as nat),
            n >= pow2(k as nat),
            pow2(53) == 0x20_0000_0000_0000,
        decreases 54 - k,
    {
        proof {
            power2::lemma_pow2_unfold((k + 1) as nat);
            let f = first as int;
            let w = pow2(k as nat) as int;
            assert(2 * (f * w) == f * (2 * w)) by (nonlinear_arith);
        }
        n = 2 * n;
        k = k + 1;
    }
    let y: i32 = eb - 52 - k;
    proof {
        let f = first as int;
        let u = pow2(52) as int;
        assert(1 * u == u);
        arith::lemma_scaled_quotient(
            v,
            1,
            f,
            1,
            52,
            eb as nat,
            52,
            k as nat,
            y as int,
            0x20_0000_0000_0000,
        );
    }
    Double { bits: rounding::pack(n, 1, y, 0x20_0000_0000_0000, 0x7FF0_0000_0000_0000) }
}

} // verus!
