//! Arithmetic on non-negative IEEE 754 numbers, rounded to nearest, halves to even.

use vstd::arithmetic::power2;
use vstd::arithmetic::power2::pow2;
use vstd::prelude::*;

use crate::ieee;
use crate::ieee::{Double, Single};
use crate::rounding;

verus! {

/// The binary64 number nearest to `n / d` of the smallest ones.
pub open spec fn double(n: int, d: int) -> Double {
    Double { bits: rounding::packed(n, d, 0x20_0000_0000_0000, 0x7FF0_0000_0000_0000) as u64 }
}

/// The binary32 number nearest to `n / d` of the smallest ones.
pub open spec fn single(n: int, d: int) -> Single {
    Single { bits: rounding::packed(n, d, 0x100_0000, 0x7F80_0000) as u32 }
}

/// `a + b`.
pub open spec fn sum_of(a: Double, b: Double) -> Double {
    double(a.value() + b.value(), 1)
}

/// `a / b`.
pub open spec fn quotient_of(a: Double, b: Double) -> Double {
    double(a.value() * pow2(1074), b.value())
}

/// `a * b`.
pub open spec fn product_of(a: Double, b: Double) -> Double {
    double(a.value() * b.value(), pow2(1074) as int)
}

/// A binary32 number as a binary64 number.
pub open spec fn widened(a: Single) -> Double {
    double(a.value() * pow2(925), 1)
}

/// An integer as a binary64 number.
pub open spec fn whole_double(n: int) -> Double {
    double(n * pow2(1074), 1)
}

/// An integer as a binary32 number.
pub open spec fn whole_single(n: int) -> Single {
    single(n * pow2(149), 1)
}

/// `a / b`, in binary32.
pub open spec fn single_quotient_of(a: Single, b: Single) -> Single {
    single(a.value() * pow2(149), b.value())
}

/// `a * b`, in binary32.
pub open spec fn single_product_of(a: Single, b: Single) -> Single {
    single(a.value() * b.value(), pow2(149) as int)
}

/// Two ways to write one quotient: `n / d`, and `m / c` times two to the `y`.
pub proof fn lemma_scaled_quotient(
    n: int,
    d: int,
    alpha: int,
    beta: int,
    p: nat,
    i: nat,
    j: nat,
    k: nat,
    y: int,
    limit: int,
)
    requires
        n > 0,
        d > 0,
        alpha > 0,
        beta > 0,
        limit >= 2,
        n * pow2(p) == alpha * pow2(i),
        d * pow2(p) == beta * pow2(j),
        y == i - j - k,
    ensures
        ({
            let m = rounding::raised(alpha * pow2(k), y);
            let c = rounding::raised(beta, -y);
            &&& rounding::excess(m, c, limit) == rounding::excess(n, d, limit)
            &&& rounding::significand(m, c, limit) == rounding::significand(n, d, limit)
        }),
{
    let up: nat = if y > 0 {
        y as nat
    } else {
        0
    };
    let down: nat = if y < 0 {
        (-y) as nat
    } else {
        0
    };
    let m = rounding::raised(alpha * pow2(k), y);
    let c = rounding::raised(beta, -y);
    power2::lemma2_to64();
    power2::lemma_pow2_pos(k);
    power2::lemma_pow2_pos(p);
    let pk = pow2(k) as int;
    let pu = pow2(up) as int;
    let pd = pow2(down) as int;
    let pi = pow2(i) as int;
    let pj = pow2(j) as int;
    let pp = pow2(p) as int;
    assert(alpha * pk > 0) by (nonlinear_arith)
        requires
            alpha > 0,
            pk > 0,
    ;
    rounding::lemma_raised_positive(alpha * pk, y);
    rounding::lemma_raised_positive(beta, -y);
    assert(m == (alpha * pk) * pu) by {
        assert((alpha * pk) * 1 == alpha * pk);
    }
    assert(c == beta * pd) by {
        assert(beta * 1 == beta);
    }
    power2::lemma_pow2_adds(k, up);
    power2::lemma_pow2_adds(k + up, j);
    power2::lemma_pow2_adds(i, down);
    assert(i + down == k + up + j);
    assert(pi * pd == pk * pu * pj);
    let ab = alpha * beta;
    assert((n * c) * pp == ab * (pi * pd)) by {
        assert((n * c) * pp == (n * pp) * c) by (nonlinear_arith);
        assert((alpha * pi) * (beta * pd) == ab * (pi * pd)) by (nonlinear_arith)
            requires
                ab == alpha * beta,
        ;
    }
    assert((m * d) * pp == ab * (pk * pu * pj)) by {
        assert((m * d) * pp == m * (d * pp)) by (nonlinear_arith);
        assert(((alpha * pk) * pu) * (beta * pj) == ab * (pk * pu * pj)) by (nonlinear_arith)
            requires
                ab == alpha * beta,
        ;
    }
    assert(n * c == m * d) by (nonlinear_arith)
        requires
            (n * c) * pp == (m * d) * pp,
            pp > 0,
    ;
    rounding::lemma_equal_quotients(n, d, m, c, limit);
}

/// A number as a full significand and a power of two, in units of `1 / unit` of the smallest.
fn unpack(bits: u64, unit: u64, width: u32) -> (r: (u64, i32))
    requires
        bits > 0,
        width == 23 || width == 52,
        unit == pow2(width as nat),
        bits / unit < 2048,
    ensures
        unit <= r.0 < 2 * unit,
        0 <= r.1 <= 2100,
        ieee::magnitude(bits as int / unit as int, bits as int % unit as int, unit as int) * unit
            == r.0 * pow2(r.1 as nat),
        ieee::magnitude(bits as int / unit as int, bits as int % unit as int, unit as int) > 0,
{
    proof {
        power2::lemma2_to64();
        power2::lemma2_to64_rest();
    }
    let exponent: u64 = bits / unit;
    let fraction: u64 = bits % unit;
    if exponent > 0 {
        proof {
            let x = (exponent - 1) as nat;
            power2::lemma_pow2_adds(x, width as nat);
            power2::lemma_pow2_pos(x);
            let a = (unit + fraction) as int;
            let p = pow2(x) as int;
            let u = unit as int;
            assert((a * p) * u == a * (p * u)) by (nonlinear_arith);
            assert(a * p > 0) by (nonlinear_arith)
                requires
                    a > 0,
                    p > 0,
            ;
        }
        (unit + fraction, exponent as i32 - 1 + width as i32)
    } else {
        let mut m: u64 = fraction;
        let mut e: i32 = width as i32;
        while m < unit
            invariant
                0 < m < 2 * unit,
                0 <= e <= width,
                unit == pow2(width as nat),
                width == 23 || width == 52,
                pow2(23) == 0x80_0000,
                pow2(52) == 0x10_0000_0000_0000,
                fraction > 0,
                fraction * unit == m * pow2(e as nat),
            decreases e,
        {
            proof {
                let f = fraction as int;
                let u = unit as int;
                let v = m as int;
                if e == 0 {
                    power2::lemma2_to64();
                    assert(v * 1 == v);
                    assert(f * u >= u) by (nonlinear_arith)
                        requires
                            f >= 1,
                            u >= 0,
                    ;
                }
                power2::lemma_pow2_unfold(e as nat);
                let p = pow2((e - 1) as nat) as int;
                assert(v * (2 * p) == (2 * v) * p) by (nonlinear_arith);
            }
            m = 2 * m;
            e = e - 1;
        }
        (m, e)
    }
}

impl Double {
    /// A number above zero as a full significand and a power of two.
    pub(crate) fn unpack(&self) -> (r: (u64, i32))
        requires
            0 < self.bits < 0x7FF0_0000_0000_0000,
        ensures
            0x10_0000_0000_0000 <= r.0 < 0x20_0000_0000_0000,
            0 <= r.1 <= 2100,
            self.value() * pow2(52) == r.0 * pow2(r.1 as nat),
            self.value() > 0,
    {
        proof {
            power2::lemma2_to64_rest();
        }
        unpack(self.bits, 0x10_0000_0000_0000, 52)
    }

    /// `self / other`.
    pub(crate) fn div(&self, other: &Double) -> (r: Double)
        requires
            0 < self.bits < 0x7FF0_0000_0000_0000,
            0 < other.bits < 0x7FF0_0000_0000_0000,
        ensures
            r == quotient_of(*self, *other),
            r.bits <= 0x7FF0_0000_0000_0000,
    {
        let (ma, ea): (u64, i32) = self.unpack();
        let (mb, eb): (u64, i32) = other.unpack();
        let y: i32 = ea - eb + 1008;
        proof {
            power2::lemma2_to64_rest();
            power2::lemma_pow2_adds(52, 14);
            power2::lemma2_to64();
            power2::lemma_pow2_adds(1074, ea as nat);
            power2::lemma_pow2_pos(1074);
            let v = self.value();
            let t = pow2(1074) as int;
            let u = pow2(52) as int;
            let m = ma as int;
            let w = pow2(ea as nat) as int;
            assert((v * t) * u == m * (t * w)) by (nonlinear_arith)
                requires
                    v * u == m * w,
            ;
            assert(v * t > 0) by (nonlinear_arith)
                requires
                    v > 0,
                    t > 0,
            ;
            lemma_scaled_quotient(
                v * t,
                other.value(),
                m,
                mb as int,
                52,
                (1074 + ea) as nat,
                eb as nat,
                66,
                y as int,
                0x20_0000_0000_0000,
            );
        }
        let n: u128 = ma as u128 * 0x4_0000_0000_0000_0000;
        Double { bits: rounding::pack(n, mb as u128, y, 0x20_0000_0000_0000, 0x7FF0_0000_0000_0000) }
    }

    /// `self * other`.
    pub(crate) fn mul(&self, other: &Double) -> (r: Double)
        requires
            0 < self.bits < 0x7FF0_0000_0000_0000,
            0 < other.bits < 0x7FF0_0000_0000_0000,
        ensures
            r == product_of(*self, *other),
            r.bits <= 0x7FF0_0000_0000_0000,
    {
        let (ma, ea): (u64, i32) = self.unpack();
        let (mb, eb): (u64, i32) = other.unpack();
        let y: i32 = ea + eb - 1178;
        proof {
            power2::lemma2_to64();
            power2::lemma_pow2_pos(1074);
            power2::lemma_pow2_adds(52, 52);
            power2::lemma_pow2_adds(1074, 104);
            power2::lemma_pow2_adds(ea as nat, eb as nat);
            let a = self.value();
            let b = other.value();
            let u = pow2(52) as int;
            let x = ma as int;
            let z = mb as int;
            let wa = pow2(ea as nat) as int;
            let wb = pow2(eb as nat) as int;
            assert((a * b) * (u * u) == (x * z) * (wa * wb)) by (nonlinear_arith)
                requires
                    a * u == x * wa,
                    b * u == z * wb,
            {
                assert((a * b) * (u * u) == (a * u) * (b * u));
                assert((x * wa) * (z * wb) == (x * z) * (wa * wb));
            }
            assert(a * b > 0) by (nonlinear_arith)
                requires
                    a > 0,
                    b > 0,
            ;
            assert(0x10_0000_0000_0000 * 0x10_0000_0000_0000 <= x * z < 0x20_0000_0000_0000
                * 0x20_0000_0000_0000) by (nonlinear_arith)
                requires
                    0x10_0000_0000_0000 <= x < 0x20_0000_0000_0000,
                    0x10_0000_0000_0000 <= z < 0x20_0000_0000_0000,
            ;
            assert((x * z) * 1 == x * z);
            lemma_scaled_quotient(
                a * b,
                pow2(1074) as int,
                x * z,
                1,
                104,
                (ea + eb) as nat,
                1178,
                0,
                y as int,
                0x20_0000_0000_0000,
            );
        }
        let n: u128 = ma as u128 * mb as u128;
        Double { bits: rounding::pack(n, 1, y, 0x20_0000_0000_0000, 0x7FF0_0000_0000_0000) }
    }
}

/// A number is its own rounding.
pub proof fn lemma_identity(a: Double)
    requires
        a.bits < 0x7FF0_0000_0000_0000,
    ensures
        double(a.value(), 1) == a,
{
    let unit: int = 0x10_0000_0000_0000;
    if a.exponent() == 0 {
        rounding::lemma_small_exact(a.value(), 2 * unit);
    } else {
        let s = (a.exponent() - 1) as nat;
        power2::lemma_pow2_pos(s);
        rounding::lemma_nearly_exact(unit + a.fraction(), s, 0, 2 * unit);
    }
}

impl Double {
    /// `self + other`.
    pub(crate) fn add(&self, other: &Double) -> (r: Double)
        requires
            self.bits < 0x7FF0_0000_0000_0000,
            other.bits < 0x7FF0_0000_0000_0000,
        ensures
            r == sum_of(*self, *other),
            r.bits <= 0x7FF0_0000_0000_0000,
    {
        if self.bits == 0 {
            proof {
                lemma_identity(*other);
            }
            return *other;
        }
        if other.bits == 0 {
            proof {
                lemma_identity(*self);
            }
            return *self;
        }
        let (ma, ea): (u64, i32) = self.unpack();
        let (mb, eb): (u64, i32) = other.unpack();
        if ea >= eb {
            add_ordered(self, ma, ea, other, mb, eb)
        } else {
            add_ordered(other, mb, eb, self, ma, ea)
        }
    }
}

/// The sum of two numbers of which the first has the larger exponent.
fn add_ordered(a: &Double, ma: u64, ea: i32, b: &Double, mb: u64, eb: i32) -> (r: Double)
    requires
        0 < a.bits < 0x7FF0_0000_0000_0000,
        0 < b.bits < 0x7FF0_0000_0000_0000,
        0 <= eb <= ea <= 2100,
        0x10_0000_0000_0000 <= ma < 0x20_0000_0000_0000,
        0x10_0000_0000_0000 <= mb < 0x20_0000_0000_0000,
        a.value() * pow2(52) == ma * pow2(ea as nat),
        b.value() * pow2(52) == mb * pow2(eb as nat),
        a.value() > 0,
        b.value() > 0,
    ensures
        r == sum_of(*a, *b),
        r.bits <= 0x7FF0_0000_0000_0000,
{
    let diff: i32 = ea - eb;
    if diff <= 64 {
        let mut high: u128 = ma as u128;
        proof {
            power2::lemma2_to64();
            assert(ma * 1 == ma);
        }
        for i in 0..diff
            invariant
                0 <= diff <= 64,
                0x10_0000_0000_0000 <= ma < 0x20_0000_0000_0000,
                high == ma * pow2(i as nat),
        {
            proof {
                power2::lemma_pow2_unfold((i + 1) as nat);
                rounding::lemma_small_power(i as nat, 64);
                power2::lemma2_to64();
                let m = ma as int;
                let p = pow2(i as nat) as int;
                assert(m * p < 0x20_0000_0000_0000 * 0x1_0000_0000_0000_0000) by (nonlinear_arith)
                    requires
                        0 <= m < 0x20_0000_0000_0000,
                        0 < p <= 0x1_0000_0000_0000_0000,
                ;
                assert(2 * (m * p) == m * (2 * p)) by (nonlinear_arith);
            }
            high = 2 * high;
        }
        proof {
            let m = ma as int;
            let p = pow2(diff as nat) as int;
            rounding::lemma_small_power(diff as nat, 64);
            power2::lemma2_to64();
            assert(m <= m * p < 0x20_0000_0000_0000 * 0x1_0000_0000_0000_0000 + 1) by (nonlinear_arith)
                requires
                    0 <= m < 0x20_0000_0000_0000,
                    0 < p <= 0x1_0000_0000_0000_0000,
            ;
        }
        let n: u128 = high + mb as u128;
        let y: i32 = eb - 52;
        proof {
            power2::lemma2_to64();
            power2::lemma2_to64_rest();
            let k = n as int;
            power2::lemma_pow2_adds(diff as nat, eb as nat);
            let u = pow2(52) as int;
            let va = a.value();
            let vb = b.value();
            let x = ma as int;
            let z = mb as int;
            let p = pow2(diff as nat) as int;
            let q = pow2(eb as nat) as int;
            assert((va + vb) * u == (x * p + z) * q) by (nonlinear_arith)
                requires
                    va * u == x * (p * q),
                    vb * u == z * q,
            ;
            assert(k * 1 == k);
            assert(1 * u == u);
            lemma_scaled_quotient(
                va + vb,
                1,
                k,
                1,
                52,
                eb as nat,
                52,
                0,
                y as int,
                0x20_0000_0000_0000,
            );
            if diff > 0 {
                power2::lemma_pow2_unfold(diff as nat);
                power2::lemma_pow2_pos((diff - 1) as nat);
                let h = pow2((diff - 1) as nat) as int;
                assert(x * (2 * h) >= 2 * x) by (nonlinear_arith)
                    requires
                        x >= 0,
                        h >= 1,
                ;
            } else {
                assert(x * 1 == x);
            }
        }
        Double { bits: rounding::pack(n, 1, y, 0x20_0000_0000_0000, 0x7FF0_0000_0000_0000) }
    } else {
        proof {
            lemma_identity(*a);
            lemma_far_apart(*a, ma as int, ea as int, *b, mb as int, eb as int);
        }
        *a
    }
}

/// A number that is far smaller is lost in a sum.
proof fn lemma_far_apart(a: Double, ma: int, ea: int, b: Double, mb: int, eb: int)
    requires
        0 < a.bits < 0x7FF0_0000_0000_0000,
        0 <= eb,
        eb + 64 < ea,
        0x10_0000_0000_0000 <= ma < 0x20_0000_0000_0000,
        mb < 0x20_0000_0000_0000,
        a.value() * pow2(52) == ma * pow2(ea as nat),
        b.value() * pow2(52) == mb * pow2(eb as nat),
        b.value() >= 0,
        double(a.value(), 1) == a,
    ensures
        sum_of(a, b) == a,
{
    let limit: int = 0x20_0000_0000_0000;
    let s = (ea - 52) as nat;
    let u = pow2(52) as int;
    let p = pow2(s) as int;
    let va = a.value();
    let vb = b.value();
    power2::lemma2_to64();
    power2::lemma2_to64_rest();
    power2::lemma_pow2_adds(s, 52);
    assert(va == ma * p) by (nonlinear_arith)
        requires
            va * u == ma * (p * u),
            u > 0,
    ;
    power2::lemma_pow2_adds(eb as nat, 2);
    rounding::lemma_small_power((eb + 2) as nat, s);
    let q = pow2(eb as nat) as int;
    power2::lemma_pow2_pos(eb as nat);
    assert(2 * vb < p) by (nonlinear_arith)
        requires
            vb * u == mb * q,
            mb < 0x20_0000_0000_0000,
            u == 0x10_0000_0000_0000,
            q * 4 <= p,
            q > 0,
            vb >= 0,
    ;
    power2::lemma_pow2_pos(s);
    rounding::lemma_nearly_exact(ma, s, 0, limit);
    rounding::lemma_nearly_exact(ma, s, vb, limit);
}

impl Single {
    /// A number above zero as a full significand and a power of two.
    pub(crate) fn unpack(&self) -> (r: (u64, i32))
        requires
            0 < self.bits < 0x7F80_0000,
        ensures
            0x80_0000 <= r.0 < 0x100_0000,
            0 <= r.1 <= 2100,
            self.value() * pow2(23) == r.0 * pow2(r.1 as nat),
            self.value() > 0,
    {
        proof {
            power2::lemma2_to64();
        }
        unpack(self.bits as u64, 0x80_0000, 23)
    }

    /// The same number in binary64.
    pub(crate) fn widen(&self) -> (r: Double)
        requires
            0 < self.bits < 0x7F80_0000,
        ensures
            r == widened(*self),
            r.bits <= 0x7FF0_0000_0000_0000,
    {
        let (m, e): (u64, i32) = self.unpack();
        let y: i32 = e + 872;
        proof {
            power2::lemma2_to64();
            power2::lemma_pow2_pos(925);
            power2::lemma_pow2_adds(925, e as nat);
            let v = self.value();
            let t = pow2(925) as int;
            let u = pow2(23) as int;
            let x = m as int;
            let w = pow2(e as nat) as int;
            assert((v * t) * u == x * (t * w)) by (nonlinear_arith)
                requires
                    v * u == x * w,
            ;
            assert(v * t > 0) by (nonlinear_arith)
                requires
                    v > 0,
                    t > 0,
            ;
            assert(1 * u == u);
            lemma_scaled_quotient(
                v * t,
                1,
                x,
                1,
                23,
                (925 + e) as nat,
                23,
                30,
                y as int,
                0x20_0000_0000_0000,
            );
        }
        let n: u128 = m as u128 * 0x4000_0000;
        Double { bits: rounding::pack(n, 1, y, 0x20_0000_0000_0000, 0x7FF0_0000_0000_0000) }
    }

    /// An integer above zero.
    pub(crate) fn from_whole(n: u64) -> (r: Single)
        requires
            n > 0,
        ensures
            r == whole_single(n as int),
            r.bits <= 0x7F80_0000,
    {
        proof {
            power2::lemma2_to64();
            power2::lemma_pow2_pos(149);
            let a = n as int;
            let t = pow2(149) as int;
            assert((a * t) * 1 == a * t);
            assert(a * t > 0) by (nonlinear_arith)
                requires
                    a > 0,
                    t > 0,
            ;
            assert(1int * 1 == 1);
            lemma_scaled_quotient(a * t, 1, a, 1, 0, 149, 0, 24, 125, 0x100_0000);
        }
        let k: u128 = n as u128 * 0x100_0000;
        Single { bits: rounding::pack(k, 1, 125, 0x100_0000, 0x7F80_0000) as u32 }
    }

    /// `self / other`.
    pub(crate) fn div(&self, other: &Single) -> (r: Single)
        requires
            0 < self.bits < 0x7F80_0000,
            0 < other.bits < 0x7F80_0000,
        ensures
            r == single_quotient_of(*self, *other),
            r.bits <= 0x7F80_0000,
    {
        let (ma, ea): (u64, i32) = self.unpack();
        let (mb, eb): (u64, i32) = other.unpack();
        let y: i32 = ea - eb + 109;
        proof {
            power2::lemma2_to64();
            power2::lemma2_to64_rest();
            power2::lemma_pow2_adds(149, ea as nat);
            power2::lemma_pow2_pos(149);
            let v = self.value();
            let t = pow2(149) as int;
            let u = pow2(23) as int;
            let m = ma as int;
            let w = pow2(ea as nat) as int;
            assert((v * t) * u == m * (t * w)) by (nonlinear_arith)
                requires
                    v * u == m * w,
            ;
            assert(v * t > 0) by (nonlinear_arith)
                requires
                    v > 0,
                    t > 0,
            ;
            lemma_scaled_quotient(
                v * t,
                other.value(),
                m,
                mb as int,
                23,
                (149 + ea) as nat,
                eb as nat,
                40,
                y as int,
                0x100_0000,
            );
        }
        let n: u128 = ma as u128 * 0x100_0000_0000;
        Single { bits: rounding::pack(n, mb as u128, y, 0x100_0000, 0x7F80_0000) as u32 }
    }

    /// `self * other`.
    pub(crate) fn mul(&self, other: &Single) -> (r: Single)
        requires
            0 < self.bits < 0x7F80_0000,
            0 < other.bits < 0x7F80_0000,
        ensures
            r == single_product_of(*self, *other),
            r.bits <= 0x7F80_0000,
    {
        let (ma, ea): (u64, i32) = self.unpack();
        let (mb, eb): (u64, i32) = other.unpack();
        let y: i32 = ea + eb - 195;
        proof {
            power2::lemma2_to64();
            power2::lemma_pow2_pos(149);
            power2::lemma_pow2_adds(23, 23);
            power2::lemma_pow2_adds(149, 46);
            power2::lemma_pow2_adds(ea as nat, eb as nat);
            let a = self.value();
            let b = other.value();
            let u = pow2(23) as int;
            let x = ma as int;
            let z = mb as int;
            let wa = pow2(ea as nat) as int;
            let wb = pow2(eb as nat) as int;
            assert((a * b) * (u * u) == (x * z) * (wa * wb)) by (nonlinear_arith)
                requires
                    a * u == x * wa,
                    b * u == z * wb,
            {
                assert((a * b) * (u * u) == (a * u) * (b * u));
                assert((x * wa) * (z * wb) == (x * z) * (wa * wb));
            }
            assert(a * b > 0) by (nonlinear_arith)
                requires
                    a > 0,
                    b > 0,
            ;
            assert(0x80_0000 * 0x80_0000 <= x * z < 0x100_0000 * 0x100_0000) by (nonlinear_arith)
                requires
                    0x80_0000 <= x < 0x100_0000,
                    0x80_0000 <= z < 0x100_0000,
            ;
            assert((x * z) * 1 == x * z);
            lemma_scaled_quotient(
                a * b,
                pow2(149) as int,
                x * z,
                1,
                46,
                (ea + eb) as nat,
                195,
                0,
                y as int,
                0x100_0000,
            );
        }
        let n: u128 = ma as u128 * mb as u128;
        Single { bits: rounding::pack(n, 1, y, 0x100_0000, 0x7F80_0000) as u32 }
    }
}

pub(crate) fn power(k: u32) -> (p: u64)
    requires
        k <= 62,
    ensures
        p == pow2(k as nat),
        0 < p <= 0x4000_0000_0000_0000,
{
    proof {
        power2::lemma2_to64();
        power2::lemma2_to64_rest();
    }
    let mut p: u64 = 1;
    for i in 0..k
        invariant
            k <= 62,
            p == pow2(i as nat),
            pow2(62) == 0x4000_0000_0000_0000,
    {
        proof {
            power2::lemma_pow2_unfold((i + 1) as nat);
            rounding::lemma_small_power((i + 1) as nat, 62);
        }
        p = 2 * p;
    }
    proof {
        rounding::lemma_small_power(k as nat, 62);
    }
    p
}

/// A common factor does not change a quotient, and is a factor of the remainder.
pub proof fn lemma_div_common(a: int, x: int, y: int)
    requires
        a > 0,
        y > 0,
    ensures
        (a * x) / (a * y) == x / y,
        (a * x) % (a * y) == a * (x % y),
        a * y > 0,
{
    let q = x / y;
    let r = x % y;
    vstd::arithmetic::div_mod::lemma_fundamental_div_mod(x, y);
    assert(a * x == q * (a * y) + a * r) by (nonlinear_arith)
        requires
            x == y * q + r,
    ;
    assert(0 <= a * r < a * y) by (nonlinear_arith)
        requires
            0 <= r < y,
            a > 0,
    ;
    vstd::arithmetic::div_mod::lemma_fundamental_div_mod_converse(a * x, a * y, q, a * r);
}

/// The integer nearest to a number, halves away from zero, but no more than `cap`.
///
/// `bias` is the exponent of one, and two to the `top` is beyond `cap`.
pub(crate) fn round_away(bits: u64, unit: u64, width: u32, bias: u64, top: u64, cap: u64) -> (r: u64)
    requires
        (width == 23 && bias == 127 && top == 16) || (width == 52 && bias == 1023 && top == 32),
        unit == pow2(width as nat),
        cap < pow2(top as nat),
    ensures
        ({
            let m = ieee::magnitude(
                bits as int / unit as int,
                bits as int % unit as int,
                unit as int,
            );
            let w = rounding::nearest_away(m, pow2((bias - 1 + width) as nat) as int);
            r == if w < cap {
                w
            } else {
                cap as int
            }
        }),
{
    proof {
        power2::lemma2_to64();
        power2::lemma2_to64_rest();
    }
    let exponent: u64 = bits / unit;
    let fraction: u64 = bits % unit;
    let ghost one = pow2((bias - 1 + width) as nat) as int;
    let ghost m = ieee::magnitude(exponent as int, fraction as int, unit as int);
    if exponent < bias - 1 {
        proof {
            lemma_below_half(
                exponent as int,
                fraction as int,
                unit as int,
                width as nat,
                bias as int,
            );
        }
        return 0;
    }
    proof {
        power2::lemma_pow2_pos((exponent - 1) as nat);
    }
    if exponent >= bias + top {
        proof {
            let x = (exponent - 1) as nat;
            power2::lemma_pow2_adds((bias - 1 + width) as nat, top as nat);
            power2::lemma_pow2_adds((bias - 1 + top) as nat, width as nat);
            rounding::lemma_small_power((bias - 1 + top) as nat, x);
            let u = unit as int;
            let f = fraction as int;
            let p = pow2(x) as int;
            let h = pow2((bias - 1 + top) as nat) as int;
            let t = pow2(top as nat) as int;
            assert((u + f) * p >= h * u) by (nonlinear_arith)
                requires
                    p >= h,
                    h >= 0,
                    f >= 0,
                    u >= 0,
            ;
            assert(m >= one * t);
            power2::lemma_pow2_pos((bias - 1 + width) as nat);
            assert((2 * m + one) / (2 * one) >= t) by (nonlinear_arith)
                requires
                    m >= one * t,
                    one > 0,
            ;
        }
        return cap;
    }
    let b: u32 = (width as u64 + bias - exponent) as u32;
    let d: u64 = power(b);
    let s: u64 = unit + fraction;
    proof {
        let x = (exponent - 1) as nat;
        power2::lemma_pow2_adds(x, b as nat);
        let a = pow2(x) as int;
        let k = s as int;
        let c = d as int;
        assert(a * c == one);
        rounding::lemma_small_power(b as nat, 53);
        lemma_div_common(a, 2 * k + c, 2 * c);
        assert(a * (2 * k + c) == 2 * (k * a) + a * c) by (nonlinear_arith);
        assert(a * (2 * c) == 2 * (a * c)) by (nonlinear_arith);
    }
    let w: u64 = (2 * s + d) / (2 * d);
    if w < cap {
        w
    } else {
        cap
    }
}

/// A number below one half rounds to nothing.
pub proof fn lemma_below_half(exponent: int, fraction: int, unit: int, width: nat, bias: int)
    requires
        0 <= exponent < bias - 1,
        0 <= fraction < unit,
        unit == pow2(width),
        bias >= 3,
    ensures
        rounding::nearest_away(
            ieee::magnitude(exponent, fraction, unit),
            pow2((bias - 1 + width) as nat) as int,
        ) == 0,
{
    let one = pow2((bias - 1 + width) as nat) as int;
    let m = ieee::magnitude(exponent, fraction, unit);
    let x: nat = if exponent > 0 {
        (exponent - 1) as nat
    } else {
        0
    };
    power2::lemma2_to64();
    power2::lemma_pow2_pos(x);
    let p = pow2(x) as int;
    assert(0 <= m < (2 * unit) * p) by (nonlinear_arith)
        requires
            m == (unit + fraction) * p || (m == fraction && p >= 1),
            0 <= fraction < unit,
            p > 0,
    ;
    power2::lemma_pow2_unfold(width + 1);
    power2::lemma_pow2_adds(x, width + 1);
    assert((2 * unit) * p == p * (2 * unit)) by (nonlinear_arith);
    power2::lemma_pow2_unfold((x + width + 2) as nat);
    rounding::lemma_small_power((x + width + 2) as nat, (bias - 1 + width) as nat);
    assert(2 * m < one);
    vstd::arithmetic::div_mod::lemma_fundamental_div_mod_converse(
        2 * m + one,
        2 * one,
        0,
        2 * m + one,
    );
}

/// The amount of chips that a number of big blinds is: a hundred times as many, rounded to a
/// whole number, halves away from zero, and kept within 32 bits. A NaN is no chips.
pub open spec fn chips_of(d: Double) -> int {
    let hundred = Double { bits: 0x4059_0000_0000_0000 };
    let a = Double { bits: d.abs_bits() as u64 };
    let whole = if d.infinite() {
        0x8000_0000
    } else {
        rounding::nearest_away(product_of(a, hundred).value(), pow2(1074) as int)
    };
    if d.nan() {
        0
    } else if d.negative() {
        if whole < 0x8000_0000 {
            -whole
        } else {
            -0x8000_0000
        }
    } else if whole < 0x7FFF_FFFF {
        whole
    } else {
        0x7FFF_FFFF
    }
}

/// The chips of a number of big blinds.
pub fn chips(d: Double) -> (r: i32)
    ensures
        r == chips_of(d),
{
    let a: Double = Double { bits: d.bits % 0x8000_0000_0000_0000 };
    let hundred: Double = Double { bits: 0x4059_0000_0000_0000 };
    if a.bits > 0x7FF0_0000_0000_0000 {
        return 0;
    }
    proof {
        power2::lemma2_to64();
        power2::lemma2_to64_rest();
    }
    let product: Double = if a.bits == 0 {
        proof {
            assert(a.value() == 0);
            lemma_identity(a);
            power2::lemma_pow2_pos(1074);
            lemma_zero(pow2(1074) as int, 0x20_0000_0000_0000);
            assert(a.value() * hundred.value() == 0) by (nonlinear_arith)
                requires
                    a.value() == 0,
            ;
        }
        a
    } else if a.bits == 0x7FF0_0000_0000_0000 {
        a
    } else {
        a.mul(&hundred)
    };
    if d.bits >= 0x8000_0000_0000_0000 {
        let whole: u64 = if a.bits == 0x7FF0_0000_0000_0000 {
            0x8000_0000
        } else {
            round_away(product.bits, 0x10_0000_0000_0000, 52, 1023, 32, 0x8000_0000)
        };
        (-(whole as i64)) as i32
    } else {
        let whole: u64 = if a.bits == 0x7FF0_0000_0000_0000 {
            0x7FFF_FFFF
        } else {
            round_away(product.bits, 0x10_0000_0000_0000, 52, 1023, 32, 0x7FFF_FFFF)
        };
        whole as i32
    }
}

/// Nothing rounds to nothing.
pub proof fn lemma_zero(d: int, limit: int)
    requires
        d > 0,
        limit >= 2,
    ensures
        rounding::packed(0, d, limit, 0x7FF0_0000_0000_0000) == 0,
        rounding::packed(0, d, limit, 0x7F80_0000) == 0,
{
    power2::lemma2_to64();
    assert(limit * d > 0) by (nonlinear_arith)
        requires
            limit > 0,
            d > 0,
    ;
    assert(d * 1 == d);
    vstd::arithmetic::div_mod::lemma_fundamental_div_mod_converse(0, d, 0, 0);
    let e = rounding::excess(0, d, limit) as int;
    let h = limit / 2;
    assert(e * h == 0) by (nonlinear_arith)
        requires
            e == 0,
    ;
}

/// The binary32 number of big blinds that an amount of chips is: the amount as a binary32 number,
/// divided by 100.
pub open spec fn big_blinds_of(amount: int) -> Single {
    let a = if amount < 0 {
        -amount
    } else {
        amount
    };
    let q = if amount == 0 {
        Single { bits: 0 }
    } else {
        single_quotient_of(whole_single(a), Single { bits: 0x42C8_0000 })
    };
    if amount < 0 {
        Single { bits: (q.bits + 0x8000_0000) as u32 }
    } else {
        q
    }
}

/// An amount of chips in big blinds.
pub fn big_blinds(amount: i32) -> (r: Single)
    ensures
        r == big_blinds_of(amount as int),
{
    if amount == 0 {
        return Single { bits: 0 };
    }
    let a: u64 = if amount < 0 {
        (-(amount as i64)) as u64
    } else {
        amount as u64
    };
    let whole: Single = Single::from_whole(a);
    proof {
        lemma_whole_range(a as int);
    }
    let q: Single = whole.div(&Single { bits: 0x42C8_0000 });
    if amount < 0 {
        Single { bits: q.bits + 0x8000_0000 }
    } else {
        q
    }
}

/// Integers of 64 bits are ordinary numbers.
pub proof fn lemma_whole_range(n: int)
    requires
        0 < n < 0x1_0000_0000_0000_0000,
    ensures
        0 < whole_single(n).bits < 0x7F80_0000,
{
    let limit: int = 0x100_0000;
    let t = pow2(149) as int;
    power2::lemma2_to64();
    power2::lemma_pow2_adds(64, 149);
    power2::lemma_pow2_adds(24, 190);
    power2::lemma_pow2_adds(23, 126);
    power2::lemma_pow2_pos(149);
    power2::lemma_pow2_pos(190);
    power2::lemma_pow2_pos(126);
    assert(n * t < pow2(64) * t) by (nonlinear_arith)
        requires
            n < pow2(64),
            t > 0,
    ;
    rounding::lemma_small_power(213, 214);
    assert(limit * 1 * pow2(190) == pow2(24) * pow2(190));
    rounding::lemma_excess_bound(n * t, 1, limit, 190);
    rounding::lemma_significand_bound(n * t, 1, limit);
    assert(n * t >= t) by (nonlinear_arith)
        requires
            n >= 1,
            t > 0,
    ;
    let h = pow2(126) as int;
    assert(t == 0x80_0000 * h);
    power2::lemma_pow2_adds(24, 125);
    power2::lemma_pow2_pos(125);
    assert(t == limit * pow2(125));
    assert(1 * pow2(125) == pow2(125));
    rounding::lemma_excess_shift(n * t, 1, limit, 125);
    rounding::lemma_excess_step(n * t, pow2(125) as int, limit);
}

impl Double {
    /// The whole part of a number below 65536.
    pub(crate) fn floor(&self) -> (r: u16)
        requires
            self.bits < 0x40F0_0000_0000_0000,
        ensures
            r == self.value() / pow2(1074) as int,
    {
        let exponent: u64 = self.bits / 0x10_0000_0000_0000;
        proof {
            power2::lemma2_to64();
            power2::lemma2_to64_rest();
        }
        if exponent < 1023 {
            proof {
                lemma_below_one(*self);
            }
            return 0;
        }
        let b: u32 = (1075 - exponent) as u32;
        let d: u64 = power(b);
        let m: u64 = 0x10_0000_0000_0000 + self.bits % 0x10_0000_0000_0000;
        proof {
            lemma_parts(*self, b as nat);
            lemma_small_quotient(m as int, d as int, b as nat);
        }
        (m / d) as u16
    }

    /// What is left of a number below 65536 without its whole part.
    pub(crate) fn fract(&self) -> (r: Double)
        requires
            self.bits < 0x40F0_0000_0000_0000,
        ensures
            r == double(self.value() % pow2(1074) as int, 1),
            r.bits < 0x7FF0_0000_0000_0000,
    {
        let exponent: u64 = self.bits / 0x10_0000_0000_0000;
        proof {
            power2::lemma2_to64();
            power2::lemma2_to64_rest();
        }
        if exponent < 1023 {
            proof {
                lemma_below_one(*self);
                lemma_identity(*self);
            }
            return *self;
        }
        let b: u32 = (1075 - exponent) as u32;
        let d: u64 = power(b);
        let m: u64 = 0x10_0000_0000_0000 + self.bits % 0x10_0000_0000_0000;
        let rest: u64 = m % d;
        proof {
            lemma_parts(*self, b as nat);
            lemma_fract_is_finite(self.value());
        }
        if rest == 0 {
            proof {
                let a = pow2((exponent - 1) as nat) as int;
                assert(a * 0 == 0) by (nonlinear_arith);
                lemma_zero(1, 0x20_0000_0000_0000);
            }
            return Double { bits: 0 };
        }
        let y: i32 = exponent as i32 - 54;
        proof {
            let x = (exponent - 1) as nat;
            let a = pow2(x) as int;
            let r = rest as int;
            power2::lemma_pow2_pos(x);
            assert(a * r == r * a) by (nonlinear_arith);
            assert(r * a > 0) by (nonlinear_arith)
                requires
                    r > 0,
                    a > 0,
            ;
            assert((r * a) * 1 == r * a);
            assert(1int * 1 == 1);
            lemma_scaled_quotient(r * a, 1, r, 1, 0, x, 0, 53, y as int, 0x20_0000_0000_0000);
            rounding::lemma_small_power(b as nat, 52);
        }
        let n: u128 = rest as u128 * 0x20_0000_0000_0000;
        Double { bits: rounding::pack(n, 1, y, 0x20_0000_0000_0000, 0x7FF0_0000_0000_0000) }
    }
}

proof fn lemma_below_one(a: Double)
    requires
        a.bits < 0x3FF0_0000_0000_0000,
    ensures
        a.value() / pow2(1074) as int == 0,
        a.value() % pow2(1074) as int == a.value(),
        0 <= a.value() < pow2(1074),
{
    let one = Double { bits: 0x3FF0_0000_0000_0000 };
    lemma_one();
    ieee::lemma_bits_order(a, one);
    vstd::arithmetic::div_mod::lemma_fundamental_div_mod_converse(
        a.value(),
        pow2(1074) as int,
        0,
        a.value(),
    );
}

/// One is two to the 1074 of the smallest numbers.
pub proof fn lemma_one()
    ensures
        (Double { bits: 0x3FF0_0000_0000_0000 }).value() == pow2(1074),
{
    power2::lemma2_to64_rest();
    power2::lemma_pow2_adds(52, 1022);
}

/// The whole part and the rest of a number that is at least one.
proof fn lemma_parts(a: Double, b: nat)
    requires
        0x3FF0_0000_0000_0000 <= a.bits < 0x40F0_0000_0000_0000,
        b == 1075 - a.exponent(),
    ensures
        ({
            let m = 0x10_0000_0000_0000 + a.fraction();
            let d = pow2(b) as int;
            let p = pow2((a.exponent() - 1) as nat) as int;
            &&& 37 <= b <= 52
            &&& a.value() / pow2(1074) as int == m / d
            &&& a.value() % pow2(1074) as int == p * (m % d)
        }),
{
    let m = 0x10_0000_0000_0000 + a.fraction();
    let d = pow2(b) as int;
    let x = (a.exponent() - 1) as nat;
    let p = pow2(x) as int;
    power2::lemma_pow2_adds(x, b);
    power2::lemma_pow2_pos(x);
    power2::lemma_pow2_pos(b);
    assert(m * p == p * m) by (nonlinear_arith);
    lemma_div_common(p, m, d);
}

proof fn lemma_small_quotient(m: int, d: int, b: nat)
    requires
        0 <= m < 0x20_0000_0000_0000,
        d == pow2(b),
        b >= 37,
    ensures
        0 <= m / d <= 0xFFFF,
{
    power2::lemma2_to64_rest();
    rounding::lemma_small_power(37, b);
    assert(0 <= m / d <= 0xFFFF) by (nonlinear_arith)
        requires
            0 <= m < 0x20_0000_0000_0000,
            d >= 0x20_0000_0000,
    ;
}

/// What is left of a number without its whole part is below one.
pub proof fn lemma_fract_is_finite(v: int)
    ensures
        double(v % pow2(1074) as int, 1).bits <= 0x3FF0_0000_0000_0000,
{
    let one = Double { bits: 0x3FF0_0000_0000_0000 };
    power2::lemma_pow2_pos(1074);
    lemma_one();
    lemma_identity(one);
    rounding::lemma_packed_range(
        v % pow2(1074) as int,
        1,
        0x20_0000_0000_0000,
        0x7FF0_0000_0000_0000,
    );
    rounding::law_rounding_is_monotone(
        v % pow2(1074) as int,
        pow2(1074) as int,
        1,
        0x20_0000_0000_0000,
        0x7FF0_0000_0000_0000,
    );
}

impl Double {
    /// An integer above zero.
    pub(crate) fn from_whole(n: u64) -> (r: Double)
        requires
            n > 0,
        ensures
            r == whole_double(n as int),
            r.bits <= 0x7FF0_0000_0000_0000,
    {
        proof {
            power2::lemma2_to64();
            power2::lemma2_to64_rest();
            power2::lemma_pow2_pos(1074);
            let a = n as int;
            let t = pow2(1074) as int;
            assert((a * t) * 1 == a * t);
            assert(a * t > 0) by (nonlinear_arith)
                requires
                    a > 0,
                    t > 0,
            ;
            assert(1int * 1 == 1);
            lemma_scaled_quotient(a * t, 1, a, 1, 0, 1074, 0, 53, 1021, 0x20_0000_0000_0000);
        }
        let k: u128 = n as u128 * 0x20_0000_0000_0000;
        Double { bits: rounding::pack(k, 1, 1021, 0x20_0000_0000_0000, 0x7FF0_0000_0000_0000) }
    }
}

/// The value of a rounded quotient that is finite.
pub proof fn lemma_rounded_value(n: int, d: int)
    requires
        n >= 0,
        d > 0,
        double(n, d).bits < 0x7FF0_0000_0000_0000,
    ensures
        double(n, d).value() == rounding::rounded(n, d, 0x20_0000_0000_0000),
{
    let limit: int = 0x20_0000_0000_0000;
    let unit: int = 0x10_0000_0000_0000;
    let s = rounding::excess(n, d, limit);
    let q = rounding::significand(n, d, limit);
    rounding::lemma_packed_range(n, d, limit, 0x7FF0_0000_0000_0000);
    rounding::lemma_significand_bound(n, d, limit);
    let r = double(n, d);
    let p = pow2(s) as int;
    assert(r.bits == s * unit + q);
    if n >= limit * d {
        rounding::lemma_significand_full(n, d, limit);
        if q == limit {
            assert(r.exponent() == s + 2);
            assert(r.fraction() == 0);
            power2::lemma_pow2_unfold((s + 1) as nat);
            assert(unit * (2 * p) == limit * p) by (nonlinear_arith)
                requires
                    limit == 2 * unit,
            ;
        } else {
            assert(r.exponent() == s + 1);
            assert(r.fraction() == q - unit);
        }
    } else {
        power2::lemma2_to64();
        assert(q * 1 == q);
        if q == limit {
            power2::lemma_pow2_unfold(1);
            assert(r.exponent() == 2);
        } else if q >= unit {
            assert(r.exponent() == 1);
            assert((unit + (q - unit)) * 1 == q);
        }
    }
}

/// A binary32 number is its own rounding.
pub proof fn lemma_single_identity(a: Single)
    requires
        a.bits < 0x7F80_0000,
    ensures
        single(a.value(), 1) == a,
{
    let unit: int = 0x80_0000;
    if a.exponent() == 0 {
        rounding::lemma_small_exact(a.value(), 2 * unit);
    } else {
        let s = (a.exponent() - 1) as nat;
        power2::lemma_pow2_pos(s);
        rounding::lemma_nearly_exact(unit + a.fraction(), s, 0, 2 * unit);
    }
}

/// The value of a rounded binary32 quotient that is finite.
pub proof fn lemma_single_rounded_value(n: int, d: int)
    requires
        n >= 0,
        d > 0,
        single(n, d).bits < 0x7F80_0000,
    ensures
        single(n, d).value() == rounding::rounded(n, d, 0x100_0000),
{
    let limit: int = 0x100_0000;
    let unit: int = 0x80_0000;
    let s = rounding::excess(n, d, limit);
    let q = rounding::significand(n, d, limit);
    rounding::lemma_packed_range(n, d, limit, 0x7F80_0000);
    rounding::lemma_significand_bound(n, d, limit);
    let r = single(n, d);
    let p = pow2(s) as int;
    assert(r.bits == s * unit + q);
    if n >= limit * d {
        rounding::lemma_significand_full(n, d, limit);
        if q == limit {
            assert(r.exponent() == s + 2);
            assert(r.fraction() == 0);
            power2::lemma_pow2_unfold((s + 1) as nat);
            assert(unit * (2 * p) == limit * p) by (nonlinear_arith)
                requires
                    limit == 2 * unit,
            ;
        } else {
            assert(r.exponent() == s + 1);
            assert(r.fraction() == q - unit);
        }
    } else {
        power2::lemma2_to64();
        assert(q * 1 == q);
        if q == limit {
            power2::lemma_pow2_unfold(1);
            assert(r.exponent() == 2);
        } else if q >= unit {
            assert(r.exponent() == 1);
            assert((unit + (q - unit)) * 1 == q);
        }
    }
}

/// Integers of 64 bits are ordinary binary64 numbers.
pub proof fn lemma_whole_double_range(n: int)
    requires
        0 < n < 0x1_0000_0000_0000_0000,
    ensures
        0 < whole_double(n).bits < 0x7FF0_0000_0000_0000,
{
    let limit: int = 0x20_0000_0000_0000;
    let infinity: int = 0x7FF0_0000_0000_0000;
    let one = Double { bits: 0x3FF0_0000_0000_0000 };
    let top = Double { bits: 0x43F0_0000_0000_0000 };
    let u = pow2(1074) as int;
    power2::lemma_pow2_pos(1074);
    power2::lemma2_to64();
    power2::lemma2_to64_rest();
    power2::lemma_pow2_adds(64, 1074);
    power2::lemma_pow2_adds(52, 1086);
    lemma_one();
    lemma_identity(one);
    lemma_identity(top);
    assert(u <= n * u <= pow2(64) * u) by (nonlinear_arith)
        requires
            1 <= n <= pow2(64),
            u > 0,
    ;
    rounding::lemma_packed_range(u, 1, limit, infinity);
    rounding::lemma_packed_range(n * u, 1, limit, infinity);
    rounding::lemma_packed_range(pow2(64) * u, 1, limit, infinity);
    rounding::law_rounding_is_monotone(u, n * u, 1, limit, infinity);
    rounding::law_rounding_is_monotone(n * u, pow2(64) * u, 1, limit, infinity);
}

impl Double {
    /// The binary32 number that is nearest.
    pub(crate) fn narrow(&self) -> (r: Single)
        requires
            0 < self.bits < 0x7FF0_0000_0000_0000,
        ensures
            r == single(self.value(), pow2(925) as int),
            r.bits <= 0x7F80_0000,
    {
        let (m, e): (u64, i32) = self.unpack();
        let y: i32 = e - 977;
        proof {
            power2::lemma2_to64();
            power2::lemma2_to64_rest();
            power2::lemma_pow2_pos(925);
            power2::lemma_pow2_adds(925, 52);
            let x = m as int;
            let t = pow2(977) as int;
            assert(x * 1 == x);
            assert(1 * t == t);
            lemma_scaled_quotient(
                self.value(),
                pow2(925) as int,
                x,
                1,
                52,
                e as nat,
                977,
                0,
                y as int,
                0x100_0000,
            );
        }
        Single { bits: rounding::pack(m as u128, 1, y, 0x100_0000, 0x7F80_0000) as u32 }
    }
}

/// Integers below two to the 24 are exact in binary32.
pub proof fn lemma_whole_is_exact_in_single(n: int)
    requires
        0 < n < 0x100_0000,
    ensures
        whole_single(n).value() == n * pow2(149),
        0 < whole_single(n).bits < 0x7F80_0000,
{
    power2::lemma_pow2_pos(149);
    let t = pow2(149) as int;
    assert(n * t > 0) by (nonlinear_arith)
        requires
            n > 0,
            t > 0,
    ;
    lemma_whole_range(n);
    lemma_single_rounded_value(n * t, 1);
    rounding::lemma_shift_exact(n, 149, 0x100_0000);
}

/// Integers below two to the 53 are exact in binary64.
pub proof fn lemma_whole_is_exact(n: int)
    requires
        0 < n < 0x20_0000_0000_0000,
    ensures
        whole_double(n).value() == n * pow2(1074),
        0 < whole_double(n).bits < 0x7FF0_0000_0000_0000,
{
    power2::lemma_pow2_pos(1074);
    let t = pow2(1074) as int;
    assert(n * t > 0) by (nonlinear_arith)
        requires
            n > 0,
            t > 0,
    ;
    lemma_whole_double_range(n);
    lemma_rounded_value(n * t, 1);
    rounding::lemma_shift_exact(n, 1074, 0x20_0000_0000_0000);
}

/// A whole number of big blinds is a hundred times as many chips.
pub proof fn law_whole_big_blinds(n: int)
    requires
        0 < n <= 21474836,
    ensures
        chips_of(whole_double(n)) == 100 * n,
{
    let t = pow2(1074) as int;
    let hundred = Double { bits: 0x4059_0000_0000_0000 };
    let a = whole_double(n);
    power2::lemma_pow2_pos(1074);
    power2::lemma2_to64();
    power2::lemma2_to64_rest();
    power2::lemma_pow2_adds(46, 1028);
    lemma_whole_is_exact(n);
    lemma_whole_is_exact(100 * n);
    let p = pow2(1028) as int;
    assert(0x19_0000_0000_0000 * p == 100 * (pow2(46) * p)) by (nonlinear_arith)
        requires
            pow2(46) == 0x4000_0000_0000,
    ;
    assert(hundred.value() == 100 * t);
    assert((n * t) * (100 * t) == ((100 * n) * t) * t) by (nonlinear_arith);
    let x = (n * t) * (100 * t);
    let y = (100 * n) * t;
    assert(x >= 0 && y >= 0) by (nonlinear_arith)
        requires
            x == (n * t) * (100 * t),
            y == (100 * n) * t,
            n > 0,
            t > 0,
    ;
    rounding::lemma_quotient_monotone(x, t, y, 1, 0x20_0000_0000_0000, 0x7FF0_0000_0000_0000);
    rounding::lemma_quotient_monotone(y, 1, x, t, 0x20_0000_0000_0000, 0x7FF0_0000_0000_0000);
    assert(product_of(a, hundred) == whole_double(100 * n));
    let m = 100 * n;
    assert(2 * (m * t) + t == m * (2 * t) + t) by (nonlinear_arith);
    vstd::arithmetic::div_mod::lemma_fundamental_div_mod_converse(2 * (m * t) + t, 2 * t, m, t);
}

/// A hundred times as many chips are a whole number of big blinds.
pub proof fn law_whole_chips(n: int)
    requires
        0 < n <= 167772,
    ensures
        big_blinds_of(100 * n) == whole_single(n),
{
    let t = pow2(149) as int;
    let hundred = Single { bits: 0x42C8_0000 };
    let m = 100 * n;
    power2::lemma_pow2_pos(149);
    power2::lemma2_to64();
    power2::lemma2_to64_rest();
    power2::lemma_pow2_adds(17, 132);
    lemma_whole_is_exact_in_single(m);
    let p = pow2(132) as int;
    assert(0xC8_0000 * p == 100 * (pow2(17) * p)) by (nonlinear_arith)
        requires
            pow2(17) == 0x2_0000,
    ;
    assert(hundred.value() == 100 * t);
    let x = (m * t) * t;
    let y = n * t;
    assert(x >= 0 && y >= 0 && x * 1 == y * (100 * t)) by (nonlinear_arith)
        requires
            x == (m * t) * t,
            y == n * t,
            m == 100 * n,
            n > 0,
            t > 0,
    ;
    rounding::lemma_quotient_monotone(x, 100 * t, y, 1, 0x100_0000, 0x7F80_0000);
    rounding::lemma_quotient_monotone(y, 1, x, 100 * t, 0x100_0000, 0x7F80_0000);
}

} // verus!
