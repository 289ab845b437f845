//! Arithmetic on IEEE 754 numbers of either sign. Where there is no number to give, the result is
//! the quiet NaN without a sign or a payload.

use vstd::arithmetic::power2;
use vstd::arithmetic::power2::pow2;
use vstd::prelude::*;

use crate::arith;
use crate::ieee;
use crate::ieee::{Double, Single};

verus! {

/// The bit pattern of the infinity of binary64.
pub const INFINITY: u64 = 0x7FF0_0000_0000_0000;

/// The bit pattern of the NaN of binary64.
pub const NAN: u64 = 0x7FF8_0000_0000_0000;

/// The bit pattern of the infinity of binary32.
pub const SINGLE_INFINITY: u32 = 0x7F80_0000;

/// The bit pattern of the NaN of binary32.
pub const SINGLE_NAN: u32 = 0x7FC0_0000;

/// A number without its sign.
pub open spec fn size(d: Double) -> Double {
    Double { bits: d.abs_bits() as u64 }
}

/// A number with a sign.
pub open spec fn with_sign(d: Double, negative: bool) -> Double {
    if negative {
        Double { bits: (d.bits + 0x8000_0000_0000_0000) as u64 }
    } else {
        d
    }
}

/// A number without its sign.
pub open spec fn single_size(d: Single) -> Single {
    Single { bits: d.abs_bits() as u32 }
}

/// A number with a sign.
pub open spec fn single_with_sign(d: Single, negative: bool) -> Single {
    if negative {
        Single { bits: (d.bits + 0x8000_0000) as u32 }
    } else {
        d
    }
}

/// Neither an infinity nor a NaN.
pub open spec fn finite(d: Double) -> bool {
    d.exponent() < 2047
}

/// The NaN of binary64.
pub open spec fn not_a_number() -> Double {
    Double { bits: NAN }
}

/// The infinity of binary64.
pub open spec fn infinity() -> Double {
    Double { bits: INFINITY }
}

/// `a + b`.
pub open spec fn sum(a: Double, b: Double) -> Double {
    let v = a.value() + b.value();
    if a.nan() || b.nan() || (a.infinite() && b.infinite() && a.negative() != b.negative()) {
        not_a_number()
    } else if a.infinite() {
        a
    } else if b.infinite() {
        b
    } else if v < 0 {
        with_sign(arith::double(-v, 1), true)
    } else if v > 0 {
        arith::double(v, 1)
    } else {
        with_sign(Double { bits: 0 }, a.negative() && b.negative())
    }
}

/// `a * b`.
pub open spec fn product(a: Double, b: Double) -> Double {
    let negative = a.negative() != b.negative();
    if a.nan() || b.nan() {
        not_a_number()
    } else if a.infinite() || b.infinite() {
        if a.value() == 0 || b.value() == 0 {
            not_a_number()
        } else {
            with_sign(infinity(), negative)
        }
    } else {
        with_sign(arith::product_of(size(a), size(b)), negative)
    }
}

/// `a / b`.
pub open spec fn quotient(a: Double, b: Double) -> Double {
    let negative = a.negative() != b.negative();
    if a.nan() || b.nan() || (a.infinite() && b.infinite()) || (a.value() == 0 && b.value() == 0) {
        not_a_number()
    } else if a.infinite() || b.value() == 0 {
        with_sign(infinity(), negative)
    } else if b.infinite() {
        with_sign(Double { bits: 0 }, negative)
    } else {
        with_sign(arith::quotient_of(size(a), size(b)), negative)
    }
}

/// A binary32 number as a binary64 number.
pub open spec fn widened(a: Single) -> Double {
    if a.nan() {
        not_a_number()
    } else if !a.finite() {
        with_sign(infinity(), a.negative())
    } else {
        with_sign(arith::widened(single_size(a)), a.negative())
    }
}

/// The binary32 number nearest to a binary64 number.
pub open spec fn narrowed(a: Double) -> Single {
    if a.nan() {
        Single { bits: SINGLE_NAN }
    } else if a.infinite() {
        single_with_sign(Single { bits: SINGLE_INFINITY }, a.negative())
    } else {
        single_with_sign(arith::single(size(a).value(), pow2(925) as int), a.negative())
    }
}

/// An integer as a binary64 number.
pub open spec fn whole(n: int) -> Double {
    if n < 0 {
        with_sign(arith::whole_double(-n), true)
    } else {
        arith::whole_double(n)
    }
}

fn set_sign(d: Double, negative: bool) -> (r: Double)
    requires
        d.bits < 0x8000_0000_0000_0000,
    ensures
        r == with_sign(d, negative),
{
    if negative {
        Double { bits: d.bits + 0x8000_0000_0000_0000 }
    } else {
        d
    }
}

fn take_size(d: Double) -> (r: Double)
    ensures
        r == size(d),
        r.bits < 0x8000_0000_0000_0000,
        finite(d) ==> r.bits < 0x7FF0_0000_0000_0000,
{
    Double { bits: d.bits % 0x8000_0000_0000_0000 }
}

fn is_negative(d: Double) -> (r: bool)
    ensures
        r == d.negative(),
{
    d.bits >= 0x8000_0000_0000_0000
}

/// `a + b`.
pub(crate) fn add(a: Double, b: Double) -> (r: Double)
    ensures
        r == sum(a, b),
{
    let x: Double = take_size(a);
    let y: Double = take_size(b);
    let minus_a: bool = is_negative(a);
    let minus_b: bool = is_negative(b);
    proof {
        ieee::lemma_zero_bits(a);
        ieee::lemma_zero_bits(b);
        ieee::lemma_zero_bits(x);
        ieee::lemma_zero_bits(y);
        ieee::lemma_bits_order(x, y);
        ieee::lemma_bits_order(y, x);
        assert(a.value() == if a.negative() {
            -x.value()
        } else {
            x.value()
        });
        assert(b.value() == if b.negative() {
            -y.value()
        } else {
            y.value()
        });
    }
    if x.bits > INFINITY || y.bits > INFINITY || (x.bits == INFINITY && y.bits == INFINITY && minus_a
        != minus_b) {
        return Double { bits: NAN };
    }
    if x.bits == INFINITY {
        return a;
    }
    if y.bits == INFINITY {
        return b;
    }
    if minus_a == minus_b {
        if x.bits == 0 && y.bits == 0 {
            set_sign(Double { bits: 0 }, minus_a)
        } else {
            set_sign(x.add(&y), minus_a)
        }
    } else if x.bits == y.bits {
        Double { bits: 0 }
    } else if x.bits > y.bits {
        set_sign(x.less(&y), minus_a)
    } else {
        set_sign(y.less(&x), minus_b)
    }
}

/// `a * b`.
pub(crate) fn mul(a: Double, b: Double) -> (r: Double)
    ensures
        r == product(a, b),
{
    let x: Double = take_size(a);
    let y: Double = take_size(b);
    proof {
        ieee::lemma_zero_bits(a);
        ieee::lemma_zero_bits(b);
    }
    if x.bits > INFINITY || y.bits > INFINITY {
        return Double { bits: NAN };
    }
    if x.bits == INFINITY || y.bits == INFINITY {
        return if x.bits == 0 || y.bits == 0 {
            Double { bits: NAN }
        } else {
            set_sign(Double { bits: INFINITY }, is_negative(a) != is_negative(b))
        };
    }
    let m: Double = if x.bits == 0 || y.bits == 0 {
        proof {
            let p = x.value();
            let q = y.value();
            assert(p == 0 || q == 0);
            assert(p * q == 0) by (nonlinear_arith)
                requires
                    p == 0 || q == 0,
            ;
            power2::lemma_pow2_pos(1074);
            arith::lemma_zero(pow2(1074) as int, 0x20_0000_0000_0000);
        }
        Double { bits: 0 }
    } else {
        x.mul(&y)
    };
    set_sign(m, is_negative(a) != is_negative(b))
}

/// `a / b`.
pub(crate) fn div(a: Double, b: Double) -> (r: Double)
    ensures
        r == quotient(a, b),
{
    let x: Double = take_size(a);
    let y: Double = take_size(b);
    proof {
        ieee::lemma_zero_bits(a);
        ieee::lemma_zero_bits(b);
        ieee::lemma_zero_bits(y);
    }
    if x.bits > INFINITY || y.bits > INFINITY || (x.bits == INFINITY && y.bits == INFINITY) || (x.bits
        == 0 && y.bits == 0) {
        return Double { bits: NAN };
    }
    let negative: bool = is_negative(a) != is_negative(b);
    if x.bits == INFINITY || y.bits == 0 {
        return set_sign(Double { bits: INFINITY }, negative);
    }
    if y.bits == INFINITY {
        return set_sign(Double { bits: 0 }, negative);
    }
    let m: Double = if x.bits == 0 {
        proof {
            let p = x.value();
            let t = pow2(1074) as int;
            assert(p == 0);
            assert(p * t == 0) by (nonlinear_arith)
                requires
                    p == 0,
            ;
            arith::lemma_zero(y.value(), 0x20_0000_0000_0000);
        }
        Double { bits: 0 }
    } else {
        x.div(&y)
    };
    set_sign(m, is_negative(a) != is_negative(b))
}

/// A binary32 number as a binary64 number.
pub(crate) fn widen(a: Single) -> (r: Double)
    ensures
        r == widened(a),
{
    let x: Single = Single { bits: a.bits % 0x8000_0000 };
    if x.bits > SINGLE_INFINITY {
        return Double { bits: NAN };
    }
    if x.bits == SINGLE_INFINITY {
        return set_sign(Double { bits: INFINITY }, a.bits >= 0x8000_0000);
    }
    let m: Double = if x.bits == 0 {
        proof {
            let p = x.value();
            let t = pow2(925) as int;
            assert(p == 0);
            assert(p * t == 0) by (nonlinear_arith)
                requires
                    p == 0,
            ;
            arith::lemma_zero(1, 0x20_0000_0000_0000);
        }
        Double { bits: 0 }
    } else {
        x.widen()
    };
    set_sign(m, a.bits >= 0x8000_0000)
}

/// The binary32 number nearest to a binary64 number.
pub(crate) fn narrow(a: Double) -> (r: Single)
    ensures
        r == narrowed(a),
{
    let x: Double = take_size(a);
    if x.bits > INFINITY {
        return Single { bits: SINGLE_NAN };
    }
    let m: Single = if x.bits == INFINITY {
        Single { bits: SINGLE_INFINITY }
    } else if x.bits == 0 {
        proof {
            assert(x.value() == 0);
            power2::lemma_pow2_pos(925);
            arith::lemma_zero(pow2(925) as int, 0x100_0000);
        }
        Single { bits: 0 }
    } else {
        x.narrow()
    };
    if is_negative(a) {
        Single { bits: m.bits + 0x8000_0000 }
    } else {
        m
    }
}

/// An integer as a binary64 number.
pub(crate) fn from_int(n: i32) -> (r: Double)
    ensures
        r == whole(n as int),
        finite(r),
        n != 0 ==> r.value() != 0,
{
    if n == 0 {
        proof {
            let t = pow2(1074) as int;
            assert(0 * t == 0) by (nonlinear_arith);
            arith::lemma_zero(1, 0x20_0000_0000_0000);
        }
        return Double { bits: 0 };
    }
    let a: u64 = if n < 0 {
        (-(n as i64)) as u64
    } else {
        n as u64
    };
    proof {
        arith::lemma_whole_double_range(a as int);
    }
    let m: Double = Double::from_whole(a);
    let r: Double = set_sign(m, n < 0);
    proof {
        ieee::lemma_zero_bits(r);
    }
    r
}

} // verus!
