//! IEEE 754 numbers as bit patterns: their values and their order.

use vstd::arithmetic::power2;
use vstd::arithmetic::power2::pow2;
use vstd::prelude::*;

verus! {

/// A binary32 number, by its bit pattern.
#[derive(Debug, Clone, Copy, PartialEq, Eq, Structural)]
pub struct Single {
    pub bits: u32,
}

/// A binary64 number, by its bit pattern.
#[derive(Debug, Clone, Copy, PartialEq, Eq, Structural)]
pub struct Double {
    pub bits: u64,
}

/// What a biased exponent and a fraction stand for, in units of the smallest positive number.
/// `unit` is one more than the largest fraction.
pub open spec fn magnitude(exponent: int, fraction: int, unit: int) -> int {
    if exponent <= 0 {
        fraction
    } else {
        (unit + fraction) * pow2((exponent - 1) as nat)
    }
}

impl Double {
    /// The number without its sign.
    pub open spec fn abs_bits(self) -> int {
        self.bits as int % 0x8000_0000_0000_0000
    }

    pub open spec fn negative(self) -> bool {
        self.bits >= 0x8000_0000_0000_0000
    }

    pub open spec fn exponent(self) -> int {
        self.abs_bits() / 0x10_0000_0000_0000
    }

    pub open spec fn fraction(self) -> int {
        self.abs_bits() % 0x10_0000_0000_0000
    }

    pub open spec fn nan(self) -> bool {
        self.exponent() == 2047 && self.fraction() != 0
    }

    pub open spec fn infinite(self) -> bool {
        self.exponent() == 2047 && self.fraction() == 0
    }

    /// The value, in units of the smallest positive number; an infinity lies beyond all numbers.
    pub open spec fn value(self) -> int {
        let m = magnitude(self.exponent(), self.fraction(), 0x10_0000_0000_0000);
        if self.negative() {
            -m
        } else {
            m
        }
    }

    /// Whether `self` is below `other`; nothing is below or above a NaN.
    pub open spec fn below(self, other: Double) -> bool {
        !self.nan() && !other.nan() && self.value() < other.value()
    }

    /// Whether `self` is at most `other`.
    pub open spec fn at_most(self, other: Double) -> bool {
        !self.nan() && !other.nan() && self.value() <= other.value()
    }
}

/// The order of magnitudes is that of the bit patterns.
proof fn lemma_magnitude_order(ea: int, fa: int, eb: int, fb: int, unit: int)
    requires
        0 <= ea,
        0 <= eb,
        0 <= fa < unit,
        0 <= fb < unit,
        ea < eb || (ea == eb && fa < fb),
    ensures
        magnitude(ea, fa, unit) < magnitude(eb, fb, unit),
{
    if ea == eb {
        if ea > 0 {
            let p = pow2((ea - 1) as nat) as int;
            power2::lemma_pow2_pos((ea - 1) as nat);
            assert((unit + fa) * p < (unit + fb) * p) by (nonlinear_arith)
                requires
                    fa < fb,
                    p > 0,
            ;
        }
    } else {
        let p = pow2((eb - 1) as nat) as int;
        power2::lemma_pow2_pos((eb - 1) as nat);
        assert(unit * p <= (unit + fb) * p) by (nonlinear_arith)
            requires
                0 <= fb,
                p > 0,
        ;
        if ea == 0 {
            assert(unit <= unit * p) by (nonlinear_arith)
                requires
                    0 <= unit,
                    p > 0,
            ;
        } else {
            let q = pow2((ea - 1) as nat) as int;
            power2::lemma_pow2_pos((ea - 1) as nat);
            power2::lemma_pow2_unfold(ea as nat);
            if ea < eb - 1 {
                power2::lemma_pow2_strictly_increases(ea as nat, (eb - 1) as nat);
            }
            assert((unit + fa) * q < unit * p) by (nonlinear_arith)
                requires
                    0 <= fa < unit,
                    q > 0,
                    2 * q <= p,
            ;
        }
    }
}

impl Double {
    /// The numbers' order is the order of their bit patterns, sign taken apart.
    proof fn lemma_order(self, other: Double)
        ensures
            self.abs_bits() < other.abs_bits() ==> magnitude(
                self.exponent(),
                self.fraction(),
                0x10_0000_0000_0000,
            ) < magnitude(other.exponent(), other.fraction(), 0x10_0000_0000_0000),
            magnitude(self.exponent(), self.fraction(), 0x10_0000_0000_0000) >= 0,
            self.abs_bits() > 0 <==> magnitude(
                self.exponent(),
                self.fraction(),
                0x10_0000_0000_0000,
            ) > 0,
    {
        let unit: int = 0x10_0000_0000_0000;
        if self.abs_bits() < other.abs_bits() {
            lemma_magnitude_order(
                self.exponent(),
                self.fraction(),
                other.exponent(),
                other.fraction(),
                unit,
            );
        }
        if self.abs_bits() > 0 {
            lemma_magnitude_order(0, 0, self.exponent(), self.fraction(), unit);
        }
    }

    fn is_nan(&self) -> (r: bool)
        ensures
            r == self.nan(),
    {
        self.bits % 0x8000_0000_0000_0000 > 0x7FF0_0000_0000_0000
    }

    /// A number by which numbers that are no NaN are ordered.
    fn key(&self) -> (k: i64)
        ensures
            k == (if self.negative() {
                -self.abs_bits()
            } else {
                self.abs_bits()
            }),
    {
        let a: i64 = (self.bits % 0x8000_0000_0000_0000) as i64;
        if self.bits >= 0x8000_0000_0000_0000 {
            -a
        } else {
            a
        }
    }

    /// `self < other`.
    pub fn lt(&self, other: &Double) -> (r: bool)
        ensures
            r == self.below(*other),
    {
        proof {
            self.lemma_order(*other);
            other.lemma_order(*self);
        }
        !self.is_nan() && !other.is_nan() && self.key() < other.key()
    }

    /// `self <= other`.
    pub fn le(&self, other: &Double) -> (r: bool)
        ensures
            r == self.at_most(*other),
    {
        proof {
            self.lemma_order(*other);
            other.lemma_order(*self);
        }
        !self.is_nan() && !other.is_nan() && self.key() <= other.key()
    }
}

impl Single {
    pub open spec fn abs_bits(self) -> int {
        self.bits as int % 0x8000_0000
    }

    pub open spec fn negative(self) -> bool {
        self.bits >= 0x8000_0000
    }

    pub open spec fn exponent(self) -> int {
        self.abs_bits() / 0x80_0000
    }

    pub open spec fn fraction(self) -> int {
        self.abs_bits() % 0x80_0000
    }

    pub open spec fn nan(self) -> bool {
        self.exponent() == 255 && self.fraction() != 0
    }

    pub open spec fn finite(self) -> bool {
        self.exponent() < 255
    }

    /// The value, in units of the smallest positive number; an infinity lies beyond all numbers.
    pub open spec fn value(self) -> int {
        let m = magnitude(self.exponent(), self.fraction(), 0x80_0000);
        if self.negative() {
            -m
        } else {
            m
        }
    }

    /// Whether the two are equal as numbers; a NaN equals nothing.
    pub open spec fn same(self, other: Single) -> bool {
        !self.nan() && !other.nan() && self.value() == other.value()
    }

    /// The numbers' order is the order of their bit patterns, sign taken apart.
    proof fn lemma_order(self, other: Single)
        ensures
            self.abs_bits() < other.abs_bits() ==> magnitude(
                self.exponent(),
                self.fraction(),
                0x80_0000,
            ) < magnitude(other.exponent(), other.fraction(), 0x80_0000),
            magnitude(self.exponent(), self.fraction(), 0x80_0000) >= 0,
            self.abs_bits() > 0 <==> magnitude(self.exponent(), self.fraction(), 0x80_0000) > 0,
    {
        let unit: int = 0x80_0000;
        if self.abs_bits() < other.abs_bits() {
            lemma_magnitude_order(
                self.exponent(),
                self.fraction(),
                other.exponent(),
                other.fraction(),
                unit,
            );
        }
        if self.abs_bits() > 0 {
            lemma_magnitude_order(0, 0, self.exponent(), self.fraction(), unit);
        }
    }

    /// Whether `self` is at most `other`; nothing is below or above a NaN.
    pub open spec fn at_most(self, other: Single) -> bool {
        !self.nan() && !other.nan() && self.value() <= other.value()
    }

    /// `self <= other`.
    pub fn le(&self, other: &Single) -> (r: bool)
        ensures
            r == self.at_most(*other),
    {
        proof {
            self.lemma_order(*other);
            other.lemma_order(*self);
        }
        let a: i64 = (self.bits % 0x8000_0000) as i64;
        let b: i64 = (other.bits % 0x8000_0000) as i64;
        let x: i64 = if self.bits >= 0x8000_0000 {
            -a
        } else {
            a
        };
        let y: i64 = if other.bits >= 0x8000_0000 {
            -b
        } else {
            b
        };
        a <= 0x7F80_0000 && b <= 0x7F80_0000 && x <= y
    }

    /// `self == other`, as numbers.
    pub fn eq_number(&self, other: &Single) -> (r: bool)
        ensures
            r == self.same(*other),
    {
        proof {
            self.lemma_order(*other);
            other.lemma_order(*self);
        }
        let a: u32 = self.bits % 0x8000_0000;
        let b: u32 = other.bits % 0x8000_0000;
        a <= 0x7F80_0000 && b <= 0x7F80_0000 && (self.bits == other.bits || (a == 0 && b == 0))
    }

    /// Whether the number is finite and above zero.
    pub fn is_positive(&self) -> (r: bool)
        ensures
            r == (self.finite() && self.value() > 0),
    {
        proof {
            self.lemma_order(*self);
        }
        0 < self.bits && self.bits < 0x7F80_0000
    }
}

/// Numbers that are not negative are ordered as their bit patterns are.
pub proof fn lemma_bits_order(a: Double, b: Double)
    requires
        a.bits < 0x8000_0000_0000_0000,
        b.bits < 0x8000_0000_0000_0000,
    ensures
        a.bits < b.bits <==> a.value() < b.value(),
        a.value() >= 0,
{
    a.lemma_order(b);
    b.lemma_order(a);
}

/// The largest binary32 number.
pub proof fn lemma_single_range(a: Single)
    requires
        a.finite(),
    ensures
        a.value() <= 0xFF_FFFF * pow2(253),
{
    let top = Single { bits: 0x7F7F_FFFF };
    a.lemma_order(top);
    top.lemma_order(a);
}

/// The bit patterns of the finite numbers above zero.
pub proof fn lemma_positive_bits(a: Single)
    requires
        a.finite(),
        a.value() > 0,
    ensures
        0 < a.bits < 0x7F80_0000,
{
    a.lemma_order(a);
}

/// The sign and the zeros of a binary32 number.
pub proof fn lemma_single_zero(a: Single)
    ensures
        a.value() == 0 <==> a.abs_bits() == 0,
        !a.negative() ==> a.value() >= 0,
        a.negative() ==> a.value() <= 0,
{
    a.lemma_order(a);
}

/// Binary32 numbers that are not negative are ordered as their bit patterns are.
pub proof fn lemma_single_order(a: Single, b: Single)
    requires
        a.bits < 0x8000_0000,
        b.bits < 0x8000_0000,
    ensures
        a.bits < b.bits <==> a.value() < b.value(),
        a.value() >= 0,
{
    a.lemma_order(b);
    b.lemma_order(a);
}

/// The sign and the zeros of a binary64 number.
pub proof fn lemma_zero_bits(a: Double)
    ensures
        a.value() == 0 <==> a.abs_bits() == 0,
        !a.negative() ==> a.value() >= 0,
        a.negative() ==> a.value() <= 0,
{
    a.lemma_order(a);
}

} // verus!
