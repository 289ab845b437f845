//! Rounding of quotients to a number of significant bits, halves to even.

use vstd::arithmetic::power2;
use vstd::arithmetic::power2::pow2;
use vstd::prelude::*;

verus! {

/// The integer nearest to `a / b`, the even one where two are equally near.
pub open spec fn nearest_even(a: int, b: int) -> int {
    let q = a / b;
    let r = a % b;
    if 2 * r < b || (2 * r == b && q % 2 == 0) {
        q
    } else {
        q + 1
    }
}

/// The integer nearest to `a / b`, the one further from zero where two are equally near.
pub open spec fn nearest_away(a: int, b: int) -> int {
    (2 * a + b) / (2 * b)
}

/// How often `d` has to be doubled until `n / d` is below `limit`.
pub open spec fn excess(n: int, d: int, limit: int) -> nat
    decreases n - d,
{
    if d <= 0 || limit < 2 || n < limit * d || n < 2 * d {
        0
    } else {
        1 + excess(n, 2 * d, limit)
    }
}

/// `n / d` rounded to a significand below `limit`, which stands for its multiple by
/// `pow2(excess(n, d, limit))`.
pub open spec fn significand(n: int, d: int, limit: int) -> int {
    nearest_even(n, d * pow2(excess(n, d, limit)))
}

/// `n / d` rounded to `limit`'s precision, where that is an integer.
pub open spec fn rounded(n: int, d: int, limit: int) -> int {
    significand(n, d, limit) * pow2(excess(n, d, limit))
}

pub proof fn lemma_excess_step(n: int, d: int, limit: int)
    requires
        d > 0,
        limit >= 2,
        n >= limit * d,
    ensures
        excess(n, d, limit) == 1 + excess(n, 2 * d, limit),
        d * pow2(excess(n, d, limit)) == (2 * d) * pow2(excess(n, 2 * d, limit)),
{
    assert(limit * d >= 2 * d) by (nonlinear_arith)
        requires
            d > 0,
            limit >= 2,
    ;
    let e = excess(n, 2 * d, limit);
    power2::lemma_pow2_unfold(e + 1);
    let p = pow2(e) as int;
    assert(d * (2 * p) == (2 * d) * p) by (nonlinear_arith);
}

/// Doubling the divisor takes off as many doublings as are left to do.
pub proof fn lemma_excess_shift(n: int, d: int, limit: int, k: nat)
    requires
        d > 0,
        limit >= 2,
    ensures
        excess(n, d * pow2(k), limit) == (if excess(n, d, limit) >= k {
            excess(n, d, limit) - k
        } else {
            0
        }),
        excess(n, d, limit) >= k ==> d * pow2(k) * pow2(excess(n, d * pow2(k), limit)) == d * pow2(
            excess(n, d, limit),
        ),
    decreases k,
{
    power2::lemma2_to64();
    if k == 0 {
        assert(d * 1 == d);
    } else {
        power2::lemma_pow2_unfold(k);
        let p = pow2((k - 1) as nat) as int;
        power2::lemma_pow2_pos((k - 1) as nat);
        assert(d * (2 * p) == (2 * d) * p) by (nonlinear_arith);
        if n >= limit * d {
            lemma_excess_step(n, d, limit);
            lemma_excess_shift(n, 2 * d, limit, (k - 1) as nat);
        } else {
            let w = pow2(k) as int;
            power2::lemma_pow2_pos(k);
            assert(limit * d <= limit * (d * w)) by (nonlinear_arith)
                requires
                    d > 0,
                    limit >= 2,
                    w >= 1,
            ;
        }
    }
}

/// A common factor changes neither the doublings nor the rounding.
pub proof fn lemma_common_factor(n: int, d: int, limit: int, c: int)
    requires
        n >= 0,
        d > 0,
        limit >= 2,
        c > 0,
    ensures
        excess(c * n, c * d, limit) == excess(n, d, limit),
        significand(c * n, c * d, limit) == significand(n, d, limit),
    decreases n - d,
{
    assert(c * d > 0) by (nonlinear_arith)
        requires
            c > 0,
            d > 0,
    ;
    assert(c * n < limit * (c * d) <==> n < limit * d) by (nonlinear_arith)
        requires
            c > 0,
    ;
    if n >= limit * d {
        lemma_excess_step(n, d, limit);
        lemma_excess_step(c * n, c * d, limit);
        assert(2 * d <= limit * d) by (nonlinear_arith)
            requires
                d > 0,
                limit >= 2,
        ;
        assert(2 * (c * d) == c * (2 * d)) by (nonlinear_arith);
        lemma_common_factor(n, 2 * d, limit, c);
    } else {
        power2::lemma2_to64();
        assert(d * 1 == d);
        assert((c * d) * 1 == c * d);
        lemma_nearest_factor(n, d, c);
    }
}

proof fn lemma_nearest_factor(n: int, d: int, c: int)
    requires
        n >= 0,
        d > 0,
        c > 0,
    ensures
        nearest_even(c * n, c * d) == nearest_even(n, d),
{
    let q = n / d;
    let r = n % d;
    vstd::arithmetic::div_mod::lemma_fundamental_div_mod(n, d);
    assert(c * n == q * (c * d) + c * r) by (nonlinear_arith)
        requires
            n == d * q + r,
    ;
    assert(0 <= c * r < c * d) by (nonlinear_arith)
        requires
            0 <= r < d,
            c > 0,
    ;
    vstd::arithmetic::div_mod::lemma_fundamental_div_mod_converse(c * n, c * d, q, c * r);
    assert(2 * (c * r) < c * d <==> 2 * r < d) by (nonlinear_arith)
        requires
            c > 0,
    ;
    assert(2 * (c * r) == c * d <==> 2 * r == d) by (nonlinear_arith)
        requires
            c > 0,
    ;
}

/// Equal quotients round alike.
pub proof fn lemma_equal_quotients(n: int, d: int, m: int, c: int, limit: int)
    requires
        n >= 0,
        d > 0,
        m >= 0,
        c > 0,
        limit >= 2,
        n * c == m * d,
    ensures
        excess(n, d, limit) == excess(m, c, limit),
        significand(n, d, limit) == significand(m, c, limit),
{
    lemma_common_factor(n, d, limit, c);
    lemma_common_factor(m, c, limit, d);
    assert(c * n == d * m) by (nonlinear_arith)
        requires
            n * c == m * d,
    ;
    assert(c * d == d * c) by (nonlinear_arith);
}

/// The bit pattern, without sign, of the number nearest to `n / d` units: units are the smallest
/// positive number, `limit` is the bound of significands and `infinity` the pattern of infinity.
pub open spec fn packed(n: int, d: int, limit: int, infinity: int) -> int {
    let bits = excess(n, d, limit) * (limit / 2) + significand(n, d, limit);
    if bits < infinity {
        bits
    } else {
        infinity
    }
}

/// `n` times two to the `y`, where `y` is not negative; else `n`.
pub open spec fn raised(n: int, y: int) -> int {
    if y > 0 {
        n * pow2(y as nat)
    } else {
        n
    }
}

pub proof fn lemma_raised_positive(n: int, y: int)
    requires
        n > 0,
    ensures
        raised(n, y) > 0,
{
    if y > 0 {
        power2::lemma_pow2_pos(y as nat);
        let w = pow2(y as nat) as int;
        assert(n * w > 0) by (nonlinear_arith)
            requires
                n > 0,
                w > 0,
        ;
    }
}

/// The significand of `n / d`, by how many bits it was shifted, and the divisor that was used.
fn round_to(n: u128, d: u128, limit: u128) -> (r: (u128, i32, u128))
    requires
        d > 0,
        limit >= 2,
        n <= 0x0FFF_FFFF_FFFF_FFFF_FFFF_FFFF_FFFF_FFFF,
        excess(n as int, d as int, limit as int) <= 200,
    ensures
        r.0 == significand(n as int, d as int, limit as int),
        r.1 == excess(n as int, d as int, limit as int),
        r.2 == d * pow2(excess(n as int, d as int, limit as int)),
        r.2 > 0,
{
    let mut c: u128 = d;
    let mut s: i32 = 0;
    while n / limit >= c
        invariant
            c > 0,
            s >= 0,
            limit >= 2,
            n <= 0x0FFF_FFFF_FFFF_FFFF_FFFF_FFFF_FFFF_FFFF,
            s + excess(n as int, c as int, limit as int) == excess(
                n as int,
                d as int,
                limit as int,
            ),
            c * pow2(excess(n as int, c as int, limit as int)) == d * pow2(
                excess(n as int, d as int, limit as int),
            ),
            excess(n as int, d as int, limit as int) <= 200,
        decreases n - c,
    {
        proof {
            let a = n as int;
            let l = limit as int;
            let k = c as int;
            assert(a >= l * k) by (nonlinear_arith)
                requires
                    a / l >= k,
                    l >= 2,
            ;
            lemma_excess_step(a, k, l);
            assert(2 * k <= l * k) by (nonlinear_arith)
                requires
                    l >= 2,
                    k > 0,
            ;
        }
        c = 2 * c;
        s = s + 1;
    }
    proof {
        let a = n as int;
        let l = limit as int;
        let k = c as int;
        assert(a < l * k) by (nonlinear_arith)
            requires
                a / l < k,
                l >= 2,
        ;
        power2::lemma2_to64();
        let w = pow2(excess(a, k, l)) as int;
        assert(k * w == k) by (nonlinear_arith)
            requires
                w == 1,
        ;
        assert(k == d * pow2(excess(a, d as int, l)));
    }
    (nearest(n, c), s, c)
}

/// The integer nearest to `n / c`, the even one where two are equally near.
fn nearest(n: u128, c: u128) -> (q: u128)
    requires
        c > 0,
        n <= 0x0FFF_FFFF_FFFF_FFFF_FFFF_FFFF_FFFF_FFFF,
    ensures
        q == nearest_even(n as int, c as int),
{
    let q: u128 = n / c;
    let r: u128 = n % c;
    proof {
        let a = n as int;
        let k = c as int;
        assert(a / k <= a) by (nonlinear_arith)
            requires
                0 <= a,
                k >= 1,
        ;
    }
    if r < c - r || (r == c - r && q % 2 == 0) {
        q
    } else {
        q + 1
    }
}

/// `excess` is bounded by the doublings that reach `n`.
pub proof fn lemma_excess_bound(n: int, d: int, limit: int, k: nat)
    requires
        d > 0,
        limit >= 2,
        n < limit * d * pow2(k),
    ensures
        excess(n, d, limit) <= k,
    decreases k,
{
    if k == 0 {
        power2::lemma2_to64();
    } else if n >= limit * d {
        lemma_excess_step(n, d, limit);
        power2::lemma_pow2_unfold(k);
        let p = pow2((k - 1) as nat) as int;
        assert(limit * d * (2 * p) == limit * (2 * d) * p) by (nonlinear_arith);
        lemma_excess_bound(n, 2 * d, limit, (k - 1) as nat);
    }
}

/// Rounding to a significand keeps within the next power of two.
pub proof fn lemma_significand_bound(n: int, d: int, limit: int)
    requires
        n >= 0,
        d > 0,
        limit >= 2,
    ensures
        0 <= significand(n, d, limit) <= limit,
    decreases n - d,
{
    let e = excess(n, d, limit);
    if n >= limit * d {
        lemma_excess_step(n, d, limit);
        assert(2 * d <= limit * d) by (nonlinear_arith)
            requires
                d > 0,
                limit >= 2,
        ;
        lemma_significand_bound(n, 2 * d, limit);
    } else {
        power2::lemma2_to64();
        assert(d * pow2(e) == d) by {
            assert(e == 0);
        }
        assert(0 <= n / d < limit) by (nonlinear_arith)
            requires
                0 <= n < limit * d,
                d > 0,
        ;
    }
}

pub proof fn lemma_small_power(k: nat, bound: nat)
    requires
        k <= bound,
    ensures
        0 < pow2(k) <= pow2(bound),
{
    power2::lemma_pow2_pos(k);
    if k < bound {
        power2::lemma_pow2_strictly_increases(k, bound);
    }
}

/// What is small against the divisor rounds to nothing, and more so after further doublings.
proof fn lemma_nearest_nothing(n: int, c: int, k: nat)
    requires
        n >= 0,
        c > 2 * n,
    ensures
        nearest_even(n, c * pow2(k)) == 0,
{
    power2::lemma_pow2_pos(k);
    let w = pow2(k) as int;
    assert(c * w >= c) by (nonlinear_arith)
        requires
            c > 0,
            w >= 1,
    ;
    let d = c * w;
    vstd::arithmetic::div_mod::lemma_fundamental_div_mod_converse(n, d, 0, n);
}

/// The nearest integer to `n` over `c` doubled `k` times.
fn nearest_doubled(n: u128, c: u128, k: u32) -> (q: u128)
    requires
        c > 0,
        n <= 0x0FFF_FFFF_FFFF_FFFF_FFFF_FFFF_FFFF_FFFF,
    ensures
        q == nearest_even(n as int, c * pow2(k as nat)),
{
    let mut b: u128 = c;
    let mut left: u32 = k;
    while left > 0
        invariant
            b > 0,
            b * pow2(left as nat) == c * pow2(k as nat),
            n <= 0x0FFF_FFFF_FFFF_FFFF_FFFF_FFFF_FFFF_FFFF,
        decreases left,
    {
        if b > 2 * n {
            proof {
                lemma_nearest_nothing(n as int, b as int, left as nat);
            }
            return 0;
        }
        proof {
            power2::lemma_pow2_unfold(left as nat);
            let p = pow2((left - 1) as nat) as int;
            let v = b as int;
            assert(v * (2 * p) == (2 * v) * p) by (nonlinear_arith);
        }
        b = 2 * b;
        left = left - 1;
    }
    proof {
        power2::lemma2_to64();
        let v = b as int;
        assert(v * 1 == v);
    }
    nearest(n, b)
}

/// The bit pattern of the number nearest to `n / d` times two to the `y`.
pub(crate) fn pack(n: u128, d: u128, y: i32, limit: u128, infinity: u64) -> (bits: u64)
    requires
        d > 0,
        limit == 0x100_0000 || limit == 0x20_0000_0000_0000,
        n >= limit * d,
        n <= 0x0FFF_FFFF_FFFF_FFFF_FFFF_FFFF_FFFF_FFFF,
        -5000 <= y <= 5000,
        infinity <= 0x7FF0_0000_0000_0000,
    ensures
        bits == packed(
            raised(n as int, y as int),
            raised(d as int, -y as int),
            limit as int,
            infinity as int,
        ),
{
    let ghost a = n as int;
    let ghost b = d as int;
    let ghost l = limit as int;
    proof {
        power2::lemma2_to64();
        power2::lemma2_to64_rest();
        power2::lemma_pow2_adds(64, 60);
        assert(a < l * b * pow2(124)) by (nonlinear_arith)
            requires
                a < pow2(124),
                l >= 1,
                b >= 1,
        ;
        lemma_excess_bound(a, b, l, 124);
        lemma_excess_step(a, b, l);
        lemma_significand_bound(a, b, l);
    }
    let (q, s, c): (u128, i32, u128) = round_to(n, d, limit);
    let t: i32 = s + y;
    proof {
        lemma_pack(a, b, y as int, l);
    }
    if t >= 0 {
        proof {
            let h = (limit / 2) as int;
            assert(0 <= t * h <= 6000 * 0x10_0000_0000_0000) by (nonlinear_arith)
                requires
                    0 <= t <= 6000,
                    0 <= h <= 0x10_0000_0000_0000,
            ;
        }
        let high: u128 = t as u128 * (limit / 2);
        let bits: u128 = high + q;
        if bits < infinity as u128 {
            bits as u64
        } else {
            infinity
        }
    } else {
        let bits: u128 = nearest_doubled(n, c, (-t) as u32);
        proof {
            lemma_significand_bound(raised(a, y as int), raised(b, -y as int), l);
        }
        if bits < infinity as u128 {
            bits as u64
        } else {
            infinity
        }
    }
}

/// How rounding goes when a quotient is scaled by a power of two.
proof fn lemma_pack(n: int, d: int, y: int, limit: int)
    requires
        d > 0,
        limit >= 2,
        n >= limit * d,
    ensures
        ({
            let s = excess(n, d, limit);
            let m = raised(n, y);
            let c = raised(d, -y);
            &&& m > 0
            &&& c > 0
            &&& s + y >= 0 ==> excess(m, c, limit) == s + y && significand(m, c, limit)
                == significand(n, d, limit)
            &&& s + y < 0 ==> excess(m, c, limit) == 0 && significand(m, c, limit) == nearest_even(
                n,
                d * pow2(s) * pow2((-(s + y)) as nat),
            )
        }),
{
    let s = excess(n, d, limit);
    lemma_excess_step(n, d, limit);
    assert(limit * d >= 2 * d) by (nonlinear_arith)
        requires
            d > 0,
            limit >= 2,
    ;
    lemma_raised_positive(n, y);
    lemma_raised_positive(d, -y);
    if y > 0 {
        let w = pow2(y as nat) as int;
        power2::lemma_pow2_pos(y as nat);
        lemma_common_factor(n, d, limit, w);
        assert(w * n == n * w) by (nonlinear_arith);
        assert(w * d == d * w) by (nonlinear_arith);
        lemma_excess_shift(n * w, d, limit, y as nat);
    } else {
        let k = (-y) as nat;
        power2::lemma2_to64();
        assert(y == 0 ==> d * pow2(k) == d);
        lemma_excess_shift(n, d, limit, k);
        if s + y < 0 {
            power2::lemma_pow2_adds(s, (k - s) as nat);
            let u = pow2(s) as int;
            let v = pow2((k - s) as nat) as int;
            assert(d * u * v == d * (u * v)) by (nonlinear_arith);
            let z = d * pow2(k);
            assert(z * 1 == z);
        }
    }
}

/// A number that is a full significand, shifted, and less than half of its last unit rounds to
/// that significand.
pub proof fn lemma_nearly_exact(m: int, s: nat, rest: int, limit: int)
    requires
        limit >= 2,
        limit % 2 == 0,
        limit / 2 <= m < limit,
        0 <= rest,
        2 * rest < pow2(s),
    ensures
        excess(m * pow2(s) + rest, 1, limit) == s,
        significand(m * pow2(s) + rest, 1, limit) == m,
{
    let p = pow2(s) as int;
    let n = m * p + rest;
    power2::lemma2_to64();
    power2::lemma_pow2_pos(s);
    assert(1 * p == p);
    assert(n < limit * p) by (nonlinear_arith)
        requires
            n == m * p + rest,
            m + 1 <= limit,
            rest < p,
            p > 0,
    ;
    lemma_excess_shift(n, 1, limit, s);
    if s > 0 {
        let h = pow2((s - 1) as nat) as int;
        power2::lemma_pow2_pos((s - 1) as nat);
        power2::lemma_pow2_unfold(s);
        assert(n >= limit * h) by (nonlinear_arith)
            requires
                n == m * (2 * h) + rest,
                rest >= 0,
                2 * m >= limit,
                h > 0,
        ;
        assert(1 * h == h);
        lemma_excess_step(n, h, limit);
        lemma_excess_shift(n, 1, limit, (s - 1) as nat);
    }
    vstd::arithmetic::div_mod::lemma_fundamental_div_mod_converse(n, p, m, rest);
}

/// A number below the bound of significands is its own rounding.
pub proof fn lemma_small_exact(n: int, limit: int)
    requires
        0 <= n < limit,
        limit >= 2,
    ensures
        excess(n, 1, limit) == 0,
        significand(n, 1, limit) == n,
{
    power2::lemma2_to64();
    vstd::arithmetic::div_mod::lemma_fundamental_div_mod_converse(n, 1, n, 0);
}

proof fn lemma_nearest_monotone(n: int, m: int, c: int)
    requires
        n <= m,
        c > 0,
    ensures
        nearest_even(n, c) <= nearest_even(m, c),
{
    vstd::arithmetic::div_mod::lemma_div_is_ordered(n, m, c);
    vstd::arithmetic::div_mod::lemma_fundamental_div_mod(n, c);
    vstd::arithmetic::div_mod::lemma_fundamental_div_mod(m, c);
    if n / c == m / c {
        assert(c * (n / c) == c * (m / c));
    }
}

pub proof fn lemma_excess_monotone(n: int, m: int, d: int, limit: int)
    requires
        n <= m,
        d > 0,
        limit >= 2,
    ensures
        excess(n, d, limit) <= excess(m, d, limit),
    decreases n - d,
{
    if n >= limit * d {
        assert(limit * d >= 2 * d) by (nonlinear_arith)
            requires
                d > 0,
                limit >= 2,
        ;
        lemma_excess_step(n, d, limit);
        lemma_excess_step(m, d, limit);
        lemma_excess_monotone(n, m, 2 * d, limit);
    }
}

/// A significand that was shifted is a full one.
pub proof fn lemma_significand_full(n: int, d: int, limit: int)
    requires
        d > 0,
        limit >= 2,
        limit % 2 == 0,
        n >= limit * d,
    ensures
        significand(n, d, limit) >= limit / 2,
    decreases n - d,
{
    lemma_excess_step(n, d, limit);
    assert(limit * d >= 2 * d) by (nonlinear_arith)
        requires
            d > 0,
            limit >= 2,
    ;
    if n >= limit * (2 * d) {
        lemma_significand_full(n, 2 * d, limit);
    } else {
        power2::lemma2_to64();
        let c = 2 * d;
        assert(c * 1 == c);
        let h = limit / 2;
        assert(n >= h * c) by (nonlinear_arith)
            requires
                n >= limit * d,
                limit == 2 * h,
                c == 2 * d,
        ;
        vstd::arithmetic::div_mod::lemma_div_is_ordered(h * c, n, c);
        vstd::arithmetic::div_mod::lemma_div_multiples_vanish(h, c);
        assert(h * c == c * h) by (nonlinear_arith);
    }
}

/// Rounding keeps the order.
pub proof fn law_rounding_is_monotone(n: int, m: int, d: int, limit: int, infinity: int)
    requires
        0 <= n <= m,
        d > 0,
        limit >= 2,
        limit % 2 == 0,
    ensures
        packed(n, d, limit, infinity) <= packed(m, d, limit, infinity),
{
    let s = excess(n, d, limit);
    let t = excess(m, d, limit);
    let h = limit / 2;
    lemma_excess_monotone(n, m, d, limit);
    lemma_significand_bound(n, d, limit);
    lemma_significand_bound(m, d, limit);
    if s == t {
        power2::lemma_pow2_pos(s);
        let c = d * pow2(s);
        let p = pow2(s) as int;
        assert(d * p > 0) by (nonlinear_arith)
            requires
                d > 0,
                p > 0,
        ;
        lemma_nearest_monotone(n, m, c);
    } else {
        assert(m >= limit * d) by {
            if m < limit * d {
                assert(t == 0);
            }
        }
        lemma_significand_full(m, d, limit);
        assert((s + 1) * h <= t * h) by (nonlinear_arith)
            requires
                s + 1 <= t,
                h >= 0,
        ;
        assert((s + 1) * h == s * h + h) by (nonlinear_arith);
    }
}

/// Rounding keeps the order of quotients.
pub proof fn lemma_quotient_monotone(n: int, d: int, m: int, c: int, limit: int, infinity: int)
    requires
        0 <= n,
        0 <= m,
        d > 0,
        c > 0,
        limit >= 2,
        limit % 2 == 0,
        n * c <= m * d,
    ensures
        packed(n, d, limit, infinity) <= packed(m, c, limit, infinity),
{
    lemma_common_factor(n, d, limit, c);
    lemma_common_factor(m, c, limit, d);
    assert(c * n == n * c && d * m == m * d && c * d == d * c) by (nonlinear_arith);
    assert(c * n >= 0 && c * d > 0) by (nonlinear_arith)
        requires
            n >= 0,
            c > 0,
            d > 0,
    ;
    law_rounding_is_monotone(c * n, d * m, c * d, limit, infinity);
}

/// Bit patterns are not negative and do not go beyond infinity.
pub proof fn lemma_packed_range(n: int, d: int, limit: int, infinity: int)
    requires
        n >= 0,
        d > 0,
        limit >= 2,
        infinity >= 0,
    ensures
        0 <= packed(n, d, limit, infinity) <= infinity,
{
    lemma_significand_bound(n, d, limit);
    let e = excess(n, d, limit) as int;
    let h = limit / 2;
    assert(e * h >= 0) by (nonlinear_arith)
        requires
            e >= 0,
            h >= 0,
    ;
}

/// The divisor that is used keeps the significand full.
pub proof fn lemma_divisor(n: int, d: int, limit: int)
    requires
        d > 0,
        limit >= 2,
        limit % 2 == 0,
        n >= limit * d,
    ensures
        limit * (d * pow2(excess(n, d, limit))) <= 2 * n,
    decreases n - d,
{
    lemma_excess_step(n, d, limit);
    assert(limit * d >= 2 * d) by (nonlinear_arith)
        requires
            d > 0,
            limit >= 2,
    ;
    if n >= limit * (2 * d) {
        lemma_divisor(n, 2 * d, limit);
    } else {
        power2::lemma2_to64();
        let c = 2 * d;
        assert(c * 1 == c);
        assert(limit * c == 2 * (limit * d)) by (nonlinear_arith)
            requires
                c == 2 * d,
        ;
    }
}

/// Rounding is off by no more than one part in `limit`, where the quotient is large or whole.
pub proof fn lemma_rounding_error(n: int, d: int, limit: int)
    requires
        n >= 0,
        d > 0,
        limit >= 2,
        limit % 2 == 0,
        n >= limit * d || d == 1,
    ensures
        limit * (rounded(n, d, limit) * d) <= n * (limit + 1),
        limit * (rounded(n, d, limit) * d) >= n * (limit - 1),
{
    let p = pow2(excess(n, d, limit)) as int;
    let c = d * p;
    let q = significand(n, d, limit);
    power2::lemma_pow2_pos(excess(n, d, limit));
    assert(c > 0) by (nonlinear_arith)
        requires
            c == d * p,
            d > 0,
            p > 0,
    ;
    assert((q * p) * d == q * c) by (nonlinear_arith)
        requires
            c == d * p,
    ;
    vstd::arithmetic::div_mod::lemma_fundamental_div_mod(n, c);
    let k = n / c;
    assert((k + 1) * c == k * c + c) by (nonlinear_arith);
    assert(c * k == k * c) by (nonlinear_arith);
    let off = q * c - n;
    assert(-c <= 2 * off <= c);
    if n >= limit * d {
        lemma_divisor(n, d, limit);
        assert(limit * c <= 2 * n);
        assert(limit * (2 * off) <= limit * c && limit * (2 * off) >= -(limit * c)) by (nonlinear_arith)
            requires
                -c <= 2 * off <= c,
                limit > 0,
        ;
        assert(limit * (2 * off) == 2 * (limit * off)) by (nonlinear_arith);
    } else {
        assert(limit * d == limit) by (nonlinear_arith)
            requires
                d == 1,
        ;
        lemma_small_exact(n, limit);
        power2::lemma2_to64();
        assert(c == 1);
        assert(off == 0) by {
            assert(q == n);
            assert(n * 1 == n);
        }
        assert(limit * off == 0) by (nonlinear_arith)
            requires
                off == 0,
        ;
    }
    let r = q * c;
    assert(limit * r == limit * n + limit * off) by (nonlinear_arith)
        requires
            off == r - n,
    ;
    assert(n * (limit + 1) == limit * n + n) by (nonlinear_arith);
    assert(n * (limit - 1) == limit * n - n) by (nonlinear_arith);
}

/// A significand, shifted, is its own rounding.
pub proof fn lemma_shift_exact(c: int, k: nat, limit: int)
    requires
        0 < c < limit,
        limit % 2 == 0,
    ensures
        rounded(c * pow2(k), 1, limit) == c * pow2(k),
    decreases k,
{
    power2::lemma2_to64();
    power2::lemma_pow2_pos(k);
    if 2 * c >= limit {
        lemma_nearly_exact(c, k, 0, limit);
    } else if k == 0 {
        assert(c * 1 == c);
        lemma_small_exact(c, limit);
    } else {
        power2::lemma_pow2_unfold(k);
        let p = pow2((k - 1) as nat) as int;
        assert(c * (2 * p) == (2 * c) * p) by (nonlinear_arith);
        lemma_shift_exact(2 * c, (k - 1) as nat, limit);
    }
}

} // verus!
