//! Exact integer arithmetic for the geometry: products with proved bounds
//! and division rounded to the nearest integer.

use vstd::prelude::*;
use vstd::arithmetic::div_mod::lemma_fundamental_div_mod_converse;

verus! {

/// The integer nearest to the fraction `n / d`; a tie goes up.
pub open spec fn nearest(n: int, d: int) -> int {
    (2 * n + d) / (2 * d)
}

/// The magnitude of an integer.
pub open spec fn magnitude(a: int) -> int {
    if a < 0 {
        -a
    } else {
        a
    }
}

/// A product is bounded by the product of the bounds of its factors.
pub proof fn lemma_product_bound(a: int, b: int, ma: int, mb: int)
    by (nonlinear_arith)
    requires
        -ma <= a <= ma,
        -mb <= b <= mb,
    ensures
        -(ma * mb) <= a * b <= ma * mb,
{
}

/// Whatever quotient and remainder satisfy the division identity are the
/// quotient and remainder.
pub proof fn lemma_quotient_is(x: int, d: int, q: int, r: int)
    requires
        d > 0,
        0 <= r < d,
        x == q * d + r,
    ensures
        x / d == q,
        x % d == r,
{
    lemma_fundamental_div_mod_converse(x, d, q, r);
}

/// A dividend is its quotient times the divisor, plus its remainder.
pub proof fn lemma_division_identity(x: int, d: int)
    by (nonlinear_arith)
    requires
        d > 0,
    ensures
        x == d * (x / d) + x % d,
        0 <= x % d < d,
{
}

/// Rounding a whole number leaves it as it is: `nearest(k * d, d) == k`.
pub proof fn lemma_nearest_of_whole(k: int, d: int)
    requires
        d > 0,
    ensures
        nearest(k * d, d) == k,
{
    assert(2 * (k * d) + d == k * (2 * d) + d) by (nonlinear_arith);
    lemma_quotient_is(2 * (k * d) + d, 2 * d, k, d);
}

/// A whole number added to a fraction goes through the rounding:
/// `k + nearest(m, d) == nearest(k * d + m, d)`.
pub proof fn lemma_nearest_shift(k: int, m: int, d: int)
    requires
        d > 0,
    ensures
        k + nearest(m, d) == nearest(k * d + m, d),
{
    let q = nearest(m, d);
    lemma_division_identity(2 * m + d, 2 * d);
    let r = (2 * m + d) % (2 * d);
    assert(2 * (k * d + m) + d == (k + q) * (2 * d) + r) by (nonlinear_arith)
        requires
            2 * m + d == (2 * d) * q + r,
    ;
    lemma_quotient_is(2 * (k * d + m) + d, 2 * d, k + q, r);
}

/// Rounding is monotone in the numerator.
pub proof fn lemma_nearest_monotone(n1: int, n2: int, d: int)
    requires
        d > 0,
        n1 <= n2,
    ensures
        nearest(n1, d) <= nearest(n2, d),
{
    let q1 = nearest(n1, d);
    let q2 = nearest(n2, d);
    let x1 = 2 * n1 + d;
    let x2 = 2 * n2 + d;
    let e = 2 * d;
    assert(x1 == e * (x1 / e) + x1 % e && 0 <= x1 % e < e) by (nonlinear_arith)
        requires
            e > 0,
    ;
    assert(x2 == e * (x2 / e) + x2 % e && 0 <= x2 % e < e) by (nonlinear_arith)
        requires
            e > 0,
    ;
    if q1 > q2 {
        assert(e * q1 >= e * (q2 + 1)) by (nonlinear_arith)
            requires
                e > 0,
                q1 >= q2 + 1,
        ;
        assert(e * (q2 + 1) == e * q2 + e) by (nonlinear_arith);
    }
}

/// The product of two integers whose bounds are known.
pub(crate) fn times(a: i128, b: i128, Ghost(ma): Ghost<int>, Ghost(mb): Ghost<int>) -> (r: i128)
    requires
        -ma <= a <= ma,
        -mb <= b <= mb,
        ma * mb <= i128::MAX,
    ensures
        r == a * b,
        -(ma * mb) <= r <= ma * mb,
{
    proof {
        lemma_product_bound(a as int, b as int, ma, mb);
    }
    a * b
}

/// The quotient and the remainder of `n` by `d`, the quotient rounded down.
pub(crate) fn floor_div(n: i128, d: i128) -> (r: (i128, i128))
    requires
        0 < d,
        -i128::MAX <= n,
    ensures
        r.0 == n as int / d as int,
        r.1 == n as int % d as int,
        0 <= r.1 < d,
{
    proof {
        lemma_division_identity(n as int, d as int);
    }
    if n >= 0 {
        let q: u128 = (n as u128) / (d as u128);
        let rest: u128 = (n as u128) % (d as u128);
        proof {
            assert(q <= n) by (nonlinear_arith)
                requires
                    n == (d as int) * (q as int) + (rest as int),
                    d >= 1,
                    rest >= 0,
                    q >= 0,
            ;
        }
        (q as i128, rest as i128)
    } else {
        let k: u128 = (-n) as u128;
        let f: u128 = d as u128;
        let q: u128 = k / f;
        let rest: u128 = k % f;
        proof {
            lemma_division_identity(k as int, f as int);
            assert(q <= k) by (nonlinear_arith)
                requires
                    k == (f as int) * (q as int) + (rest as int),
                    f >= 1,
                    rest >= 0,
                    q >= 0,
            ;
            if rest == 0 {
                assert(n as int == (-(q as int)) * (d as int) + 0) by (nonlinear_arith)
                    requires
                        k == (f as int) * (q as int),
                        n == -(k as int),
                        d == f,
                ;
                lemma_quotient_is(n as int, d as int, -(q as int), 0);
            } else {
                assert(n as int == (-(q as int) - 1) * (d as int) + (d - rest)) by (nonlinear_arith)
                    requires
                        k == (f as int) * (q as int) + (rest as int),
                        n == -(k as int),
                        d == f,
                ;
                lemma_quotient_is(n as int, d as int, -(q as int) - 1, d - rest);
            }
        }
        if rest == 0 {
            (-(q as i128), 0)
        } else {
            (-(q as i128) - 1, d - rest as i128)
        }
    }
}

/// The largest divisor that `share` takes.
pub const SHARE_MAX: i128 = 20_000_000_000_000_000_000_000_000_000_000_000_000;

/// The largest magnitude of the factor that `share` takes.
pub const FACTOR_MAX: i128 = 2_000_000_000_000_000_000;

/// A multiple of the divisor plus a remainder, written out.
proof fn lemma_multiple(q: int, p: int, d: int)
    by (nonlinear_arith)
    ensures
        (q + p) * d == q * d + p * d,
        (q + 1) * d == q * d + d,
        (2 * q) * d == 2 * (q * d),
        (2 * q + 1) * d == 2 * (q * d) + d,
        (q + p + 1) * d == q * d + p * d + d,
{
}

/// A quotient is no more than the multiplier, where the multiplicand is no
/// more than the divisor.
proof fn lemma_quotient_bound(q: int, r: int, d: int, n: int, k: int)
    by (nonlinear_arith)
    requires
        0 < d,
        0 <= n <= d,
        0 <= k,
        0 <= r,
        q * d + r <= n * k,
    ensures
        q <= k,
{
    assert(n * k <= d * k);
    assert(q * d <= k * d);
}

/// The quotient and the remainder of the product `n * k` by `d`, where `n`
/// is no more than `d`: the product itself need not fit the machine.
pub(crate) fn product_divided(n: i128, k: i128, d: i128) -> (r: (i128, i128))
    requires
        0 <= n <= d,
        0 < d <= SHARE_MAX,
        0 <= k <= FACTOR_MAX,
    ensures
        n * k == r.0 * d + r.1,
        0 <= r.0 <= k,
        0 <= r.1 < d,
{
    // what has been added up: sum == high * d + low
    let mut high: i128 = 0;
    let mut low: i128 = 0;
    // what the next bit of the multiplier adds: summand == whole * d + part
    let mut whole: i128 = if n == d {
        1
    } else {
        0
    };
    let mut part: i128 = if n == d {
        0
    } else {
        n
    };
    let mut rest = k;
    let ghost mut sum: int = 0;
    let ghost mut summand: int = n as int;
    proof {
        assert(whole * d + part == n) by (nonlinear_arith)
            requires
                whole == 1 && part == 0 && n == d || whole == 0 && part == n,
        ;
        assert(high * d + low == 0) by (nonlinear_arith)
            requires
                high == 0,
                low == 0,
        ;
    }
    while rest > 0
        invariant
            0 <= n <= d,
            0 < d <= SHARE_MAX,
            0 <= k <= FACTOR_MAX,
            0 <= rest <= k,
            sum == high * d + low,
            summand == whole * d + part,
            sum + summand * rest == n * k,
            0 <= low < d,
            0 <= part < d,
            0 <= high,
            0 <= whole,
            0 <= sum,
            0 <= summand,
            high <= 2 * FACTOR_MAX + 1,
            whole <= 2 * FACTOR_MAX + 1,
        decreases rest,
    {
        let bit = rest % 2;
        let half = rest / 2;
        proof {
            assert(summand * rest >= summand) by (nonlinear_arith)
                requires
                    summand >= 0,
                    rest >= 1,
            ;
            lemma_quotient_bound(whole as int, part as int, d as int, n as int, k as int);
            lemma_quotient_bound(high as int, low as int, d as int, n as int, k as int);
            assert(rest == 2 * half + bit && (bit == 0 || bit == 1));
            if bit == 1 {
                assert(sum + summand * rest == (sum + summand) + (2 * summand) * half)
                    by (nonlinear_arith)
                    requires
                        rest == 2 * half + 1,
                ;
            } else {
                assert(sum + summand * rest == sum + (2 * summand) * half) by (nonlinear_arith)
                    requires
                        rest == 2 * half,
                ;
            }
            lemma_multiple(high as int, whole as int, d as int);
            lemma_multiple(whole as int, 0, d as int);
        }
        if bit == 1 {
            high = high + whole;
            low = low + part;
            if low >= d {
                low = low - d;
                high = high + 1;
            }
            proof {
                sum = sum + summand;
            }
        }
        whole = 2 * whole;
        part = 2 * part;
        if part >= d {
            part = part - d;
            whole = whole + 1;
        }
        proof {
            summand = 2 * summand;
            assert(sum >= 0);
            if half > 0 {
                assert(summand * half >= summand) by (nonlinear_arith)
                    requires
                        summand >= 0,
                        half >= 1,
                ;
            }
        }
        rest = half;
    }
    proof {
        assert(summand * rest == 0) by (nonlinear_arith)
            requires
                rest == 0,
        ;
        lemma_quotient_bound(high as int, low as int, d as int, n as int, k as int);
    }
    (high, low)
}

/// The product `n * m` divided by `d` and rounded to the nearest integer,
/// a tie going up, where `n` is no more than `d`: the share `n / d` of `m`.
pub(crate) fn share(n: i128, m: i128, d: i128) -> (r: i128)
    requires
        0 <= n <= d,
        0 < d <= SHARE_MAX,
        -FACTOR_MAX <= m <= FACTOR_MAX,
    ensures
        r == nearest(n * m, d as int),
{
    let k: i128 = if m < 0 {
        -m
    } else {
        m
    };
    let (q, rest) = product_divided(n, k, d);
    proof {
        assert(m >= 0 ==> n * m == n * k) by (nonlinear_arith)
            requires
                m >= 0 ==> k == m,
        ;
        assert(m < 0 ==> n * m == -(n * k)) by (nonlinear_arith)
            requires
                m < 0 ==> k == -m,
        ;
        assert(n * k >= 0) by (nonlinear_arith)
            requires
                n >= 0,
                k >= 0,
        ;
        lemma_multiple(q as int, 0, 2 * d);
        assert(q * (2 * d) == 2 * (q * d)) by (nonlinear_arith);
        assert((q + 1) * (2 * d) == 2 * (q * d) + 2 * d) by (nonlinear_arith);
        assert((-q) * (2 * d) == -2 * (q * d)) by (nonlinear_arith);
        assert((-q - 1) * (2 * d) == -2 * (q * d) - 2 * d) by (nonlinear_arith);
    }
    if m >= 0 {
        if 2 * rest >= d {
            proof {
                lemma_quotient_is(2 * (n * m) + d, 2 * d, q + 1, 2 * rest - d);
            }
            q + 1
        } else {
            proof {
                lemma_quotient_is(2 * (n * m) + d, 2 * d, q as int, 2 * rest + d);
            }
            q
        }
    } else {
        if 2 * rest > d {
            proof {
                lemma_quotient_is(2 * (n * m) + d, 2 * d, -q - 1, 3 * d - 2 * rest);
            }
            -q - 1
        } else {
            proof {
                lemma_quotient_is(2 * (n * m) + d, 2 * d, -(q as int), d - 2 * rest);
            }
            -q
        }
    }
}

} // verus!
