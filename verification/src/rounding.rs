//! Facts about rounding a fraction `n / d` to the nearest whole number,
//! ties to even, as `round_half_even` does with a quotient and remainder.

use vstd::prelude::*;
use vstd::arithmetic::div_mod::{lemma_fundamental_div_mod, lemma_fundamental_div_mod_converse, lemma_mod_bound};
use crate::percent::round_half_even;

verus! {

/// The fraction `n / d` rounded to a whole number, ties to even.
pub open spec fn rhe_ratio(n: nat, d: nat) -> nat {
    round_half_even(n / d, n % d, d)
}

/// The rounded fraction is within one half of the fraction:
/// `|2 * d * rounded - 2 * n| <= d`.
pub proof fn lemma_rhe_bounds(n: nat, d: nat)
    requires
        d > 0,
    ensures
        2 * n <= 2 * d * rhe_ratio(n, d) + d,
        2 * d * rhe_ratio(n, d) <= 2 * n + d,
{
    let q = n / d;
    let r = n % d;
    lemma_fundamental_div_mod(n as int, d as int);
    lemma_mod_bound(n as int, d as int);
    let big_r = rhe_ratio(n, d);
    if big_r == q + 1 {
        assert(2 * r >= d);
        assert(2 * d * big_r == 2 * (d * q) + 2 * d) by (nonlinear_arith)
            requires big_r == q + 1;
    } else {
        assert(big_r == q);
        assert(2 * r <= d);
        assert(2 * d * big_r == 2 * (d * q)) by (nonlinear_arith)
            requires big_r == q;
    }
    assert(d * q == q * d) by (nonlinear_arith);
}

/// A fraction exactly halfway between two whole numbers rounds to the even
/// one, and any other fraction rounds to the nearer one.
pub proof fn lemma_rhe_ties_to_even(n: nat, d: nat)
    requires
        d > 0,
    ensures
        2 * (n % d) == d ==> rhe_ratio(n, d) % 2 == 0,
        2 * (n % d) < d ==> rhe_ratio(n, d) == n / d,
        2 * (n % d) > d ==> rhe_ratio(n, d) == n / d + 1,
{
}

/// Two fractions with the same value have the same whole part, and
/// remainders in the same proportion as their denominators.
pub proof fn lemma_ratio_div_mod(n1: nat, d1: nat, n2: nat, d2: nat)
    requires
        d1 > 0,
        d2 > 0,
        n1 * d2 == n2 * d1,
    ensures
        n1 / d1 == n2 / d2,
        (n1 % d1) * d2 == (n2 % d2) * d1,
{
    let q1 = (n1 / d1) as int;
    let r1 = (n1 % d1) as int;
    lemma_fundamental_div_mod(n1 as int, d1 as int);
    lemma_mod_bound(n1 as int, d1 as int);
    let r2 = n2 - q1 * d2;
    assert(r2 * d1 == r1 * d2) by (nonlinear_arith)
        requires
            r2 == n2 - q1 * d2,
            n1 == q1 * d1 + r1,
            n1 * d2 == n2 * d1;
    assert(0 <= r2 < d2) by (nonlinear_arith)
        requires
            r2 * d1 == r1 * d2,
            0 <= r1 < d1,
            d1 > 0,
            d2 > 0;
    lemma_fundamental_div_mod_converse(n2 as int, d2 as int, q1, r2);
}

/// Rounding depends only on the value of the fraction.
pub proof fn lemma_rhe_ratio(n1: nat, d1: nat, n2: nat, d2: nat)
    requires
        d1 > 0,
        d2 > 0,
        n1 * d2 == n2 * d1,
    ensures
        rhe_ratio(n1, d1) == rhe_ratio(n2, d2),
{
    lemma_ratio_div_mod(n1, d1, n2, d2);
    let r1 = n1 % d1;
    let r2 = n2 % d2;
    assert((2 * r1 - d1) * d2 == (2 * r2 - d2) * d1) by (nonlinear_arith)
        requires r1 * d2 == r2 * d1;
    assert(2 * r1 > d1 <==> 2 * r2 > d2) by (nonlinear_arith)
        requires (2 * r1 - d1) * d2 == (2 * r2 - d2) * d1, d1 > 0, d2 > 0;
    assert(2 * r1 == d1 <==> 2 * r2 == d2) by (nonlinear_arith)
        requires (2 * r1 - d1) * d2 == (2 * r2 - d2) * d1, d1 > 0, d2 > 0;
}

/// Rounding keeps the order of fractions.
pub proof fn lemma_rhe_monotone(n1: nat, d1: nat, n2: nat, d2: nat)
    requires
        d1 > 0,
        d2 > 0,
        n1 * d2 <= n2 * d1,
    ensures
        rhe_ratio(n1, d1) <= rhe_ratio(n2, d2),
{
    let a = rhe_ratio(n1, d1);
    let b = rhe_ratio(n2, d2);
    lemma_rhe_bounds(n1, d1);
    lemma_rhe_bounds(n2, d2);
    if a > b {
        // both fractions would have to be the same half-integer
        assert(n1 * d2 == n2 * d1) by (nonlinear_arith)
            requires
                a >= b + 1,
                2 * n1 <= 2 * d1 * a + d1,
                2 * d1 * a <= 2 * n1 + d1,
                2 * n2 <= 2 * d2 * b + d2,
                2 * d2 * b <= 2 * n2 + d2,
                n1 * d2 <= n2 * d1,
                d1 > 0,
                d2 > 0;
        lemma_rhe_ratio(n1, d1, n2, d2);
    }
}

/// Away from half-integers, rounding is `floor((2n + d) / 2d)`, and
/// `2n + d` is a multiple of `2d` exactly at the half-integers.
pub proof fn lemma_rhe_as_floor(n: nat, d: nat)
    requires
        d > 0,
    ensures
        2 * (n % d) != d ==> rhe_ratio(n, d) == (2 * n + d) / (2 * d) && (2 * n + d) % (2 * d) != 0,
        2 * (n % d) == d ==> (2 * n + d) % (2 * d) == 0,
{
    let q = (n / d) as int;
    let r = (n % d) as int;
    lemma_fundamental_div_mod(n as int, d as int);
    lemma_mod_bound(n as int, d as int);
    let m = (2 * n + d) as int;
    let dd = (2 * d) as int;
    if 2 * r < d {
        assert(m == q * dd + (2 * r + d)) by (nonlinear_arith)
            requires m == 2 * n + d, dd == 2 * d, n == q * d + r;
        lemma_fundamental_div_mod_converse(m, dd, q, 2 * r + d);
    } else if 2 * r > d {
        assert(m == (q + 1) * dd + (2 * r - d)) by (nonlinear_arith)
            requires m == 2 * n + d, dd == 2 * d, n == q * d + r;
        lemma_fundamental_div_mod_converse(m, dd, q + 1, 2 * r - d);
    } else {
        assert(m == (q + 1) * dd + 0) by (nonlinear_arith)
            requires m == 2 * n + d, dd == 2 * d, n == q * d + r, 2 * r == d;
        lemma_fundamental_div_mod_converse(m, dd, q + 1, 0);
    }
}

/// A fraction `a / u` closer than `1 / 2t` to a fraction `n / t` that is not
/// a half-integer rounds the same way.
pub proof fn lemma_rhe_close(a: nat, u: nat, n: nat, t: nat)
    requires
        u > 0,
        t > 0,
        -u < 2 * (a * t - n * u) < u,
        2 * (n % t) != t,
    ensures
        rhe_ratio(a, u) == rhe_ratio(n, t),
{
    lemma_rhe_as_floor(n, t);
    lemma_rhe_as_floor(a, u);
    let tt = (2 * t) as int;
    let uu = (2 * u) as int;
    let m = (2 * n + t) as int;
    let k = m / tt;
    lemma_fundamental_div_mod(m, tt);
    lemma_mod_bound(m, tt);
    let rem = m % tt;
    assert(m % tt == ((2 * n + t) % (2 * t)) as int);
    assert(tt * k < m < tt * k + tt) by (nonlinear_arith)
        requires m == tt * k + rem, rem != 0, 0 <= rem < tt;
    let w = (2 * a + u) as int;
    assert(uu * k < w < uu * k + uu) by (nonlinear_arith)
        requires
            w == 2 * a + u,
            m == 2 * n + t,
            tt == 2 * t,
            uu == 2 * u,
            tt * k < m < tt * k + tt,
            -u < 2 * (a * t - n * u) < u,
            t > 0,
            u > 0;
    assert(w == k * uu + (w - uu * k)) by (nonlinear_arith);
    lemma_fundamental_div_mod_converse(w, uu, k, w - uu * k);
}

} // verus!
