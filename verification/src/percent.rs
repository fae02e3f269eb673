//! Percentages of a directory's size taken by each of its entries, computed
//! in `rust_decimal` arithmetic and rounded to one decimal place.

use vstd::prelude::*;
use rust_decimal::Decimal;
use crate::rounding::{rhe_ratio, lemma_rhe_bounds, lemma_rhe_close, lemma_rhe_monotone, lemma_rhe_ratio, lemma_ratio_div_mod};

verus! {

/// The largest magnitude of a decimal's mantissa: 2^96 - 1.
pub const DECIMAL_MAX_MANTISSA: i128 = 0xFFFF_FFFF_FFFF_FFFF_FFFF_FFFF;

/// The largest scale (number of fractional digits) of a decimal.
pub const DECIMAL_MAX_SCALE: u32 = 28;

/// A decimal number `mantissa * 10^-scale`, held as the two plain values
/// that a `rust_decimal::Decimal` is made of.
#[derive(Clone, Copy, Debug, PartialEq, Eq, Structural)]
pub struct DecimalValue {
    pub mantissa: i128,
    pub scale: u32,
}

impl DecimalValue {
    /// The values that a `rust_decimal::Decimal` can hold.
    pub open spec fn wf(self) -> bool {
        &&& self.scale <= DECIMAL_MAX_SCALE
        &&& -DECIMAL_MAX_MANTISSA <= self.mantissa <= DECIMAL_MAX_MANTISSA
    }
}

/// 10 to the power `n`.
pub open spec fn pow10(n: nat) -> nat
    decreases n,
{
    if n == 0 { 1 } else { 10 * pow10((n - 1) as nat) }
}

/// The integer `n` as a decimal of scale 0.
pub open spec fn int_decimal(n: int) -> DecimalValue {
    DecimalValue { mantissa: n as i128, scale: 0 }
}

/// The magnitude `q` (a truncated quotient by `unit`, with remainder `r`)
/// rounded half to even: up when the remainder is above half a unit, or
/// exactly half a unit with `q` odd.
pub open spec fn round_half_even(q: nat, r: nat, unit: nat) -> nat {
    if 2 * r > unit || (2 * r == unit && q % 2 == 1) { q + 1 } else { q }
}

/// `d` rounded to `dp` fractional digits, ties to even; a decimal with at
/// most `dp` fractional digits is returned as it is.
pub open spec fn spec_round_dp(d: DecimalValue, dp: nat) -> DecimalValue {
    if d.scale <= dp {
        d
    } else {
        let unit = pow10((d.scale - dp) as nat);
        let a: nat = (if d.mantissa < 0 { -d.mantissa } else { d.mantissa as int }) as nat;
        let q = round_half_even(a / unit, a % unit, unit);
        DecimalValue {
            mantissa: (if d.mantissa < 0 { -q } else { q as int }) as i128,
            scale: dp as u32,
        }
    }
}

/// The magnitude of `x`.
pub open spec fn abs_int(x: int) -> int {
    if x < 0 { -x } else { x }
}

/// The larger of `x` and `y`.
pub open spec fn max_int(x: int, y: int) -> int {
    if x >= y { x } else { y }
}

/// How far the quotient `q` lies from the exact value of `a / b`, times
/// `|b| * 10^q.scale`: `|q.mantissa * b - a * 10^q.scale|`.
pub open spec fn quotient_error(a: DecimalValue, b: DecimalValue, q: DecimalValue) -> int {
    abs_int(q.mantissa * b.mantissa - a.mantissa * pow10(q.scale as nat))
}

/// How close `rust_decimal`'s quotient `q` of `a / b` is to the exact
/// value: within half a unit of `q`'s last digit, and within half of
/// `10^-28` or of `|q| * 10^-27`, whichever is larger (the quotient carries
/// 28 fractional digits, or all the digits that fit, or is exact).
pub open spec fn quotient_is_close(a: DecimalValue, b: DecimalValue, q: DecimalValue) -> bool {
    &&& 2 * quotient_error(a, b, q) <= abs_int(b.mantissa as int)
    &&& 2 * quotient_error(a, b, q) * pow10(28) <= abs_int(b.mantissa as int)
        * max_int(pow10(q.scale as nat) as int, 10 * abs_int(q.mantissa as int))
}

/// The decimal that `rust_decimal` returns for `dividend / divisor`.
pub uninterp spec fn decimal_quotient(dividend: DecimalValue, divisor: DecimalValue) -> DecimalValue;

/// The decimal 100, which the whole directory always takes.
pub open spec fn hundred_percent() -> DecimalValue {
    int_decimal(100)
}

/// The percentage that an entry of `part` bytes takes of a directory of
/// `total` bytes: `part * 100 / total` in decimal arithmetic, rounded to one
/// fractional digit.
pub open spec fn spec_percent(part: nat, total: nat) -> DecimalValue {
    spec_round_dp(decimal_quotient(int_decimal((100 * part) as int), int_decimal(total as int)), 1)
}

/// The percentage that `part` takes of `total`, as a decimal: the exact
/// whole number where `100 * part / total` is one, else that share rounded
/// to tenths, ties to even, at scale 1.
pub open spec fn spec_share(part: nat, total: nat) -> DecimalValue {
    if (100 * part) % total == 0 {
        int_decimal(((100 * part) / total) as int)
    } else {
        DecimalValue { mantissa: rhe_ratio(1000 * part, total) as i128, scale: 1 }
    }
}

/// Rounding the decimal quotient of `100 * part / total` to tenths gives
/// the exactly rounded share: the quotient is close enough that rounding it
/// twice never differs from rounding the exact share once.
pub proof fn lemma_rounded_quotient_is_share(part: nat, total: nat, q: DecimalValue)
    requires
        part <= i64::MAX,
        0 < total <= i64::MAX,
        q.wf(),
        quotient_is_close(int_decimal((100 * part) as int), int_decimal(total as int), q),
        (100 * part) % total == 0 ==> q == int_decimal(((100 * part) / total) as int),
    ensures
        spec_round_dp(q, 1) == spec_share(part, total),
{
    if (100 * part) % total != 0 {
        let a: int = (100 * part) as int;
        let n: nat = 1000 * part;
        let t: int = total as int;
        let m: int = q.mantissa as int;
        let big_p: int = pow10(q.scale as nat) as int;
        let e: int = m * t - a * big_p;
        assert(int_decimal(a).mantissa == a);
        assert(int_decimal(t).mantissa == t);
        assert(quotient_error(int_decimal(a), int_decimal(t), q) == abs_int(e));
        lemma_pow10_positive(q.scale as nat);
        assert(pow10(28) == 10000000000000000000000000000) by {
            reveal_with_fuel(pow10, 29);
        }
        let c: int = 10000000000000000000000000000;
        assert(-t <= 2 * e <= t);
        assert(2 * abs_int(e) * c <= t * max_int(big_p, 10 * abs_int(m)));
        assert(a <= 922337203685477580700);
        // the quotient is not negative
        assert(m >= 0) by {
            if m < 0 {
                assert(m * t <= -t) by (nonlinear_arith)
                    requires m < 0, t > 0;
                assert(a * big_p >= 0) by (nonlinear_arith)
                    requires a >= 0, big_p >= 1;
            }
        }
        assert(2 * m * t <= 2 * a * big_p + t) by (nonlinear_arith)
            requires e == m * t - a * big_p, 2 * e <= t;
        if q.scale == 0 {
            assert(big_p == 1);
            assert(e != 0) by {
                if e == 0 {
                    vstd::arithmetic::div_mod::lemma_mod_multiples_basic(m, t);
                    assert(a == m * t) by (nonlinear_arith)
                        requires e == m * t - a * big_p, e == 0, big_p == 1;
                }
            }
            assert(false) by (nonlinear_arith)
                requires
                    e != 0,
                    2 * abs_int(e) * c <= t * max_int(big_p, 10 * abs_int(m)),
                    big_p == 1,
                    m >= 0,
                    2 * m * t <= 2 * a * big_p + t,
                    0 < t <= 9223372036854775807,
                    0 <= a <= 922337203685477580700,
                    c == 10000000000000000000000000000;
        } else if q.scale == 1 {
            assert(big_p == 10) by { reveal_with_fuel(pow10, 2); }
            assert(e == 0) by (nonlinear_arith)
                requires
                    2 * abs_int(e) * c <= t * max_int(big_p, 10 * abs_int(m)),
                    big_p == 10,
                    m >= 0,
                    2 * m * t <= 2 * a * big_p + t,
                    0 < t <= 9223372036854775807,
                    0 <= a <= 922337203685477580700,
                    c == 10000000000000000000000000000;
            assert(n * 1 == m * t) by (nonlinear_arith)
                requires e == m * t - a * big_p, e == 0, big_p == 10, n == 10 * a;
            lemma_rhe_ratio(n, total, m as nat, 1);
            assert(rhe_ratio(m as nat, 1) == m) by {
                vstd::arithmetic::div_mod::lemma_fundamental_div_mod_converse(m, 1, m, 0);
            }
        } else {
            let u: int = pow10((q.scale - 1) as nat) as int;
            let small_p: int = pow10((q.scale - 2) as nat) as int;
            lemma_pow10_positive((q.scale - 2) as nat);
            assert(u == 10 * small_p);
            assert(big_p == 10 * u);
            assert(n * u == a * big_p) by (nonlinear_arith)
                requires n == 10 * a, big_p == 10 * u;
            let r = spec_round_dp(q, 1);
            assert(r.mantissa == rhe_ratio(m as nat, u as nat));
            if 2 * (n % total) == total {
                let j: int = (n / total) as int;
                let ni: int = n as int;
                let rem: int = (n % total) as int;
                vstd::arithmetic::div_mod::lemma_fundamental_div_mod(ni, t);
                assert(ni == j * t + rem);
                let w: int = 5 * small_p * (2 * j + 1);
                assert(a * big_p == t * w) by (nonlinear_arith)
                    requires
                        a * big_p == ni * u,
                        ni == j * t + rem,
                        2 * rem == t,
                        u == 10 * small_p,
                        w == 5 * small_p * (2 * j + 1);
                assert(e == 0) by (nonlinear_arith)
                    requires
                        e == m * t - t * w,
                        -t <= 2 * e <= t,
                        t > 0;
                lemma_rhe_ratio(m as nat, u as nat, n, total);
            } else {
                assert(-u < 2 * e < u) by (nonlinear_arith)
                    requires
                        2 * abs_int(e) * c <= t * max_int(big_p, 10 * abs_int(m)),
                        big_p == 10 * u,
                        u >= 10,
                        m >= 0,
                        2 * m * t <= 2 * a * big_p + t,
                        0 < t <= 9223372036854775807,
                        0 <= a <= 922337203685477580700,
                        c == 10000000000000000000000000000;
                lemma_rhe_close(m as nat, u as nat, n, total);
            }
        }
    }
}

/// `Decimal::new(num, scale)`: claimed to give the decimal whose mantissa is
/// `num` and whose scale is `scale`. It panics for a scale above 28, which
/// `requires` leaves out.
#[verifier::external_body]
fn decimal_new(num: i64, scale: u32) -> (d: DecimalValue)
    requires
        scale <= DECIMAL_MAX_SCALE,
    ensures
        d.mantissa == num,
        d.scale == scale,
{
    let d = Decimal::new(num, scale);
    DecimalValue { mantissa: d.mantissa(), scale: d.scale() }
}

/// `Decimal * Decimal`: claimed to give the exact product, with the sum of
/// the scales (scale 0 for a zero product), where that product fits a
/// decimal; `requires` admits only such operands, so no rounding or
/// overflow panic happens.
#[verifier::external_body]
fn decimal_mul(a: DecimalValue, b: DecimalValue) -> (p: DecimalValue)
    requires
        a.wf(),
        b.wf(),
        a.scale + b.scale <= DECIMAL_MAX_SCALE,
        -DECIMAL_MAX_MANTISSA <= a.mantissa * b.mantissa <= DECIMAL_MAX_MANTISSA,
    ensures
        p.mantissa == a.mantissa * b.mantissa,
        p.scale == (if a.mantissa * b.mantissa == 0 { 0 } else { a.scale + b.scale }),
{
    let p = Decimal::from_i128_with_scale(a.mantissa, a.scale)
        * Decimal::from_i128_with_scale(b.mantissa, b.scale);
    DecimalValue { mantissa: p.mantissa(), scale: p.scale() }
}

/// `Decimal / Decimal`: claimed to give a valid decimal that is named
/// `decimal_quotient` of the operands, and, where the divisor divides the
/// dividend, the exact quotient at scale 0 (zero for a zero dividend).
/// Otherwise the quotient's digits are computed until the remainder is zero,
/// the scale is 28, or one more digit would not fit in 96 bits, and the last
/// digit is rounded half to even; removing trailing zeros keeps the value.
/// This is stated as `quotient_is_close`. How it rounds a quotient that has
/// no exact decimal form is left unsaid. `requires` keeps to integer
/// operands and a non-zero divisor, where the call neither divides by zero
/// nor overflows.
#[verifier::external_body]
fn decimal_div(a: DecimalValue, b: DecimalValue) -> (q: DecimalValue)
    requires
        a.wf(),
        b.wf(),
        a.scale == 0,
        b.scale == 0,
        b.mantissa != 0,
    ensures
        q == decimal_quotient(a, b),
        q.wf(),
        a.mantissa % b.mantissa == 0 ==> q == int_decimal(a.mantissa / b.mantissa),
        quotient_is_close(a, b, q),
{
    let q = Decimal::from_i128_with_scale(a.mantissa, a.scale)
        / Decimal::from_i128_with_scale(b.mantissa, b.scale);
    DecimalValue { mantissa: q.mantissa(), scale: q.scale() }
}

/// `Decimal::round_dp(dp)`: claimed to round to `dp` fractional digits,
/// ties to even ("Bankers Rounding"), and to return a decimal with at most
/// `dp` fractional digits unchanged.
#[verifier::external_body]
fn decimal_round_dp(d: DecimalValue, dp: u32) -> (r: DecimalValue)
    requires
        d.wf(),
    ensures
        r == spec_round_dp(d, dp as nat),
{
    let r = Decimal::from_i128_with_scale(d.mantissa, d.scale).round_dp(dp);
    DecimalValue { mantissa: r.mantissa(), scale: r.scale() }
}

/// Rounds a quotient to the one fractional digit that a percentage shows.
pub fn round_percent(quotient: DecimalValue) -> (r: DecimalValue)
    requires
        quotient.wf(),
    ensures
        r == spec_round_dp(quotient, 1),
{
    decimal_round_dp(quotient, 1)
}

/// The percentage of `total` that `part` takes, rounded to one decimal.
fn percent_of(part: u64, total: u64) -> (p: DecimalValue)
    requires
        part <= i64::MAX,
        0 < total <= i64::MAX,
    ensures
        p == spec_percent(part as nat, total as nat),
        p == spec_share(part as nat, total as nat),
        (100 * part) % (total as int) == 0 ==> p == int_decimal((100 * part) / (total as int)),
{
    let size = decimal_new(part as i64, 0);
    let hundred = decimal_new(100, 0);
    let product = decimal_mul(size, hundred);
    let whole = decimal_new(total as i64, 0);
    let quotient = decimal_div(product, whole);
    assert(product == int_decimal((100 * part) as int));
    assert(whole == int_decimal(total as int));
    proof {
        lemma_rounded_quotient_is_share(part as nat, total as nat, quotient);
    }
    round_percent(quotient)
}

/// The percentage that each entry takes of the first one, which is the
/// directory itself: the first is always 100, entry `i` is
/// `sizes[i] * 100 / sizes[0]` rounded to one decimal (`spec_share`: the exact
/// share rounded to tenths, ties to even). Where that quotient is
/// a whole number it is exact: an entry of zero bytes takes 0 percent and an
/// entry as large as the directory takes 100.
pub fn percentage(sizes: &Vec<u64>) -> (percent: Vec<DecimalValue>)
    requires
        sizes.len() >= 1,
        forall|i: int| 0 <= i < sizes.len() ==> #[trigger] sizes[i] <= i64::MAX,
        sizes.len() > 1 ==> sizes[0] > 0,
    ensures
        percent.len() == sizes.len(),
        percent[0] == hundred_percent(),
        percent[0].mantissa == 100 && percent[0].scale == 0,
        forall|i: int| 1 <= i < sizes.len() ==>
            #[trigger] percent[i] == spec_percent(sizes[i] as nat, sizes[0] as nat),
        forall|i: int| 1 <= i < sizes.len() ==>
            #[trigger] percent[i] == spec_share(sizes[i] as nat, sizes[0] as nat),
        forall|i: int| 1 <= i < sizes.len() && (100 * sizes[i]) % (sizes[0] as int) == 0
            ==> #[trigger] percent[i] == int_decimal((100 * sizes[i]) / (sizes[0] as int)),
        forall|i: int| 1 <= i < sizes.len() && sizes[i] == 0 ==> #[trigger] percent[i] == int_decimal(0),
        forall|i: int| 1 <= i < sizes.len() && sizes[i] == sizes[0] ==> #[trigger] percent[i] == hundred_percent(),
{
    let total = sizes[0];
    let mut percent: Vec<DecimalValue> = Vec::new();
    percent.push(decimal_new(100, 0));
    for k in 1..sizes.len()
        invariant
            sizes.len() >= 1,
            total == sizes[0],
            forall|i: int| 0 <= i < sizes.len() ==> #[trigger] sizes[i] <= i64::MAX,
            sizes.len() > 1 ==> sizes[0] > 0,
            percent.len() == k,
            percent[0] == hundred_percent(),
            forall|i: int| 1 <= i < k ==>
                #[trigger] percent[i] == spec_percent(sizes[i] as nat, sizes[0] as nat),
            forall|i: int| 1 <= i < k ==>
                #[trigger] percent[i] == spec_share(sizes[i] as nat, sizes[0] as nat),
            forall|i: int| 1 <= i < k && (100 * sizes[i]) % (sizes[0] as int) == 0
                ==> #[trigger] percent[i] == int_decimal((100 * sizes[i]) / (sizes[0] as int)),
    {
        let p = percent_of(sizes[k], total);
        percent.push(p);
    }
    assert forall|i: int| 1 <= i < sizes.len() && sizes[i] == sizes[0] implies
        #[trigger] percent[i] == hundred_percent() by {
        let t = sizes[0] as int;
        vstd::arithmetic::div_mod::lemma_mod_multiples_basic(100, t);
        vstd::arithmetic::div_mod::lemma_div_multiples_vanish(100, t);
        assert(100 * t == t * 100) by (nonlinear_arith);
    }
    percent
}


/// Rounding to one decimal moves a quotient by at most half a tenth: with
/// `u` the weight of a tenth in the quotient's last digits,
/// `|rounded * u - quotient| <= u / 2`; a quotient with at most one
/// fractional digit is kept as it is.
pub proof fn lemma_round_percent_within_half_tenth(q: DecimalValue)
    requires
        q.wf(),
    ensures
        q.scale <= 1 ==> spec_round_dp(q, 1) == q,
        q.scale > 1 ==> {
            let r = spec_round_dp(q, 1);
            let u = pow10((q.scale - 1) as nat) as int;
            &&& r.scale == 1
            &&& -u <= 2 * (r.mantissa * u - q.mantissa) <= u
        },
{
    if q.scale > 1 {
        let u = pow10((q.scale - 1) as nat);
        lemma_pow10_positive((q.scale - 1) as nat);
        let a: nat = (if q.mantissa < 0 { -q.mantissa } else { q.mantissa as int }) as nat;
        vstd::arithmetic::div_mod::lemma_fundamental_div_mod(a as int, u as int);
        vstd::arithmetic::div_mod::lemma_mod_bound(a as int, u as int);
        let qq = round_half_even(a / u, a % u, u);
        let d = a / u;
        let m = a % u;
        assert(a == d * u + m);
        if 2 * m > u || (2 * m == u && d % 2 == 1) {
            assert(qq == d + 1);
            assert(qq * u == d * u + u) by (nonlinear_arith)
                requires qq == d + 1;
        } else {
            assert(qq == d);
        }
        assert(-(u as int) <= 2 * (qq * u - a) <= u);
        assert(qq <= DECIMAL_MAX_MANTISSA) by {
            if qq == a / u + 1 {
                assert(a % u > 0);
                assert(u >= 10) by { lemma_pow10_ge_ten((q.scale - 1) as nat); }
                vstd::arithmetic::div_mod::lemma_div_is_ordered_by_denominator(a as int, 10, u as int);
                vstd::arithmetic::div_mod::lemma_div_plus_one(a as int, 10);
            }
        }
        let r = spec_round_dp(q, 1);
        if q.mantissa < 0 {
            assert(r.mantissa == -qq);
            assert(r.mantissa * u == -(qq * u)) by (nonlinear_arith)
                requires r.mantissa == -qq;
        } else {
            assert(r.mantissa == qq);
        }
    }
}

/// The value of a non-negative `q` times ten, as the fraction `n / d` that
/// rounding to tenths rounds.
pub open spec fn tenths_fraction(q: DecimalValue) -> (nat, nat) {
    if q.scale <= 1 {
        ((q.mantissa * pow10((1 - q.scale) as nat)) as nat, 1)
    } else {
        (q.mantissa as nat, pow10((q.scale - 1) as nat))
    }
}

/// Rounding a non-negative decimal to tenths gives a decimal of scale 0 or
/// 1 whose value in tenths is the rounded fraction `tenths_fraction(q)`.
pub proof fn lemma_round_percent_tenths(q: DecimalValue)
    requires
        q.wf(),
        q.mantissa >= 0,
    ensures
        tenths_fraction(q).1 > 0,
        tenths_fraction(q).0 * pow10(q.scale as nat) == 10 * q.mantissa * tenths_fraction(q).1,
        spec_round_dp(q, 1).scale <= 1,
        decimal_tenths(spec_round_dp(q, 1)) == rhe_ratio(tenths_fraction(q).0, tenths_fraction(q).1),
{
    let m = q.mantissa as nat;
    if q.scale == 0 {
        assert(pow10(1) == 10) by { reveal_with_fuel(pow10, 2); }
        assert(pow10(0) == 1);
        let n = 10 * m;
        assert((1 - q.scale) as nat == 1);
        assert(q.mantissa * pow10(1) == n);
        assert(tenths_fraction(q).0 == n);
        assert(tenths_fraction(q) == (n, 1nat));
        vstd::arithmetic::div_mod::lemma_fundamental_div_mod_converse(n as int, 1, n as int, 0);
        assert(rhe_ratio(n, 1) == n);
        assert(spec_round_dp(q, 1) == q);
        assert(n * pow10(0) == 10 * q.mantissa * 1);
    } else if q.scale == 1 {
        assert(pow10(1) == 10) by { reveal_with_fuel(pow10, 2); }
        assert(pow10(0) == 1);
        assert((1 - q.scale) as nat == 0);
        assert(q.mantissa * pow10(0) == m);
        assert(tenths_fraction(q) == (m, 1nat));
        vstd::arithmetic::div_mod::lemma_fundamental_div_mod_converse(m as int, 1, m as int, 0);
        assert(rhe_ratio(m, 1) == m);
        assert(spec_round_dp(q, 1) == q);
    } else {
        let u = pow10((q.scale - 1) as nat);
        lemma_pow10_positive((q.scale - 1) as nat);
        assert(pow10(q.scale as nat) == 10 * u);
        lemma_rhe_bounds(m, u);
        assert(rhe_ratio(m, u) <= m + 1) by (nonlinear_arith)
            requires 2 * u * rhe_ratio(m, u) <= 2 * m + u, u >= 1;
        assert(m * (10 * u) == 10 * m * u) by (nonlinear_arith);
    }
}

/// Rounding to one decimal keeps the order of non-negative decimals of any
/// scales: the larger never rounds, in tenths, below the smaller.
pub proof fn lemma_round_percent_monotone(q1: DecimalValue, q2: DecimalValue)
    requires
        q1.wf(),
        q2.wf(),
        0 <= q1.mantissa,
        q1.mantissa * pow10(q2.scale as nat) <= q2.mantissa * pow10(q1.scale as nat),
    ensures
        spec_round_dp(q1, 1).scale <= 1,
        spec_round_dp(q2, 1).scale <= 1,
        decimal_tenths(spec_round_dp(q1, 1)) <= decimal_tenths(spec_round_dp(q2, 1)),
{
    let p1 = pow10(q1.scale as nat) as int;
    let p2 = pow10(q2.scale as nat) as int;
    lemma_pow10_positive(q1.scale as nat);
    lemma_pow10_positive(q2.scale as nat);
    let m1 = q1.mantissa as int;
    let m2 = q2.mantissa as int;
    assert(m2 >= 0) by (nonlinear_arith)
        requires m1 >= 0, m1 * p2 <= m2 * p1, p1 >= 1, p2 >= 1;
    lemma_round_percent_tenths(q1);
    lemma_round_percent_tenths(q2);
    let (n1, d1) = tenths_fraction(q1);
    let (n2, d2) = tenths_fraction(q2);
    assert(n1 * d2 <= n2 * d1) by (nonlinear_arith)
        requires
            n1 * p1 == 10 * m1 * d1,
            n2 * p2 == 10 * m2 * d2,
            m1 * p2 <= m2 * p1,
            p1 >= 1,
            p2 >= 1,
            d1 >= 1,
            d2 >= 1;
    lemma_rhe_monotone(n1, d1, n2, d2);
}

/// Ten to any power is positive.
pub proof fn lemma_pow10_positive(n: nat)
    ensures
        pow10(n) >= 1,
    decreases n,
{
    if n > 0 {
        lemma_pow10_positive((n - 1) as nat);
    }
}

/// Ten to a positive power is at least ten.
pub proof fn lemma_pow10_ge_ten(n: nat)
    requires
        n >= 1,
    ensures
        pow10(n) >= 10,
{
    lemma_pow10_positive((n - 1) as nat);
}

/// The value of a decimal of scale 0 or 1, in tenths.
pub open spec fn decimal_tenths(d: DecimalValue) -> int {
    if d.scale == 0 { 10 * d.mantissa } else { d.mantissa as int }
}

/// The exact share `1000 * part / total` tenths, rounded, ties to even.
pub open spec fn share_tenths(part: nat, total: nat) -> nat {
    rhe_ratio(1000 * part, total)
}

/// A share has scale 0 or 1 and its value is the rounded number of tenths.
pub proof fn lemma_share_tenths(part: nat, total: nat)
    requires
        part <= i64::MAX,
        total > 0,
    ensures
        spec_share(part, total).scale <= 1,
        decimal_tenths(spec_share(part, total)) == share_tenths(part, total),
{
    let n = 1000 * part;
    lemma_rhe_bounds(n, total);
    assert(share_tenths(part, total) <= n + 1) by (nonlinear_arith)
        requires
            2 * total * share_tenths(part, total) <= 2 * n + total,
            total >= 1;
    if (100 * part) % total == 0 {
        let c = (100 * part) / total;
        vstd::arithmetic::div_mod::lemma_fundamental_div_mod((100 * part) as int, total as int);
        assert(c <= 100 * part) by (nonlinear_arith)
            requires 100 * part == c * total, total >= 1;
        assert(n * 1 == (10 * c) * total) by (nonlinear_arith)
            requires 100 * part == c * total + 0, n == 1000 * part;
        lemma_rhe_ratio(n, total, 10 * c, 1);
        vstd::arithmetic::div_mod::lemma_fundamental_div_mod_converse((10 * c) as int, 1, (10 * c) as int, 0);
    }
}

/// The percentages depend only on the ratios of the sizes: multiplying the
/// part and the total by the same factor gives the same share.
pub proof fn lemma_share_scale_invariant(part: nat, total: nat, k: nat)
    requires
        total > 0,
        k >= 1,
    ensures
        spec_share(k * part, k * total) == spec_share(part, total),
{
    assert(k * total > 0) by (nonlinear_arith)
        requires k >= 1, total > 0;
    assert((100 * (k * part)) * total == (100 * part) * (k * total)) by (nonlinear_arith);
    lemma_ratio_div_mod(100 * (k * part), k * total, 100 * part, total);
    assert(((100 * (k * part)) % (k * total) == 0) <==> ((100 * part) % total == 0)) by (nonlinear_arith)
        requires
            ((100 * (k * part)) % (k * total)) * total == ((100 * part) % total) * (k * total),
            total > 0,
            k * total > 0;
    assert((1000 * (k * part)) * total == (1000 * part) * (k * total)) by (nonlinear_arith);
    lemma_rhe_ratio(1000 * (k * part), k * total, 1000 * part, total);
}

/// A share is within half a tenth of the exact share:
/// `|tenths * total - 1000 * part| <= total / 2`.
pub proof fn lemma_share_within_half_tenth(part: nat, total: nat)
    requires
        total > 0,
    ensures
        -(total as int) <= 2 * (share_tenths(part, total) * total - 1000 * part) <= total,
{
    lemma_rhe_bounds(1000 * part, total);
    assert(2 * (share_tenths(part, total) * total - 1000 * part)
        == 2 * total * share_tenths(part, total) - 2 * (1000 * part)) by (nonlinear_arith);
}

/// An entry no larger than the directory takes between 0 and 100 percent.
pub proof fn lemma_share_at_most_hundred(part: nat, total: nat)
    requires
        0 < total,
        part <= total,
    ensures
        0 <= share_tenths(part, total) <= 1000,
{
    assert((1000 * part) * 1 <= 1000 * total) by (nonlinear_arith)
        requires part <= total;
    lemma_rhe_monotone(1000 * part, total, 1000, 1);
    vstd::arithmetic::div_mod::lemma_fundamental_div_mod_converse(1000, 1, 1000, 0);
}

/// A larger entry never takes a smaller share of the same directory.
pub proof fn lemma_share_monotone(part1: nat, part2: nat, total: nat)
    requires
        0 < total,
        part1 <= part2,
    ensures
        share_tenths(part1, total) <= share_tenths(part2, total),
{
    assert((1000 * part1) * total <= (1000 * part2) * total) by (nonlinear_arith)
        requires part1 <= part2, total > 0;
    lemma_rhe_monotone(1000 * part1, total, 1000 * part2, total);
}

} // verus!
