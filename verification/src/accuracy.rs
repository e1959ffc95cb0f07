//! How far a rounded result can be from the exact one.
use crate::accounting::size;
use crate::double::{
    absolute, equal, is_negative, larger, less, negated, product, quotient, ratio, rounded,
    sign_of, smaller, sum, units, zero, Value,
};
use crate::exactness::lemma_nearest_bounds;
use crate::rounding::{
    dropped, lemma_dropped_bounds, lemma_pow2_monotone, nearest, round_ratio,
};
use vstd::arithmetic::power2::{
    lemma2_to64, lemma2_to64_rest, lemma_pow2_adds, lemma_pow2_pos, pow2,
};
use vstd::prelude::*;

verus! {

/// Whether `x` is off from `y` by at most one part in `2^bits`.
pub open spec fn near(x: int, y: int, bits: nat) -> bool {
    pow2(bits) * size(x - y) <= size(y)
}

/// What a ratio is rounded to is off by at most one part in `2^53`, or by half a unit.
pub proof fn lemma_round_error(n: nat, d: nat)
    requires
        d > 0,
    ensures
        pow2(53) * size(round_ratio(n, d) * d - n) <= n || 2 * size(round_ratio(n, d) * d - n) <= d,
        n >= d * pow2(52) ==> pow2(53) * size(round_ratio(n, d) * d - n) <= n,
{
    let k = dropped(n, d);
    let p = pow2(k);
    lemma_dropped_bounds(n, d);
    lemma_pow2_pos(k);
    lemma2_to64_rest();
    let e = d * p;
    assert(e > 0) by (nonlinear_arith)
        requires
            e == d * p,
            d > 0,
            p > 0,
    ;
    lemma_nearest_bounds(n, e);
    let x = nearest(n, e);
    let off = size(round_ratio(n, d) * d - n);
    assert(round_ratio(n, d) * d == x * e) by (nonlinear_arith)
        requires
            round_ratio(n, d) == x * p,
            e == d * p,
    ;
    assert((2 * x - 1) * e == 2 * (x * e) - e) by (nonlinear_arith);
    assert((2 * x + 1) * e == 2 * (x * e) + e) by (nonlinear_arith);
    assert(2 * off <= e);
    let h = pow2(52);
    if k > 0 {
        lemma_pow2_adds(52, k);
        assert(pow2(53) * off <= n) by (nonlinear_arith)
            requires
                d * (h * p) <= n,
                2 * off <= e,
                e == d * p,
                pow2(53) == 2 * h,
                h > 0,
        ;
    } else {
        lemma2_to64();
        assert(e == d) by (nonlinear_arith)
            requires
                e == d * p,
                p == 1,
        ;
        if n >= d * pow2(52) {
            assert(pow2(53) * off <= n) by (nonlinear_arith)
                requires
                    2 * off <= d,
                    n >= d * h,
                    pow2(53) == 2 * h,
                    h > 0,
            ;
        }
    }
}

/// A finite sum is off by at most one part in `2^53`.
pub proof fn law_sums_are_accurate(a: Value, b: Value)
    requires
        a is Finite,
        b is Finite,
        sum(a, b) is Finite,
    ensures
        near(units(sum(a, b)), units(a) + units(b), 53),
{
    reveal(sum);
    reveal(rounded);
    let t = units(a) + units(b);
    let n = size(t) as nat;
    lemma_pow2_pos(53);
    if n > 0 {
        lemma_round_error(n, 1);
        let r = round_ratio(n, 1);
        assert(r * 1 == r);
        if !(pow2(53) * size(r - n) <= n) {
            assert(size(r - n) == 0);
            assert(pow2(53) * 0 == 0) by (nonlinear_arith);
        }
    } else {
        assert(pow2(53) * 0 == 0) by (nonlinear_arith);
    }
}

/// A finite product is off by at most one part in `2^53`, or by half a unit.
pub proof fn law_products_are_accurate(a: Value, b: Value)
    requires
        a is Finite,
        b is Finite,
        product(a, b) is Finite,
    ensures
        near(units(product(a, b)) * pow2(1074), units(a) * units(b), 53) || 2 * size(
            units(product(a, b)) * pow2(1074) - units(a) * units(b),
        ) <= pow2(1074),
        size(units(a) * units(b)) >= pow2(1126) ==> near(
            units(product(a, b)) * pow2(1074),
            units(a) * units(b),
            53,
        ),
{
    reveal(product);
    reveal(rounded);
    let w = pow2(1074);
    lemma_pow2_pos(1074);
    lemma_pow2_adds(1074, 52);
    let (m, n) = (a->magnitude, b->magnitude);
    lemma_round_error(m * n, w);
    let r = round_ratio(m * n, w);
    let (x, y) = (units(a), units(b));
    let z = units(product(a, b));
    let c = is_negative(a) != is_negative(b);
    let s = m * n;
    assert(x * y == if c {
        -(s as int)
    } else {
        s as int
    }) by (nonlinear_arith)
        requires
            x == if is_negative(a) {
                -(m as int)
            } else {
                m as int
            },
            y == if is_negative(b) {
                -(n as int)
            } else {
                n as int
            },
            c == (is_negative(a) != is_negative(b)),
            s == m * n,
    ;
    assert((-(r as int)) * w == -(r * w)) by (nonlinear_arith);
    assert(size(z * w - x * y) == size(r * w - s));
    assert(size(x * y) == s);
}

/// A finite quotient is off by at most one part in `2^53` of what it stands for, or by half a unit.
pub proof fn law_quotients_are_accurate(a: Value, b: Value)
    requires
        a is Finite,
        b is Finite,
        units(b) > 0,
        quotient(a, b) is Finite,
    ensures
        size(units(a)) * pow2(1022) >= units(b) ==> near(
            units(quotient(a, b)) * units(b),
            units(a) * pow2(1074),
            53,
        ),
{
    reveal(quotient);
    reveal(rounded);
    let w = pow2(1074);
    lemma_pow2_pos(1074);
    lemma_pow2_pos(52);
    lemma_pow2_adds(1022, 52);
    let (m, n) = (a->magnitude, b->magnitude);
    lemma_round_error(m * w, n);
    let r = round_ratio(m * w, n);
    let z = units(quotient(a, b));
    let s = m * w;
    let x = units(a);
    assert((-(r as int)) * n == -(r * n)) by (nonlinear_arith);
    assert((-(m as int)) * w == -(m * w)) by (nonlinear_arith);
    assert(size(z * n - x * w) == size(r * n - s));
    if m * pow2(1022) >= n {
        assert(s >= n * pow2(52)) by (nonlinear_arith)
            requires
                m * pow2(1022) >= n,
                w == pow2(1022) * pow2(52),
                s == m * w,
        ;
    }
}

/// A decimal fraction is off by at most one part in `2^53`.
pub proof fn law_ratios_are_accurate(n: nat, d: nat)
    requires
        0 < n,
        0 < d <= pow2(1000),
        n <= pow2(1000),
    ensures
        ratio(n, d) is Finite,
        !is_negative(ratio(n, d)),
        near(units(ratio(n, d)) * d, (n * pow2(1074)) as int, 53),
{
    reveal(rounded);
    let w = pow2(1074);
    lemma_pow2_pos(1074);
    lemma_pow2_pos(1000);
    lemma_pow2_adds(1000, 74);
    lemma_pow2_adds(1000, 52);
    lemma_pow2_adds(1000, 1074);
    lemma_pow2_monotone(1052, 1074);
    let s = n * w;
    assert(s >= d * pow2(52)) by (nonlinear_arith)
        requires
            s == n * w,
            n >= 1,
            w >= pow2(1000) * pow2(52),
            d <= pow2(1000),
    ;
    lemma_round_error(s, d);
    let r = round_ratio(s, d);
    lemma_pow2_pos(53);
    assert(pow2(53) >= 1);
    let off = size(r * d - s);
    assert(off <= s) by (nonlinear_arith)
        requires
            pow2(53) * off <= s,
            pow2(53) >= 1,
            off >= 0,
    ;
    assert(r <= 2 * s) by (nonlinear_arith)
        requires
            r * d <= 2 * s,
            d >= 1,
    ;
    assert(s <= pow2(2074)) by (nonlinear_arith)
        requires
            s == n * w,
            n <= pow2(1000),
            pow2(2074) == pow2(1000) * w,
    ;
    lemma_pow2_adds(2074, 1);
    lemma2_to64();
    lemma_pow2_monotone(2076, 2098);
    lemma_pow2_adds(2074, 2);
    lemma_pow2_pos(2074);
}

/// A sum within the range of the format is finite.
pub proof fn lemma_sum_is_finite(a: Value, b: Value)
    requires
        a is Finite,
        b is Finite,
        size(units(a) + units(b)) < pow2(2097),
    ensures
        sum(a, b) is Finite,
{
    reveal(sum);
    reveal(rounded);
    let n = size(units(a) + units(b)) as nat;
    lemma2_to64();
    lemma_pow2_adds(2097, 1);
    lemma_pow2_pos(53);
    if n > 0 {
        lemma_round_error(n, 1);
        let r = round_ratio(n, 1);
        let off = size(r * 1 - n);
        assert(off <= n) by (nonlinear_arith)
            requires
                pow2(53) * off <= n || 2 * off <= 1,
                pow2(53) >= 1,
                n >= 1,
                off >= 0,
        ;
    }
}

/// A product within the range of the format is finite.
pub proof fn lemma_product_is_finite(a: Value, b: Value)
    requires
        a is Finite,
        b is Finite,
        size(units(a)) * size(units(b)) < pow2(2097) * pow2(1074),
    ensures
        product(a, b) is Finite,
{
    reveal(product);
    reveal(rounded);
    let w = pow2(1074);
    lemma_pow2_pos(1074);
    lemma_pow2_pos(53);
    lemma_pow2_pos(2097);
    lemma2_to64();
    lemma_pow2_adds(2097, 1);
    let n = a->magnitude * b->magnitude;
    assert(n == size(units(a)) * size(units(b)));
    lemma_round_error(n, w);
    let r = round_ratio(n, w);
    let off = size(r * w - n);
    let h = pow2(2097);
    assert(r < 2 * h) by (nonlinear_arith)
        requires
            pow2(53) * off <= n || 2 * off <= w,
            r * w <= n + off,
            n < h * w,
            pow2(53) >= 1,
            off >= 0,
            h >= 1,
            w >= 1,
    ;
}

/// A quotient within the range of the format is finite.
pub proof fn lemma_quotient_is_finite(a: Value, b: Value)
    requires
        a is Finite,
        b is Finite,
        units(b) > 0,
        size(units(a)) * pow2(1074) < pow2(2097) * units(b),
    ensures
        quotient(a, b) is Finite,
{
    reveal(quotient);
    reveal(rounded);
    let w = pow2(1074);
    lemma_pow2_pos(1074);
    lemma_pow2_pos(53);
    lemma_pow2_pos(2097);
    lemma2_to64();
    lemma_pow2_adds(2097, 1);
    let n = a->magnitude * w;
    let d = b->magnitude;
    lemma_round_error(n, d);
    let r = round_ratio(n, d);
    let off = size(r * d - n);
    let h = pow2(2097);
    assert(r < 2 * h) by (nonlinear_arith)
        requires
            pow2(53) * off <= n || 2 * off <= d,
            r * d <= n + off,
            n < h * d,
            pow2(53) >= 1,
            off >= 0,
            h >= 1,
            d >= 1,
    ;
}

/// Finite numbers are ordered as their counts of units; the smaller and the larger of two are those
/// of the counts, and signs are as usual.
pub proof fn law_numbers_are_ordered(a: Value, b: Value)
    requires
        a is Finite,
        b is Finite,
    ensures
        less(a, b) <==> units(a) < units(b),
        equal(a, b) <==> units(a) == units(b),
        smaller(a, b) is Finite,
        units(smaller(a, b)) == if units(b) < units(a) {
            units(b)
        } else {
            units(a)
        },
        larger(a, b) is Finite,
        units(larger(a, b)) == if units(b) > units(a) {
            units(b)
        } else {
            units(a)
        },
        absolute(a) is Finite,
        units(absolute(a)) == size(units(a)),
        negated(a) is Finite,
        units(negated(a)) == -units(a),
        units(a) > 0 ==> units(sign_of(a)) == pow2(1074),
        units(a) < 0 ==> units(sign_of(a)) == -pow2(1074),
        units(zero()) == 0,
{
}

} // verus!
