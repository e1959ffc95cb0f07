//! Which results are exact, how results are ordered, and that rounding goes to what is nearest.
use crate::double::{
    lemma_magnitude_bound, magnitude, ratio, rounded, whole, Double, Value, SIGN, UNIT,
};
use crate::rounding::{
    dropped, lemma_dropped_bounds, lemma_nearest_exact, lemma_pow2_monotone, nearest, round_ratio,
};
use vstd::arithmetic::div_mod::{lemma_fundamental_div_mod, lemma_fundamental_div_mod_converse};
use vstd::arithmetic::power2::{
    lemma2_to64, lemma2_to64_rest, lemma_pow2_adds, lemma_pow2_pos, lemma_pow2_unfold, pow2,
};
use vstd::prelude::*;

verus! {

/// `a * 2^k`.
pub open spec fn scaled(a: nat, k: nat) -> nat {
    a * pow2(k)
}

/// Whether a magnitude has at most 53 significant binary digits.
pub open spec fn is_short(m: nat) -> bool {
    exists|a: nat, k: nat| a < pow2(53) && m == #[trigger] scaled(a, k)
}

/// What is nearest is off by at most half a step.
pub proof fn lemma_nearest_bounds(n: nat, d: nat)
    requires
        d > 0,
    ensures
        (2 * nearest(n, d) - 1) * d <= 2 * n <= (2 * nearest(n, d) + 1) * d,
{
    lemma_fundamental_div_mod(n as int, d as int);
    let q = (n / d) as int;
    let r = (n % d) as int;
    let x = nearest(n, d) as int;
    if x == q {
        assert((2 * x - 1) * d <= 2 * n <= (2 * x + 1) * d) by (nonlinear_arith)
            requires
                n == d * q + r,
                x == q,
                0 <= r,
                2 * r <= d,
        ;
    } else {
        assert((2 * x - 1) * d <= 2 * n <= (2 * x + 1) * d) by (nonlinear_arith)
            requires
                n == d * q + r,
                x == q + 1,
                d <= 2 * r,
                r < d,
        ;
    }
}

proof fn lemma_nearest_tie(n: nat, d: nat, q: nat)
    requires
        d > 0,
        2 * n == (2 * q + 1) * d,
    ensures
        nearest(n, d) == if q % 2 == 0 {
            q
        } else {
            q + 1
        },
{
    let r = n - q * d;
    assert(2 * r == d) by (nonlinear_arith)
        requires
            2 * n == (2 * q + 1) * d,
            r == n - q * d,
    ;
    lemma_fundamental_div_mod_converse(n as int, d as int, q as int, r);
}

/// A larger ratio is not nearest to a smaller number.
pub proof fn lemma_nearest_monotone(n1: nat, d1: nat, n2: nat, d2: nat)
    requires
        d1 > 0,
        d2 > 0,
        n1 * d2 <= n2 * d1,
    ensures
        nearest(n1, d1) <= nearest(n2, d2),
{
    lemma_nearest_bounds(n1, d1);
    lemma_nearest_bounds(n2, d2);
    let x = nearest(n1, d1);
    let y = nearest(n2, d2);
    if x > y {
        assert(2 * n1 == (2 * y + 1) * d1 && 2 * n2 == (2 * y + 1) * d2) by {
            assert((2 * y + 1) * d1 <= 2 * n1) by (nonlinear_arith)
                requires
                    (2 * x - 1) * d1 <= 2 * n1,
                    x >= y + 1,
                    d1 > 0,
            ;
            let z = 2 * y + 1;
            assert(2 * n1 <= z * d1 && 2 * n2 >= z * d2) by (nonlinear_arith)
                requires
                    z * d1 <= 2 * n1,
                    2 * n2 <= z * d2,
                    n1 * d2 <= n2 * d1,
                    d1 > 0,
                    d2 > 0,
            ;
        }
        lemma_nearest_tie(n1, d1, y);
        lemma_nearest_tie(n2, d2, y);
    }
}

/// A larger ratio is not rounded to a smaller number.
pub proof fn lemma_round_monotone(n1: nat, d1: nat, n2: nat, d2: nat)
    requires
        d1 > 0,
        d2 > 0,
        n1 * d2 <= n2 * d1,
    ensures
        round_ratio(n1, d1) <= round_ratio(n2, d2),
{
    let k1 = dropped(n1, d1);
    let k2 = dropped(n2, d2);
    lemma_dropped_bounds(n1, d1);
    lemma_dropped_bounds(n2, d2);
    lemma_pow2_pos(k1);
    lemma_pow2_pos(k2);
    let p1 = pow2(k1);
    let p2 = pow2(k2);
    assert(d1 * p1 > 0 && d2 * p2 > 0) by (nonlinear_arith)
        requires
            d1 > 0,
            d2 > 0,
            p1 > 0,
            p2 > 0,
    ;
    if k1 > k2 {
        let w = pow2((52 + k1) as nat);
        lemma_pow2_monotone(53 + k2, (52 + k1) as nat);
        assert(false) by (nonlinear_arith)
            requires
                d1 * w <= n1,
                n2 < d2 * pow2(53 + k2),
                pow2(53 + k2) <= w,
                n1 * d2 <= n2 * d1,
                d1 > 0,
                d2 > 0,
        ;
    } else if k1 == k2 {
        assert(n1 * (d2 * p1) <= n2 * (d1 * p1)) by (nonlinear_arith)
            requires
                n1 * d2 <= n2 * d1,
        ;
        lemma_nearest_monotone(n1, d1 * p1, n2, d2 * p1);
        let x = nearest(n1, d1 * p1);
        let y = nearest(n2, d2 * p1);
        assert(x * p1 <= y * p1) by (nonlinear_arith)
            requires
                x <= y,
        ;
    } else {
        lemma2_to64_rest();
        let x = nearest(n1, d1 * p1);
        let y = nearest(n2, d2 * p2);
        assert(x <= pow2(53)) by {
            lemma_pow2_adds(53, k1);
            assert(n1 * 1 <= pow2(53) * (d1 * p1)) by (nonlinear_arith)
                requires
                    n1 < d1 * (pow2(53) * p1),
            ;
            lemma_nearest_exact(pow2(53), 1);
            lemma_nearest_monotone(n1, d1 * p1, pow2(53), 1);
        }
        assert(y >= pow2(52)) by {
            lemma_pow2_adds(52, k2);
            assert(pow2(52) * (d2 * p2) <= n2 * 1) by (nonlinear_arith)
                requires
                    d2 * (pow2(52) * p2) <= n2,
            ;
            lemma_nearest_exact(pow2(52), 1);
            lemma_nearest_monotone(pow2(52), 1, n2, d2 * p2);
        }
        lemma_pow2_unfold((k1 + 1) as nat);
        lemma_pow2_monotone((k1 + 1) as nat, k2);
        assert(x * p1 <= y * p2) by (nonlinear_arith)
            requires
                x <= 2 * pow2(52),
                y >= pow2(52),
                2 * p1 <= p2,
        ;
    }
}

/// A ratio that is a number of the format is rounded to itself.
pub proof fn lemma_round_exact(a: nat, e: nat, d: nat)
    requires
        d > 0,
        a < pow2(53),
    ensures
        round_ratio(scaled(a, e) * d, d) == scaled(a, e),
{
    let n = scaled(a, e) * d;
    let k = dropped(n, d);
    lemma_dropped_bounds(n, d);
    lemma_pow2_pos(e);
    lemma_pow2_adds(53, e);
    assert(n < d * pow2(53 + e)) by (nonlinear_arith)
        requires
            n == (a * pow2(e)) * d,
            a < pow2(53),
            pow2(53 + e) == pow2(53) * pow2(e),
            pow2(e) > 0,
            d > 0,
    ;
    if k > e {
        lemma_pow2_monotone(53 + e, (52 + k) as nat);
        assert(d * pow2(53 + e) <= d * pow2((52 + k) as nat)) by (nonlinear_arith)
            requires
                pow2(53 + e) <= pow2((52 + k) as nat),
        ;
    }
    let q = a * pow2((e - k) as nat);
    lemma_pow2_adds(k, (e - k) as nat);
    lemma_pow2_pos(k);
    assert(d * pow2(k) > 0) by (nonlinear_arith)
        requires
            d > 0,
            pow2(k) > 0,
    ;
    assert(n == q * (d * pow2(k)) && q * pow2(k) == a * pow2(e)) by (nonlinear_arith)
        requires
            n == (a * pow2(e)) * d,
            q == a * pow2((e - k) as nat),
            pow2(e) == pow2(k) * pow2((e - k) as nat),
    ;
    lemma_nearest_exact(q, d * pow2(k));
}

/// Magnitudes that bit patterns encode have at most 53 significant digits and are in range.
pub proof fn lemma_double_is_short(x: Double)
    requires
        x@ is Finite,
    ensures
        is_short(x@->magnitude),
        x@->magnitude < pow2(2098),
{
    let a = x.bits % SIGN;
    let e = (a / UNIT) as nat;
    let f = (a % UNIT) as nat;
    lemma2_to64();
    lemma2_to64_rest();
    lemma_magnitude_bound(e, f);
    if e == 0 {
        assert(scaled(f, 0) == f);
    } else {
        assert(magnitude(e, f) == scaled((UNIT + f) as nat, (e - 1) as nat));
    }
}

/// A magnitude with at most 53 significant digits is rounded to itself.
pub proof fn lemma_short_is_exact(m: nat)
    requires
        is_short(m),
    ensures
        round_ratio(m, 1) == m,
{
    let (a, k) = choose|a: nat, k: nat| a < pow2(53) && m == #[trigger] scaled(a, k);
    lemma_round_exact(a, k, 1);
}

/// What a ratio is rounded to has at most 53 significant digits.
pub proof fn lemma_rounding_is_short(n: nat, d: nat)
    requires
        d > 0,
    ensures
        is_short(round_ratio(n, d)),
{
    let k = dropped(n, d);
    let p = pow2(k);
    let x = nearest(n, d * p);
    lemma_dropped_bounds(n, d);
    lemma_pow2_pos(k);
    lemma_pow2_adds(53, k);
    lemma2_to64_rest();
    assert(d * p > 0) by (nonlinear_arith)
        requires
            d > 0,
            p > 0,
    ;
    assert(n * 1 <= pow2(53) * (d * p)) by (nonlinear_arith)
        requires
            n < d * (pow2(53) * p),
    ;
    lemma_nearest_exact(pow2(53), 1);
    lemma_nearest_monotone(n, d * p, pow2(53), 1);
    if x < pow2(53) {
        assert(round_ratio(n, d) == scaled(x, k));
    } else {
        lemma_pow2_unfold((k + 1) as nat);
        assert(x * p == scaled(pow2(52), (k + 1) as nat)) by (nonlinear_arith)
            requires
                x == 2 * pow2(52),
                pow2((k + 1) as nat) == 2 * p,
                scaled(pow2(52), (k + 1) as nat) == pow2(52) * pow2((k + 1) as nat),
        ;
    }
}

/// Whole numbers up to `2^53` are exact.
pub proof fn lemma_whole_exact(n: nat)
    requires
        n <= pow2(53),
    ensures
        whole(n) == (Value::Finite { negative: false, magnitude: n * pow2(1074) }),
        is_short(n * pow2(1074)),
{
    reveal(rounded);
    lemma2_to64_rest();
    lemma_pow2_adds(53, 1074);
    lemma_pow2_monotone(1128, 2098);
    lemma_pow2_unfold(1128);
    lemma_pow2_pos(1127);
    lemma_pow2_pos(1074);
    assert(n * pow2(1074) <= pow2(53) * pow2(1074)) by (nonlinear_arith)
        requires
            n <= pow2(53),
    ;
    if n < pow2(53) {
        assert(scaled(n, 1074) == n * pow2(1074));
    } else {
        lemma_pow2_unfold(1075);
        assert(n * pow2(1074) == scaled(pow2(52), 1075)) by (nonlinear_arith)
            requires
                n == 2 * pow2(52),
                pow2(1075) == 2 * pow2(1074),
                scaled(pow2(52), 1075) == pow2(52) * pow2(1075),
        ;
    }
    lemma_short_is_exact(n * pow2(1074));
}

/// No number of the format is nearer to a ratio than the one that it is rounded to.
pub proof fn law_rounding_is_to_nearest(n: nat, d: nat, m: nat)
    requires
        d > 0,
        is_short(m),
    ensures
        ({
            let r = round_ratio(n, d) * d;
            let s = m * d;
            let off = if r >= n { r - n } else { n - r };
            let other = if s >= n { s - n } else { n - s };
            off <= other
        }),
{
    let k = dropped(n, d);
    let p = pow2(k);
    lemma_dropped_bounds(n, d);
    lemma_pow2_pos(k);
    let step = d * p;
    assert(step > 0) by (nonlinear_arith)
        requires
            d > 0,
            p > 0,
            step == d * p,
    ;
    let x = nearest(n, step);
    lemma_nearest_bounds(n, step);
    assert((x * p) * d == x * step) by (nonlinear_arith)
        requires
            step == d * p,
    ;
    let (a, j) = choose|a: nat, j: nat| a < pow2(53) && m == #[trigger] scaled(a, j);
    // A multiple of the step that is at least as near as `m`.
    let y: nat = if j >= k {
        a * pow2((j - k) as nat)
    } else {
        pow2(52)
    };
    if j >= k {
        lemma_pow2_adds(k, (j - k) as nat);
        assert(m * d == y * step) by (nonlinear_arith)
            requires
                m == a * pow2(j),
                pow2(j) == p * pow2((j - k) as nat),
                y == a * pow2((j - k) as nat),
                step == d * p,
        ;
    } else {
        lemma_pow2_adds(52, k);
        lemma_pow2_adds(53, j);
        lemma_pow2_monotone(53 + j, (52 + k) as nat);
        lemma_pow2_pos(j);
        assert(m < pow2(53) * pow2(j)) by (nonlinear_arith)
            requires
                m == a * pow2(j),
                a < pow2(53),
                pow2(j) > 0,
        ;
        assert(m * d <= y * step <= n) by (nonlinear_arith)
            requires
                m <= y * p,
                step == d * p,
                d * (y * p) <= n,
                d > 0,
        ;
    }
    if x < y {
        assert(2 * n <= x * step + y * step && x * step <= y * step) by (nonlinear_arith)
            requires
                2 * n <= (2 * x + 1) * step,
                x + 1 <= y,
                step > 0,
        ;
    } else if x > y {
        assert(2 * n >= x * step + y * step && x * step >= y * step) by (nonlinear_arith)
            requires
                2 * n >= (2 * x - 1) * step,
                x >= y + 1,
                step > 0,
        ;
    }
}

} // verus!
