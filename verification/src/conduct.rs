//! How prices move, and shares and changes of them, against exact arithmetic.
use crate::accounting::{exact_product, exact_sum, size};
use crate::accuracy::{
    law_products_are_accurate, law_quotients_are_accurate, law_ratios_are_accurate,
    law_sums_are_accurate, lemma_product_is_finite, lemma_quotient_is_finite, lemma_sum_is_finite,
    near,
};
use crate::double::{
    difference, is_negative, negated, product, quotient, ratio, rounded, sum, units, whole, Value,
};
use crate::exactness::{is_short, lemma_round_exact, lemma_whole_exact, scaled};
use crate::laws::is_price;
use crate::market::{change, moved, InstrumentView};
use crate::rounding::{lemma_pow2_monotone, round_ratio};
use vstd::arithmetic::power2::{
    lemma2_to64, lemma2_to64_rest, lemma_pow2_adds, lemma_pow2_pos, pow2,
};
use vstd::prelude::*;

verus! {

/// One and the drift and the noise of an instrument, as a count of units.
pub open spec fn growth(i: InstrumentView, noise: Value) -> int {
    pow2(1074) + units(i.drift) + units(noise)
}

pub(crate) proof fn lemma_one()
    ensures
        whole(1) is Finite,
        units(whole(1)) == pow2(1074),
        pow2(1074) > 0,
{
    lemma2_to64_rest();
    lemma_whole_exact(1);
    lemma_pow2_pos(1074);
    assert(1 * pow2(1074) == pow2(1074)) by (nonlinear_arith);
}

/// A step of time multiplies the price by one and the drift and the noise, however large the
/// result is, where nothing is rounded; only where that falls below a tenth, the price is a tenth.
pub proof fn law_prices_grow_by_drift_and_noise(i: InstrumentView, clock: nat, noise: Value)
    requires
        exact_sum(whole(1), i.drift),
        exact_sum(sum(whole(1), i.drift), noise),
        exact_product(i.price, sum(sum(whole(1), i.drift), noise)),
    ensures
        ({
            let b = moved(i, clock, noise);
            let w = pow2(1074);
            let tenth = units(ratio(1, 10));
            &&& b.price is Finite
            &&& units(i.price) * growth(i, noise) >= tenth * w ==> units(b.price) * w == units(
                i.price,
            ) * growth(i, noise)
            &&& units(i.price) * growth(i, noise) < tenth * w ==> units(b.price) == tenth
            &&& units(i.price) > 0 && growth(i, noise) > w && units(i.price) >= tenth ==> units(
                b.price,
            ) > units(i.price)
        }),
{
    lemma_one();
    let w = pow2(1074) as int;
    let g = growth(i, noise);
    let p = units(i.price);
    let next = product(i.price, sum(sum(whole(1), i.drift), noise));
    assert(units(next) * w == p * g);
    lemma_tenth();
    let tenth = units(ratio(1, 10));
    let n = units(next);
    assert(n >= tenth <==> p * g >= tenth * w) by (nonlinear_arith)
        requires
            n * w == p * g,
            w > 0,
    ;
    if p > 0 && g > w && p >= tenth {
        assert(p * g > p * w) by (nonlinear_arith)
            requires
                p > 0,
                g > w,
        ;
        assert(n > p) by (nonlinear_arith)
            requires
                n * w == p * g,
                p * g > p * w,
                w > 0,
        ;
    }
}

pub(crate) proof fn lemma_tenth()
    ensures
        ratio(1, 10) is Finite,
        !is_negative(ratio(1, 10)),
        near(units(ratio(1, 10)) * 10, pow2(1074) as int, 53),
        units(ratio(1, 10)) >= pow2(1070),
{
    lemma2_to64();
    lemma_pow2_monotone(4, 1000);
    law_ratios_are_accurate(1, 10);
    let w = pow2(1074) as int;
    lemma_pow2_pos(1070);
    lemma_pow2_adds(1070, 4);
    assert(1 * pow2(1074) == pow2(1074)) by (nonlinear_arith);
    let t = units(ratio(1, 10));
    lemma2_to64_rest();
    let off = size(t * 10 - w);
    assert(16 * off <= w) by (nonlinear_arith)
        requires
            pow2(53) * off <= w,
            pow2(53) >= 16,
            off >= 0,
    ;
}

/// Two roundings in a row.
proof fn lemma_growth_error(one: int, drift: int, noise: int, first: int, second: int)
    requires
        one > 0,
        -one <= 2 * drift <= one,
        -one <= 2 * noise <= one,
        pow2(53) * size(first - (one + drift)) <= size(one + drift),
        pow2(53) * size(second - (first + noise)) <= size(first + noise),
    ensures
        pow2(51) * size(second - (one + drift + noise)) <= one,
        size(second) <= 3 * one,
{
    lemma2_to64_rest();
    let a = size(first - (one + drift));
    let b = size(second - (first + noise));
    assert(2 * a <= one && pow2(53) * a <= 2 * one) by (nonlinear_arith)
        requires
            pow2(53) * a <= 2 * one,
            pow2(53) >= 4,
            a >= 0,
            one > 0,
    ;
    assert(size(first + noise) <= 3 * one) by {
        assert(2 * size(first - (one + drift)) <= one);
    }
    assert(b <= one) by (nonlinear_arith)
        requires
            pow2(53) * b <= 3 * one,
            pow2(53) >= 4,
            b >= 0,
            one > 0,
    ;
    // Sharper, now that both errors are known to be small.
    assert(16 * a <= one && 16 * b <= one) by (nonlinear_arith)
        requires
            pow2(53) * a <= 2 * one,
            pow2(53) * b <= 3 * one,
            pow2(53) >= 64,
            a >= 0,
            b >= 0,
            one > 0,
    ;
    assert(16 * size(one + drift) <= 24 * one);
    assert(16 * size(first + noise) <= 33 * one);
    let f = pow2(51);
    assert(f * size(second - (one + drift + noise)) <= one) by (nonlinear_arith)
        requires
            size(second - (one + drift + noise)) <= a + b,
            4 * f * a <= size(one + drift),
            4 * f * b <= size(first + noise),
            16 * size(one + drift) <= 24 * one,
            16 * size(first + noise) <= 33 * one,
            f >= 0,
            one > 0,
    ;
}

proof fn lemma_growth_is_near(i: InstrumentView, noise: Value)
    requires
        i.drift is Finite,
        noise is Finite,
        -(pow2(1074) as int) <= 2 * units(i.drift) <= pow2(1074),
        -(pow2(1074) as int) <= 2 * units(noise) <= pow2(1074),
    ensures
        ({
            let g = sum(sum(whole(1), i.drift), noise);
            &&& g is Finite
            &&& pow2(51) * size(units(g) - growth(i, noise)) <= pow2(1074)
            &&& size(units(g)) <= 3 * pow2(1074)
        }),
{
    lemma_one();
    let w = pow2(1074) as int;
    lemma2_to64();
    lemma2_to64_rest();
    lemma_pow2_adds(1074, 2);
    lemma_pow2_monotone(1076, 2096);
    lemma_pow2_adds(2096, 1);
    lemma_pow2_pos(2096);
    lemma_sum_is_finite(whole(1), i.drift);
    law_sums_are_accurate(whole(1), i.drift);
    let first = sum(whole(1), i.drift);
    let a = size(units(first) - (w + units(i.drift)));
    assert(2 * a <= w) by (nonlinear_arith)
        requires
            pow2(53) * a <= 2 * w,
            pow2(53) >= 4,
            a >= 0,
            w > 0,
    ;
    assert(size(units(first) + units(noise)) <= 3 * w);
    lemma_sum_is_finite(first, noise);
    law_sums_are_accurate(first, noise);
    lemma_growth_error(
        w,
        units(i.drift),
        units(noise),
        units(first),
        units(sum(first, noise)),
    );
}

proof fn lemma_scaled_error(p: int, w: int, g: int, exact: int, n: int)
    requires
        w > 0,
        p >= pow2(53),
        pow2(51) * size(g - exact) <= w,
        size(g) <= 3 * w,
        pow2(53) * size(n * w - p * g) <= size(p * g) || 2 * size(n * w - p * g) <= w,
    ensures
        pow2(50) * size(n * w - p * exact) <= p * w,
{
    lemma2_to64_rest();
    let e = size(n * w - p * g);
    let f = size(g - exact);
    let t = pow2(50);
    assert(size(p * g) <= 3 * (p * w)) by (nonlinear_arith)
        requires
            size(g) <= 3 * w,
            p > 0,
    ;
    assert(p * w >= w) by (nonlinear_arith)
        requires
            p >= 1,
            w > 0,
    ;
    assert(8 * t * e <= 3 * (p * w)) by {
        if 2 * e <= w {
            assert(8 * t * e <= p * w) by (nonlinear_arith)
                requires
                    2 * e <= w,
                    p >= 8 * t,
                    w > 0,
                    e >= 0,
                    t > 0,
            ;
        }
    }
    assert(2 * t * (p * f) <= p * w) by (nonlinear_arith)
        requires
            2 * t * f <= w,
            p > 0,
    ;
    assert(size(p * g - p * exact) == p * f) by (nonlinear_arith)
        requires
            f == size(g - exact),
            p > 0,
    ;
    let all = size(n * w - p * exact);
    assert(all <= e + p * f);
    assert(t * all <= p * w) by (nonlinear_arith)
        requires
            all <= e + p * f,
            8 * t * e <= 3 * (p * w),
            2 * t * (p * f) <= p * w,
            p * w > 0,
            t > 0,
    ;
}

/// A step of time multiplies the price by one and the drift and the noise, to one part in `2^50`,
/// however large the result is; the price is a tenth only where that leads to less. So a price
/// rises where drift and noise together are positive, and falls, down to a tenth, where they are
/// negative.
pub proof fn law_ticks_are_accurate(i: InstrumentView, clock: nat, noise: Value)
    requires
        is_price(i.price),
        i.price is Finite,
        i.price->magnitude < pow2(2090),
        i.drift is Finite,
        noise is Finite,
        -(pow2(1074) as int) <= 2 * units(i.drift) <= pow2(1074),
        -(pow2(1074) as int) <= 2 * units(noise) <= pow2(1074),
    ensures
        ({
            let b = moved(i, clock, noise);
            let w = pow2(1074);
            let p = units(i.price);
            let target = p * growth(i, noise);
            &&& b.price is Finite
            &&& units(b.price) >= units(ratio(1, 10))
            &&& pow2(50) * size(units(b.price) * w - target) <= p * w || (b.price == ratio(1, 10)
                && pow2(50) * (9 * target - w * w) <= 9 * (p * w))
            &&& pow2(49) * (units(i.drift) + units(noise)) >= w ==> units(b.price) > p
            &&& pow2(49) * (units(i.drift) + units(noise)) <= -w ==> units(b.price) < p || b.price
                == ratio(1, 10)
        }),
{
    lemma_one();
    lemma_tenth();
    lemma2_to64_rest();
    lemma_growth_is_near(i, noise);
    let w = pow2(1074) as int;
    let p = units(i.price);
    let g = sum(sum(whole(1), i.drift), noise);
    let target = p * growth(i, noise);
    let tenth = units(ratio(1, 10));
    lemma_pow2_monotone(53, 1070);
    assert(p >= tenth);
    lemma2_to64();
    lemma_pow2_adds(2090, 2);
    lemma_pow2_monotone(2092, 2097);
    assert(size(p) * size(units(g)) < pow2(2097) * w) by (nonlinear_arith)
        requires
            size(units(g)) <= 3 * w,
            size(p) == p,
            0 < p < pow2(2090),
            4 * pow2(2090) <= pow2(2097),
            w > 0,
    ;
    lemma_product_is_finite(i.price, g);
    law_products_are_accurate(i.price, g);
    let next = product(i.price, g);
    let n = units(next);
    lemma_scaled_error(p, w, units(g), growth(i, noise), n);
    let b = moved(i, clock, noise);
    let t = pow2(50) as int;
    let change = units(i.drift) + units(noise);
    assert(target == p * w + p * change) by (nonlinear_arith)
        requires
            target == p * (w + change),
    ;
    let half = pow2(49) as int;
    if half * change >= w {
        assert(t * (p * change) >= 2 * (p * w)) by (nonlinear_arith)
            requires
                half * change >= w,
                t == 2 * half,
                p > 0,
        ;
        assert(p * w > 0) by (nonlinear_arith)
            requires
                p > 0,
                w > 0,
        ;
        assert(n * w > p * w) by (nonlinear_arith)
            requires
                t * size(n * w - target) <= p * w,
                target == p * w + p * change,
                t * (p * change) >= 2 * (p * w),
                t > 0,
                p * w > 0,
        ;
        assert(n > p) by (nonlinear_arith)
            requires
                n * w > p * w,
                w > 0,
        ;
    }
    if half * change <= -w {
        assert(t * (p * change) <= -2 * (p * w)) by (nonlinear_arith)
            requires
                half * change <= -w,
                t == 2 * half,
                p > 0,
        ;
        assert(p * w > 0) by (nonlinear_arith)
            requires
                p > 0,
                w > 0,
        ;
        assert(n * w < p * w) by (nonlinear_arith)
            requires
                t * size(n * w - target) <= p * w,
                target == p * w + p * change,
                t * (p * change) <= -2 * (p * w),
                t > 0,
                p * w > 0,
        ;
        assert(n < p) by (nonlinear_arith)
            requires
                n * w < p * w,
                w > 0,
        ;
    }
    if n < tenth {
        assert(9 * tenth <= w) by {
            let off = size(tenth * 10 - w);
            assert(100 * off <= w) by (nonlinear_arith)
                requires
                    pow2(53) * off <= w,
                    pow2(53) >= 100,
                    off >= 0,
            ;
        }
        assert(9 * (n * w) <= w * w) by (nonlinear_arith)
            requires
                n < tenth,
                9 * tenth <= w,
                w > 0,
        ;
        assert(t * (9 * target - w * w) <= 9 * (p * w)) by (nonlinear_arith)
            requires
                t * size(n * w - target) <= p * w,
                9 * (n * w) <= w * w,
                t > 0,
        ;
    }
}

pub(crate) proof fn lemma_fraction_error(p: int, w: int, n: int, d: int, r: int, v: int)
    requires
        w > 0,
        p > 0,
        n > 0,
        d > 0,
        r >= 0,
        pow2(53) * size(r * d - n * w) <= n * w,
        pow2(53) * size(v * w - p * r) <= p * r,
    ensures
        near(v * d, p * n, 51),
{
    lemma2_to64_rest();
    let f = pow2(53) as int;
    let x = size(r * d - n * w);
    let y = size(v * w - p * r);
    assert(n * w > 0) by (nonlinear_arith)
        requires
            n > 0,
            w > 0,
    ;
    assert(x <= n * w) by (nonlinear_arith)
        requires
            f * x <= n * w,
            f >= 1,
            x >= 0,
    ;
    assert(r * d <= 2 * (n * w));
    // The error of the product, times the denominator.
    assert(f * (d * y) <= 2 * (p * (n * w))) by (nonlinear_arith)
        requires
            f * y <= p * r,
            r * d <= 2 * (n * w),
            p > 0,
            d > 0,
    ;
    // The error of the fraction, times the price.
    assert(f * (p * x) <= p * (n * w)) by (nonlinear_arith)
        requires
            f * x <= n * w,
            p > 0,
    ;
    let all = size(v * d - p * n);
    assert(w * all <= d * y + p * x) by (nonlinear_arith)
        requires
            all == size(v * d - p * n),
            y == size(v * w - p * r),
            x == size(r * d - n * w),
            w > 0,
            p > 0,
            d > 0,
    ;
    assert(f * (w * all) <= 3 * (p * (n * w))) by (nonlinear_arith)
        requires
            w * all <= d * y + p * x,
            f * (d * y) <= 2 * (p * (n * w)),
            f * (p * x) <= p * (n * w),
            f > 0,
    ;
    assert(f * all <= 3 * (p * n)) by (nonlinear_arith)
        requires
            f * (w * all) <= 3 * (p * (n * w)),
            w > 0,
    ;
    assert(p * n > 0) by (nonlinear_arith)
        requires
            p > 0,
            n > 0,
    ;
}

/// A decimal fraction of a price is accurate to one part in `2^51`.
pub proof fn law_fractions_of_prices_are_accurate(price: Value, n: nat, d: nat)
    requires
        is_price(price),
        price is Finite,
        price->magnitude < pow2(2090),
        0 < n <= 2 * d,
        d <= 10000,
    ensures
        product(price, ratio(n, d)) is Finite,
        near(units(product(price, ratio(n, d))) * d, units(price) * n, 51),
{
    lemma_one();
    lemma_tenth();
    lemma2_to64();
    lemma2_to64_rest();
    lemma_pow2_monotone(15, 1000);
    law_ratios_are_accurate(n, d);
    let w = pow2(1074) as int;
    let p = units(price);
    let r = units(ratio(n, d));
    let f = pow2(53) as int;
    let x = size(r * d - n * w);
    assert(n * w > 0) by (nonlinear_arith)
        requires
            n > 0,
            w > 0,
    ;
    assert(2 * x <= n * w) by (nonlinear_arith)
        requires
            f * x <= n * w,
            f >= 2,
            x >= 0,
    ;
    assert(r <= 4 * w) by (nonlinear_arith)
        requires
            2 * (r * d) <= 3 * (n * w),
            n <= 2 * d,
            d > 0,
            w > 0,
    ;
    lemma_pow2_adds(1059, 15);
    lemma_pow2_pos(1059);
    assert(r >= pow2(1059)) by (nonlinear_arith)
        requires
            2 * (r * d) >= n * w,
            n >= 1,
            0 < d <= 10000,
            w == pow2(1059) * 32768,
            pow2(1059) > 0,
    ;
    lemma_pow2_pos(1070);
    assert(p >= pow2(1070));
    lemma_pow2_adds(2090, 2);
    lemma_pow2_adds(2090, 3);
    lemma_pow2_monotone(2093, 2097);
    lemma_pow2_pos(2090);
    assert(size(p) * size(r) < pow2(2097) * w) by (nonlinear_arith)
        requires
            size(p) == p,
            size(r) == r,
            0 <= r <= 4 * w,
            0 < p < pow2(2090),
            8 * pow2(2090) <= pow2(2097),
            w > 0,
    ;
    lemma_product_is_finite(price, ratio(n, d));
    law_products_are_accurate(price, ratio(n, d));
    lemma_pow2_adds(1070, 1059);
    lemma_pow2_monotone(1126, 2129);
    assert(p * r >= pow2(1070) * pow2(1059)) by (nonlinear_arith)
        requires
            p >= pow2(1070),
            r >= pow2(1059),
    ;
    lemma_fraction_error(p, w, n as int, d as int, r, units(product(price, ratio(n, d))));
}

/// A number of the format that is not small is a multiple of a large power of two.
pub(crate) proof fn lemma_price_is_multiple(m: nat) -> (x: nat)
    requires
        is_short(m),
        m >= pow2(1070),
    ensures
        m == x * pow2(1018),
{
    let (a, k) = choose|a: nat, k: nat| a < pow2(53) && m == #[trigger] scaled(a, k);
    lemma2_to64_rest();
    lemma_pow2_adds(53, 1017);
    lemma_pow2_pos(k);
    if k <= 1017 {
        lemma_pow2_monotone(k, 1017);
        assert(false) by (nonlinear_arith)
            requires
                m == a * pow2(k),
                a < pow2(53),
                pow2(k) <= pow2(1017),
                m >= pow2(53) * pow2(1017),
                pow2(k) > 0,
        ;
    }
    let e = (k - 1018) as nat;
    lemma_pow2_adds(1018, e);
    let x = a * pow2(e);
    assert(m == x * pow2(1018)) by (nonlinear_arith)
        requires
            m == a * pow2(k),
            pow2(k) == pow2(1018) * pow2(e),
            x == a * pow2(e),
    ;
    x
}

proof fn lemma_change_error(t: int, d: int, o: int, w: int, q: int, c: int)
    requires
        o > 0,
        w > 0,
        pow2(53) * size(d - t) <= size(t),
        pow2(53) * size(q * o - d * w) <= size(d) * w,
        pow2(53) * size(c - 100 * q) <= 100 * size(q),
    ensures
        pow2(50) * size(c * o - 100 * (t * w)) <= 100 * (size(t) * w),
{
    lemma2_to64_rest();
    let f = pow2(53) as int;
    let x = size(d - t);
    let y = size(q * o - d * w);
    let z = size(c - 100 * q);
    assert(x <= size(t)) by (nonlinear_arith)
        requires
            f * x <= size(t),
            f >= 1,
            x >= 0,
    ;
    assert(size(d) <= 2 * size(t));
    let tw = size(t) * w;
    assert(size(d) * w <= 2 * tw) by (nonlinear_arith)
        requires
            size(d) <= 2 * size(t),
            tw == size(t) * w,
            w > 0,
    ;
    assert(y <= size(d) * w) by (nonlinear_arith)
        requires
            f * y <= size(d) * w,
            f >= 1,
            y >= 0,
    ;
    assert(size(d * w) == size(d) * w) by (nonlinear_arith)
        requires
            w > 0,
    ;
    assert(size(q * o) == size(q) * o) by (nonlinear_arith)
        requires
            o > 0,
    ;
    assert(size(q) * o <= 4 * tw);
    // Each of the three errors, on one scale.
    assert(f * (o * z) <= 400 * tw) by (nonlinear_arith)
        requires
            f * z <= 100 * size(q),
            size(q) * o <= 4 * tw,
            o > 0,
    ;
    assert(f * (100 * y) <= 200 * tw) by (nonlinear_arith)
        requires
            f * y <= size(d) * w,
            size(d) * w <= 2 * tw,
    ;
    assert(f * (100 * (w * x)) <= 100 * tw) by (nonlinear_arith)
        requires
            f * x <= size(t),
            tw == size(t) * w,
            w > 0,
    ;
    assert(size(c * o - 100 * (q * o)) == o * z) by (nonlinear_arith)
        requires
            z == size(c - 100 * q),
            o > 0,
    ;
    assert(size(d * w - t * w) == w * x) by (nonlinear_arith)
        requires
            x == size(d - t),
            w > 0,
    ;
    let all = size(c * o - 100 * (t * w));
    assert(all <= o * z + 100 * y + 100 * (w * x));
    assert(f * all <= 700 * tw) by (nonlinear_arith)
        requires
            all <= o * z + 100 * y + 100 * (w * x),
            f * (o * z) <= 400 * tw,
            f * (100 * y) <= 200 * tw,
            f * (100 * (w * x)) <= 100 * tw,
            f > 0,
    ;
    assert(tw >= 0) by (nonlinear_arith)
        requires
            tw == size(t) * w,
            w > 0,
    ;
}

/// The change of an instrument is that of its price against the day's opening, in percent of the
/// opening, to one part in `2^50`. So it has the sign of the difference.
pub proof fn law_changes_are_accurate(i: InstrumentView)
    requires
        is_price(i.price),
        i.price is Finite,
        i.price->magnitude < pow2(2000),
        is_price(i.day_open),
        i.day_open is Finite,
        i.day_open->magnitude < pow2(2000),
    ensures
        change(i) is Finite,
        pow2(50) * size(
            units(change(i)) * units(i.day_open) - 100 * ((units(i.price) - units(i.day_open))
                * pow2(1074)),
        ) <= 100 * (size(units(i.price) - units(i.day_open)) * pow2(1074)),
        units(change(i)) > 0 <==> units(i.price) > units(i.day_open),
        units(change(i)) < 0 <==> units(i.price) < units(i.day_open),
{
    lemma_one();
    lemma_tenth();
    lemma2_to64();
    lemma2_to64_rest();
    lemma_whole_exact(100);
    let w = pow2(1074) as int;
    let o = units(i.day_open);
    let t = units(i.price) - o;
    lemma_pow2_pos(1070);
    lemma_pow2_pos(2000);
    lemma_pow2_adds(2000, 1);
    lemma_pow2_monotone(2001, 2097);
    lemma_sum_is_finite(i.price, negated(i.day_open));
    law_sums_are_accurate(i.price, negated(i.day_open));
    let dv = difference(i.price, i.day_open);
    let d = units(dv);
    let x = size(d - t);
    let f = pow2(53) as int;
    assert(2 * x <= size(t)) by (nonlinear_arith)
        requires
            f * x <= size(t),
            f >= 2,
            x >= 0,
    ;
    // The quotient.
    lemma_pow2_adds(2001, 1074);
    lemma_pow2_adds(2097, 1070);
    lemma_pow2_monotone(3075, 3167);
    lemma_pow2_adds(3075, 1);
    lemma_pow2_monotone(3076, 3167);
    lemma_pow2_pos(3075);
    assert(size(d) < 2 * pow2(2001));
    assert(size(d) * w < pow2(2097) * o) by (nonlinear_arith)
        requires
            size(d) < 2 * pow2(2001),
            pow2(3075) == pow2(2001) * w,
            2 * pow2(3075) <= pow2(2097) * pow2(1070),
            o >= pow2(1070),
            w > 0,
    ;
    lemma_quotient_is_finite(dv, i.day_open);
    let qv = quotient(dv, i.day_open);
    let q = units(qv);
    let h = units(whole(100));
    assert(h == 100 * w);
    if t == 0 {
        lemma_nothing_over(dv, i.day_open);
        lemma_nothing_times(qv, whole(100));
        assert(size(0 * o - 100 * (0 * w)) == 0) by (nonlinear_arith);
        assert(size(0) * w == 0) by (nonlinear_arith);
        assert(pow2(50) * 0 == 0) by (nonlinear_arith);
    } else {
        lemma_pow2_pos(1018);
        let a = lemma_price_is_multiple(i.price->magnitude);
        let b = lemma_price_is_multiple(i.day_open->magnitude);
        let u = pow2(1018) as int;
        assert(size(t) >= u) by (nonlinear_arith)
            requires
                t == a * u - b * u,
                t != 0,
                u > 0,
        ;
        lemma_pow2_adds(1017, 1);
        lemma_pow2_pos(1017);
        assert(size(d) >= pow2(1017));
        lemma_pow2_adds(1017, 1022);
        lemma_pow2_monotone(2000, 2039);
        lemma_pow2_pos(1022);
        assert(size(d) * pow2(1022) >= o) by (nonlinear_arith)
            requires
                size(d) >= pow2(1017),
                pow2(2039) == pow2(1017) * pow2(1022),
                o <= pow2(2039),
        ;
        law_quotients_are_accurate(dv, i.day_open);
        assert(size(d * w) == size(d) * w) by (nonlinear_arith)
            requires
                w > 0,
        ;
        // The percentage.
        let y = size(q * o - d * w);
        assert(2 * y <= size(d) * w) by (nonlinear_arith)
            requires
                f * y <= size(d) * w,
                f >= 2,
                y >= 0,
        ;
        assert(size(q * o) == size(q) * o) by (nonlinear_arith)
            requires
                o > 0,
        ;
        lemma_pow2_adds(1017, 1074);
        lemma_pow2_adds(2000, 53);
        lemma_pow2_monotone(2054, 2091);
        lemma_pow2_adds(2053, 1);
        assert(size(q) >= pow2(52)) by {
            assert(2 * (size(q) * o) >= size(d) * w);
            assert(size(d) * w >= pow2(2091)) by (nonlinear_arith)
                requires
                    size(d) >= pow2(1017),
                    pow2(2091) == pow2(1017) * w,
                    w > 0,
            ;
            assert(2 * (size(q) * o) >= pow2(2000) * (2 * f)) by (nonlinear_arith)
                requires
                    2 * (size(q) * o) >= pow2(2091),
                    pow2(2091) >= pow2(2053) * 2,
                    pow2(2053) == pow2(2000) * f,
            ;
            assert(size(q) >= f) by (nonlinear_arith)
                requires
                    2 * (size(q) * o) >= pow2(2000) * (2 * f),
                    0 < o <= pow2(2000),
                    f > 0,
                    size(q) >= 0,
            ;
        }
        lemma_times_hundred(qv, q, size(d), o, w);
        lemma_change_error(t, d, o, w, q, units(change(i)));
        lemma_change_sign(t, o, w, units(change(i)));
    }
}

proof fn lemma_nothing_over(a: Value, b: Value)
    requires
        a is Finite,
        b is Finite,
        units(a) == 0,
        units(b) > 0,
        quotient(a, b) is Finite,
    ensures
        units(quotient(a, b)) == 0,
{
    reveal(quotient);
    reveal(rounded);
    let w = pow2(1074);
    assert(0 * w == 0) by (nonlinear_arith);
    lemma_rounds_to_nothing(b->magnitude);
}

pub(crate) proof fn lemma_nothing_times(a: Value, b: Value)
    requires
        a is Finite,
        b is Finite,
        units(a) == 0,
    ensures
        product(a, b) is Finite,
        units(product(a, b)) == 0,
{
    reveal(product);
    reveal(rounded);
    lemma_pow2_pos(1074);
    lemma_pow2_pos(2098);
    let m = b->magnitude;
    assert(0 * m == 0) by (nonlinear_arith);
    lemma_rounds_to_nothing(pow2(1074));
}

proof fn lemma_rounds_to_nothing(d: nat)
    requires
        d > 0,
    ensures
        round_ratio(0, d) == 0,
{
    lemma2_to64();
    lemma2_to64_rest();
    assert(scaled(0, 0) == 0);
    lemma_round_exact(0, 0, d);
    assert(0 * d == 0) by (nonlinear_arith);
}

proof fn lemma_times_hundred(v: Value, q: int, d: int, o: int, w: int)
    requires
        v is Finite,
        q == units(v),
        w == pow2(1074),
        size(q) >= pow2(52),
        size(q) * o <= 2 * (d * w),
        d < 2 * pow2(2001),
        o >= pow2(1070),
    ensures
        product(v, whole(100)) is Finite,
        pow2(53) * size(units(product(v, whole(100))) - 100 * q) <= 100 * size(q),
{
    lemma_one();
    lemma2_to64();
    lemma2_to64_rest();
    lemma_whole_exact(100);
    lemma_pow2_pos(1070);
    lemma_pow2_adds(1070, 4);
    lemma_pow2_adds(2001, 6);
    lemma_pow2_pos(2001);
    assert(d * w <= 2 * pow2(2001) * w) by (nonlinear_arith)
        requires
            d < 2 * pow2(2001),
            w > 0,
    ;
    assert(size(q) <= 64 * pow2(2001)) by (nonlinear_arith)
        requires
            size(q) * o <= 2 * (d * w),
            w == 16 * pow2(1070),
            o >= pow2(1070),
            pow2(1070) > 0,
            size(q) >= 0,
            d * w <= 2 * pow2(2001) * w,
    ;
    lemma_pow2_adds(2007, 7);
    lemma_pow2_monotone(2014, 2096);
    lemma_pow2_adds(2096, 1);
    lemma_pow2_pos(2096);
    let h = 100 * w;
    assert(size(q) * size(h) < pow2(2097) * w) by (nonlinear_arith)
        requires
            size(q) <= pow2(2007),
            size(h) == 100 * w,
            128 * pow2(2007) <= pow2(2096),
            pow2(2097) == 2 * pow2(2096),
            pow2(2096) > 0,
            w > 0,
            size(q) >= 0,
    ;
    lemma_product_is_finite(v, whole(100));
    law_products_are_accurate(v, whole(100));
    lemma_pow2_adds(52, 1074);
    let c = units(product(v, whole(100)));
    assert(size(q * h) == size(q) * (100 * w)) by (nonlinear_arith)
        requires
            h == 100 * w,
            w > 0,
    ;
    assert(size(q * h) >= pow2(1126)) by (nonlinear_arith)
        requires
            size(q * h) == size(q) * (100 * w),
            size(q) >= pow2(52),
            pow2(1126) == pow2(52) * w,
            w > 0,
    ;
    let f = pow2(53) as int;
    let z = size(c - 100 * q);
    assert(size(c * w - q * h) == w * z) by (nonlinear_arith)
        requires
            z == size(c - 100 * q),
            h == 100 * w,
            w > 0,
    ;
    assert(f * z <= 100 * size(q)) by (nonlinear_arith)
        requires
            f * (w * z) <= size(q) * (100 * w),
            w > 0,
    ;
}

proof fn lemma_change_sign(t: int, o: int, w: int, c: int)
    requires
        o > 0,
        w > 0,
        t != 0,
        pow2(50) * size(c * o - 100 * (t * w)) <= 100 * (size(t) * w),
    ensures
        c > 0 <==> t > 0,
        c < 0 <==> t < 0,
{
    lemma2_to64_rest();
    let e = size(c * o - 100 * (t * w));
    let tw = size(t) * w;
    assert(tw > 0) by (nonlinear_arith)
        requires
            tw == size(t) * w,
            t != 0,
            w > 0,
    ;
    assert(2 * e <= 100 * tw) by (nonlinear_arith)
        requires
            pow2(50) * e <= 100 * tw,
            pow2(50) >= 2,
            e >= 0,
    ;
    assert(t * w == if t < 0 {
        -tw
    } else {
        tw
    }) by (nonlinear_arith)
        requires
            tw == size(t) * w,
    ;
    assert(c * o > 0 ==> c > 0) by (nonlinear_arith)
        requires
            o > 0,
    ;
    assert(c * o < 0 ==> c < 0) by (nonlinear_arith)
        requires
            o > 0,
    ;
}

} // verus!
