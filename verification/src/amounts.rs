//! What fills and valuations come to, rounded as they are.
use crate::accounting::{
    course, exact_difference, exact_sum, least, lemma_fill_case, lemma_turned, size,
};
use crate::accuracy::{
    law_products_are_accurate, law_quotients_are_accurate, law_sums_are_accurate, near,
};
use crate::double::{
    absolute, difference, negated, product, quotient, sum, units, zero, Value,
};
use crate::exactness::lemma_whole_exact;
use crate::laws::{
    is_number, lemma_flat_quantity, lemma_signed_by_side, lemma_sum_is_whole,
    lemma_units_of_quantity, quantity,
};
use crate::market::{
    exposed, filled, is_flat, profit, stepped_down, stepped_up, unrealized, PositionView, Side,
};
use crate::rounding::lemma_pow2_monotone;
use vstd::arithmetic::power2::{
    lemma2_to64, lemma2_to64_rest, lemma_pow2_adds, lemma_pow2_pos, pow2,
};
use vstd::prelude::*;

verus! {

/// A whole multiple is accurate to one part in `2^53`.
proof fn lemma_multiple_is_accurate(v: Value, k: int)
    requires
        v is Finite,
        product(v, quantity(k)) is Finite,
    ensures
        near(units(product(v, quantity(k))), units(v) * k, 53),
{
    law_products_are_accurate(v, quantity(k));
    lemma_units_of_quantity(k);
    lemma2_to64_rest();
    let w = pow2(1074) as int;
    let (u, r) = (units(v), units(product(v, quantity(k))));
    let t = u * k;
    assert(u * (k * w) == t * w) by (nonlinear_arith)
        requires
            t == u * k,
    ;
    let off = size(r - t);
    assert(size(r * w - t * w) == off * w) by (nonlinear_arith)
        requires
            off == size(r - t),
            w > 0,
    ;
    assert(size(t * w) == size(t) * w) by (nonlinear_arith)
        requires
            w > 0,
    ;
    if pow2(53) * (off * w) <= size(t) * w {
        assert(pow2(53) * off <= size(t)) by (nonlinear_arith)
            requires
                pow2(53) * (off * w) <= size(t) * w,
                w > 0,
        ;
    } else {
        assert(off == 0) by (nonlinear_arith)
            requires
                2 * (off * w) <= w,
                w > 0,
                off >= 0,
        ;
        assert(pow2(53) * 0 == 0) by (nonlinear_arith);
    }
}

/// Two accurate steps in a row.
proof fn lemma_near_multiple(d: int, t: int, k: int, r: int)
    requires
        near(d, t, 53),
        near(r, d * k, 53),
    ensures
        near(r, t * k, 51),
{
    lemma2_to64_rest();
    let f = pow2(53) as int;
    let x = size(d - t);
    let y = size(r - d * k);
    let s = size(t) * size(k);
    assert(size(t * k) == s) by (nonlinear_arith)
        requires
            s == size(t) * size(k),
    ;
    assert(x <= size(t)) by (nonlinear_arith)
        requires
            f * x <= size(t),
            f >= 1,
            x >= 0,
    ;
    assert(size(d) <= 2 * size(t));
    assert(size(d * k) <= 2 * s) by (nonlinear_arith)
        requires
            size(d) <= 2 * size(t),
            s == size(t) * size(k),
    ;
    assert(size(d * k - t * k) == x * size(k)) by (nonlinear_arith)
        requires
            x == size(d - t),
    ;
    assert(f * (x * size(k)) <= s) by (nonlinear_arith)
        requires
            f * x <= size(t),
            s == size(t) * size(k),
            size(k) >= 0,
    ;
    let all = size(r - t * k);
    assert(all <= y + x * size(k));
    assert(f * all <= 3 * s) by (nonlinear_arith)
        requires
            all <= y + x * size(k),
            f * y <= 2 * s,
            f * (x * size(k)) <= s,
            f > 0,
    ;
    assert(s >= 0) by (nonlinear_arith)
        requires
            s == size(t) * size(k),
    ;
}

/// What a position would yield is the difference between the mark and its average price, times its
/// quantity, to one part in `2^51`. So it is zero where the mark is the average price.
pub proof fn law_open_profit_is_accurate(p: PositionView, k: int, mark: Value)
    requires
        p.qty == quantity(k),
        p.average_price is Finite,
        mark is Finite,
        difference(mark, p.average_price) is Finite,
        unrealized(p, mark) is Finite,
    ensures
        near(units(unrealized(p, mark)), (units(mark) - units(p.average_price)) * k, 51),
{
    lemma_flat_quantity(k);
    let t = units(mark) - units(p.average_price);
    if k == 0 {
        assert(t * 0 == 0) by (nonlinear_arith);
        assert(pow2(51) * 0 == 0) by (nonlinear_arith);
    } else {
        law_sums_are_accurate(mark, negated(p.average_price));
        lemma_multiple_is_accurate(difference(mark, p.average_price), k);
        lemma_near_multiple(
            units(difference(mark, p.average_price)),
            t,
            k,
            units(unrealized(p, mark)),
        );
    }
}

/// What a position is worth is the mark times its quantity, owned or owed, to one part in `2^53`.
pub proof fn law_exposure_is_accurate(p: PositionView, k: int, mark: Value)
    requires
        p.qty == quantity(k),
        mark is Finite,
        exposed(p, mark) is Finite,
    ensures
        near(units(exposed(p, mark)), units(mark) * size(k), 53),
{
    lemma_product_commutes(quantity(size(k)), mark);
    assert(absolute(quantity(k)) == quantity(size(k)));
    lemma_multiple_is_accurate(mark, size(k));
}

proof fn lemma_product_commutes(a: Value, b: Value)
    ensures
        product(a, b) == product(b, a),
{
    reveal(product);
    if a is Finite && b is Finite {
        let (m, n) = (a->magnitude, b->magnitude);
        assert(m * n == n * m) by (nonlinear_arith);
    }
}

/// What a fill of a whole quantity does to a whole position: the quantity moves by that of the
/// fill. A fill with the position gains nothing; one against it adds its gain to what is realized.
/// The average price stays where the position is reduced, is zero where it is closed, and is the
/// price of the fill where it is turned.
pub proof fn law_fills_by_case(p: PositionView, side: Side, k: int, j: int, price: Value)
    requires
        p.qty == quantity(k),
        0 < j,
        is_number(quantity(j)),
        is_number(quantity(k + course(side) * j)),
    ensures
        ({
            let d = course(side);
            let l = k + d * j;
            let b = filled(p, side, quantity(j), price);
            let gain = profit(p, side, quantity(j), price);
            &&& b.qty == quantity(l)
            &&& d * k >= 0 ==> gain == zero() && b.realized_pnl == p.realized_pnl
            &&& d * k < 0 ==> b.realized_pnl == sum(p.realized_pnl, gain)
            &&& d * k < 0 && l == 0 ==> b.average_price == zero()
            &&& d * k < 0 && d * l < 0 ==> b.average_price == p.average_price
            &&& d * k < 0 && d * l > 0 ==> b.average_price == price
        }),
{
    lemma_whole_fill(p, side, k, j);
    lemma_fill_case(p, side, k, j);
    lemma_turned(course(side), k);
    lemma_turned(course(side), j);
    lemma_turned(course(side), k + course(side) * j);
}

proof fn lemma_whole_fill(p: PositionView, side: Side, k: int, j: int)
    requires
        p.qty == quantity(k),
        0 < j,
        is_number(quantity(j)),
        is_number(quantity(k + course(side) * j)),
    ensures
        product(quantity(j), side.factor()) == quantity(course(side) * j),
        sum(quantity(k), quantity(course(side) * j)) == quantity(k + course(side) * j),
{
    lemma_turned(course(side), j);
    lemma_signed_by_side(quantity(j), side);
    assert(product(quantity(j), side.factor()) == quantity(course(side) * j));
    lemma_sum_is_whole(k, course(side) * j);
}

/// What a fill against a position gains is the difference between its price and the average price,
/// in the direction of the position, times the quantity that it closes, to one part in `2^51`.
pub proof fn law_profits_are_accurate(p: PositionView, side: Side, k: int, j: int, price: Value)
    requires
        p.qty == quantity(k),
        0 < j,
        is_number(quantity(j)),
        is_number(quantity(k + course(side) * j)),
        course(side) * k < 0,
        p.average_price is Finite,
        price is Finite,
        difference(price, p.average_price) is Finite,
        difference(p.average_price, price) is Finite,
        profit(p, side, quantity(j), price) is Finite,
    ensures
        near(
            units(profit(p, side, quantity(j), price)),
            -course(side) * (units(price) - units(p.average_price)) * least(size(k), j),
            51,
        ),
{
    lemma_whole_fill(p, side, k, j);
    lemma_fill_case(p, side, k, j);
    lemma_turned(course(side), k);
    let c = least(size(k), j);
    let x = units(price) - units(p.average_price);
    let gain = profit(p, side, quantity(j), price);
    lemma_turned(-course(side), x);
    if k > 0 {
        law_sums_are_accurate(price, negated(p.average_price));
        lemma_multiple_is_accurate(difference(price, p.average_price), c);
        lemma_near_multiple(units(difference(price, p.average_price)), x, c, units(gain));
    } else {
        law_sums_are_accurate(p.average_price, negated(price));
        lemma_multiple_is_accurate(difference(p.average_price, price), c);
        lemma_near_multiple(units(difference(p.average_price, price)), -x, c, units(gain));
    }
}

/// The errors of a weighted average.
proof fn lemma_average_error(x: int, y: int, a: int, b: int, s: int, l: int, q: int)
    requires
        x >= 0,
        y >= 0,
        near(a, x, 53),
        near(b, y, 53),
        near(s, a + b, 53),
        near(q * l, s, 53),
    ensures
        near(q * l, x + y, 50),
{
    lemma2_to64_rest();
    let f = pow2(53) as int;
    let t = x + y;
    let e1 = size(a - x);
    let e2 = size(b - y);
    let e3 = size(s - (a + b));
    let e4 = size(q * l - s);
    assert(2 * e1 <= x && 2 * e2 <= y) by (nonlinear_arith)
        requires
            f * e1 <= x,
            f * e2 <= y,
            f >= 2,
            e1 >= 0,
            e2 >= 0,
    ;
    assert(size(a + b) <= 2 * t);
    assert(e3 <= size(a + b)) by (nonlinear_arith)
        requires
            f * e3 <= size(a + b),
            f >= 1,
            e3 >= 0,
    ;
    assert(size(s) <= 4 * t);
    let all = size(q * l - t);
    assert(all <= e1 + e2 + e3 + e4);
    assert(f * all <= 8 * t) by (nonlinear_arith)
        requires
            all <= e1 + e2 + e3 + e4,
            f * e1 <= x,
            f * e2 <= y,
            f * e3 <= 2 * t,
            f * e4 <= 4 * t,
            t == x + y,
            x >= 0,
            y >= 0,
            f > 0,
    ;
}

/// A fill that opens or enlarges a position leaves the average of the prices, each weighted with
/// its quantity: average price times quantity is what was paid before and what was paid now, to
/// one part in `2^50`.
pub proof fn law_averages_are_accurate(p: PositionView, side: Side, k: int, j: int, price: Value)
    requires
        p.qty == quantity(k),
        0 < j,
        is_number(quantity(j)),
        is_number(quantity(k + course(side) * j)),
        course(side) * k >= 0,
        size(k + course(side) * j) < pow2(900),
        p.average_price is Finite,
        units(p.average_price) >= 0,
        price is Finite,
        units(price) >= pow2(1000),
        product(p.average_price, quantity(size(k))) is Finite,
        product(price, quantity(j)) is Finite,
        sum(
            product(p.average_price, quantity(size(k))),
            product(price, quantity(j)),
        ) is Finite,
        filled(p, side, quantity(j), price).average_price is Finite,
    ensures
        near(
            units(filled(p, side, quantity(j), price).average_price) * size(
                k + course(side) * j,
            ),
            units(p.average_price) * size(k) + units(price) * j,
            50,
        ),
{
    lemma_whole_fill(p, side, k, j);
    lemma_fill_case(p, side, k, j);
    lemma_turned(course(side), k);
    lemma_turned(course(side), j);
    let l = size(k + course(side) * j);
    let before = product(p.average_price, quantity(size(k)));
    let now = product(price, quantity(j));
    let cost = sum(before, now);
    let x = units(p.average_price) * size(k);
    let y = units(price) * j;
    lemma_multiple_is_accurate(p.average_price, size(k));
    lemma_multiple_is_accurate(price, j);
    law_sums_are_accurate(before, now);
    assert(x >= 0) by (nonlinear_arith)
        requires
            x == units(p.average_price) * size(k),
            units(p.average_price) >= 0,
            size(k) >= 0,
    ;
    assert(y >= pow2(1000)) by (nonlinear_arith)
        requires
            y == units(price) * j,
            units(price) >= pow2(1000),
            j >= 1,
    ;
    // The cost is large enough for the quotient to be accurate.
    lemma2_to64_rest();
    lemma_pow2_pos(1000);
    lemma_pow2_pos(998);
    lemma_pow2_adds(998, 2);
    lemma2_to64();
    let f = pow2(53) as int;
    let (a, b, s) = (units(before), units(now), units(cost));
    assert(4 * size(a - x) <= x && 4 * size(b - y) <= y) by (nonlinear_arith)
        requires
            f * size(a - x) <= x,
            f * size(b - y) <= y,
            f >= 4,
            size(a - x) >= 0,
            size(b - y) >= 0,
    ;
    assert(4 * size(s - (a + b)) <= size(a + b)) by (nonlinear_arith)
        requires
            f * size(s - (a + b)) <= size(a + b),
            f >= 4,
            size(s - (a + b)) >= 0,
    ;
    assert(size(s) >= pow2(998));
    let w = pow2(1074) as int;
    lemma_pow2_pos(1074);
    lemma_units_of_quantity(l);
    let d = units(quantity(l));
    lemma_pow2_adds(998, 1022);
    lemma_pow2_adds(900, 1074);
    lemma_pow2_monotone(1974, 2020);
    lemma_pow2_pos(1022);
    assert(size(s) * pow2(1022) >= d) by (nonlinear_arith)
        requires
            size(s) >= pow2(998),
            pow2(2020) == pow2(998) * pow2(1022),
            pow2(1974) == pow2(900) * w,
            pow2(1974) <= pow2(2020),
            d == l * w,
            l <= pow2(900),
            w > 0,
    ;
    assert(d > 0) by (nonlinear_arith)
        requires
            d == l * w,
            l > 0,
            w > 0,
    ;
    law_quotients_are_accurate(cost, quantity(l));
    let q = units(quotient(cost, quantity(l)));
    assert(q * d == (q * l) * w) by (nonlinear_arith)
        requires
            d == l * w,
    ;
    let e = size(q * l - s);
    assert(size((q * l) * w - s * w) == e * w) by (nonlinear_arith)
        requires
            e == size(q * l - s),
            w > 0,
    ;
    assert(size(s * w) == size(s) * w) by (nonlinear_arith)
        requires
            w > 0,
    ;
    assert(f * e <= size(s)) by (nonlinear_arith)
        requires
            f * (e * w) <= size(s) * w,
            w > 0,
    ;
    lemma_average_error(x, y, a, b, s, l, q);
}

/// A quantity counts as none exactly if it is less than `2^-52`.
pub proof fn law_flat_is_less_than_a_hair(v: Value)
    requires
        v is Finite,
    ensures
        is_flat(v) <==> size(units(v)) < pow2(1022),
        !is_flat(Value::Nan),
        !is_flat(Value::Infinite { negative: true }),
        !is_flat(Value::Infinite { negative: false }),
{
}

/// What a position of any size would yield is the difference between the mark and its average
/// price, times its quantity, to one part in `2^51` and one unit.
pub proof fn law_open_profit_of_any_size_is_accurate(p: PositionView, mark: Value)
    requires
        p.qty is Finite,
        !is_flat(p.qty),
        p.average_price is Finite,
        mark is Finite,
        difference(mark, p.average_price) is Finite,
        unrealized(p, mark) is Finite,
    ensures
        ({
            let w = pow2(1074);
            let exact = (units(mark) - units(p.average_price)) * units(p.qty);
            pow2(51) * size(units(unrealized(p, mark)) * w - exact) <= size(exact) + pow2(51) * w
        }),
{
    let w = pow2(1074) as int;
    lemma_pow2_pos(1074);
    lemma2_to64_rest();
    let t = units(mark) - units(p.average_price);
    let q = units(p.qty);
    let dv = difference(mark, p.average_price);
    let d = units(dv);
    let r = units(unrealized(p, mark));
    law_sums_are_accurate(mark, negated(p.average_price));
    law_products_are_accurate(dv, p.qty);
    let f = pow2(51) as int;
    let x = size(d - t);
    let y = size(r * w - d * q);
    let s = size(t) * size(q);
    assert(size(t * q) == s) by (nonlinear_arith)
        requires
            s == size(t) * size(q),
    ;
    assert(x <= size(t)) by (nonlinear_arith)
        requires
            4 * f * x <= size(t),
            f >= 1,
            x >= 0,
    ;
    assert(size(d * q) <= 2 * s) by (nonlinear_arith)
        requires
            size(d) <= 2 * size(t),
            s == size(t) * size(q),
    ;
    assert(size(d * q - t * q) == x * size(q)) by (nonlinear_arith)
        requires
            x == size(d - t),
    ;
    assert(4 * f * (x * size(q)) <= s) by (nonlinear_arith)
        requires
            4 * f * x <= size(t),
            s == size(t) * size(q),
            size(q) >= 0,
    ;
    let all = size(r * w - t * q);
    assert(all <= y + x * size(q));
    assert(s >= 0) by (nonlinear_arith)
        requires
            s == size(t) * size(q),
    ;
    assert(f * w >= 0) by (nonlinear_arith)
        requires
            f > 0,
            w > 0,
    ;
    assert(f * all <= s + f * w) by (nonlinear_arith)
        requires
            all <= y + x * size(q),
            4 * f * y <= 2 * s || 2 * y <= w,
            4 * f * (x * size(q)) <= s,
            s >= 0,
            f > 0,
            w > 0,
            y >= 0,
            f * w >= 0,
    ;
}

/// What a position of any size is worth is the mark times its quantity, owned or owed, to one part
/// in `2^53` or half a unit.
pub proof fn law_exposure_of_any_size_is_accurate(p: PositionView, mark: Value)
    requires
        p.qty is Finite,
        mark is Finite,
        exposed(p, mark) is Finite,
    ensures
        ({
            let w = pow2(1074);
            let exact = size(units(p.qty)) * units(mark);
            near(units(exposed(p, mark)) * w, exact, 53) || 2 * size(
                units(exposed(p, mark)) * w - exact,
            ) <= w
        }),
{
    law_products_are_accurate(absolute(p.qty), mark);
}

/// A step of the ticket adds or takes one, and stops at 250 and at one, wherever it starts, where
/// nothing is rounded.
pub proof fn law_ticket_steps_stay_in_range(qty: Value)
    requires
        exact_sum(qty, quantity(1)),
        exact_difference(qty, quantity(1)),
    ensures
        ({
            let w = pow2(1074) as int;
            let up = units(stepped_up(qty));
            let down = units(stepped_down(qty));
            &&& units(qty) + w <= 250 * w ==> up == units(qty) + w
            &&& units(qty) + w > 250 * w ==> up == 250 * w
            &&& units(qty) - w >= w ==> down == units(qty) - w
            &&& units(qty) - w < w ==> down == w
        }),
{
    lemma2_to64();
    lemma2_to64_rest();
    lemma_whole_exact(1);
    lemma_whole_exact(250);
    lemma_units_of_quantity(1);
    lemma_pow2_pos(1074);
    assert(1 * pow2(1074) == pow2(1074)) by (nonlinear_arith);
}

} // verus!
