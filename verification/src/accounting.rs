//! How fills, trades, positions and totals agree with each other.
//!
//! Amounts of money are rounded, so what holds of them in exact arithmetic is stated of the fills
//! and totals on which no rounding takes place.
use crate::double::{
    absolute, difference, equal, is_negative, less, negated, product, quotient, rounded, sign_of,
    smaller, sum, units, zero, Value,
};
use crate::exactness::{
    lemma_round_exact, lemma_round_monotone, lemma_short_is_exact, lemma_whole_exact, scaled,
};
use crate::laws::{
    after, exact_limit, happened, is_complete, is_number, is_whole_within,
    law_keys_keep_the_state_valid, law_start_is_valid, law_time_keeps_the_state_valid,
    lemma_flat_quantity, lemma_quantity_is_short, lemma_quantity_order, lemma_signed_by_side,
    lemma_started_is_flat, lemma_sum_is_number, lemma_sum_of_quantities, lemma_units_of_quantity,
    lemma_zero_is_number, quantity, valid, Happening,
};
use crate::market::{
    carried, closed_profit, extends, filled, is_flat, listed, profit, unrealized, PositionView,
    Side, TradeView,
};
use crate::rounding::round_ratio;
use crate::terminal::{
    all_listed, closing_side, exposed_each, fill_price, ordered, places_order, pressed,
    realized_each, started, ticked, total, AppView, KeyCode, MAX_TRADES,
};
use vstd::arithmetic::power2::{lemma2_to64, lemma2_to64_rest, lemma_pow2_pos, pow2};
use vstd::prelude::*;

verus! {

/// Whether a sum is finite and not rounded.
pub open spec fn exact_sum(a: Value, b: Value) -> bool {
    &&& a is Finite && b is Finite && sum(a, b) is Finite
    &&& units(sum(a, b)) == units(a) + units(b)
}

/// Whether a difference is finite and not rounded.
pub open spec fn exact_difference(a: Value, b: Value) -> bool {
    exact_sum(a, negated(b))
}

/// Whether a product is finite and not rounded.
pub open spec fn exact_product(a: Value, b: Value) -> bool {
    &&& a is Finite && b is Finite && product(a, b) is Finite
    &&& units(product(a, b)) * pow2(1074) == units(a) * units(b)
}

/// Whether a quotient is finite and not rounded.
pub open spec fn exact_quotient(a: Value, b: Value) -> bool {
    &&& a is Finite && b is Finite && quotient(a, b) is Finite
    &&& units(quotient(a, b)) * units(b) == units(a) * pow2(1074)
}

/// Whether nothing is rounded when a fill is booked.
pub open spec fn exact_fill(p: PositionView, side: Side, qty: Value, price: Value) -> bool {
    &&& exact_product(qty, side.factor())
    &&& exact_sum(p.qty, product(qty, side.factor()))
    &&& if extends(p, side, qty) {
        let before = product(p.average_price, absolute(p.qty));
        let cost = product(price, qty);
        &&& p.realized_pnl is Finite
        &&& exact_product(p.average_price, absolute(p.qty))
        &&& exact_product(price, qty)
        &&& exact_sum(before, cost)
        &&& exact_quotient(sum(before, cost), absolute(carried(p, side, qty)))
    } else {
        let closing = smaller(absolute(p.qty), qty);
        &&& exact_sum(p.realized_pnl, closed_profit(p, qty, price))
        &&& if less(zero(), p.qty) {
            &&& exact_difference(price, p.average_price)
            &&& exact_product(difference(price, p.average_price), closing)
        } else {
            &&& exact_difference(p.average_price, price)
            &&& exact_product(difference(p.average_price, price), closing)
        }
    }
}

/// Whether nothing is rounded when a position is valued at `mark`.
pub open spec fn exact_mark(p: PositionView, mark: Value) -> bool {
    is_flat(p.qty) || {
        &&& exact_difference(mark, p.average_price)
        &&& exact_product(difference(mark, p.average_price), p.qty)
    }
}

/// One for a purchase, minus one for a sale.
pub open spec fn course(side: Side) -> int {
    match side {
        Side::Buy => 1,
        Side::Sell => -1,
    }
}

/// A number without its sign.
pub open spec fn size(k: int) -> int {
    if k < 0 {
        -k
    } else {
        k
    }
}

/// The smaller of two numbers.
pub open spec fn least(a: int, b: int) -> int {
    if a <= b {
        a
    } else {
        b
    }
}

/// What a fill of `j` units in the course `d` does to a position of `k` units, as numbers: what it
/// gains, and where the average price moves from `before` to `after`.
spec fn booked(d: int, k: int, j: int, before: int, after: int, price: int, gain: int) -> bool {
    let l = k + d * j;
    &&& d * k >= 0 ==> gain == 0 && after * size(l) == before * size(k) + price * j
    &&& d * k < 0 ==> gain == -d * (price - before) * least(size(k), j)
    &&& d * k < 0 && l == 0 ==> after == 0
    &&& d * k < 0 && d * l < 0 ==> after == before
    &&& d * k < 0 && d * l > 0 ==> after == price
}

pub(crate) proof fn lemma_turned(d: int, k: int)
    requires
        d == 1 || d == -1,
    ensures
        d * k == if d == 1 {
            k
        } else {
            -k
        },
{
    assert(d * k == if d == 1 {
        k
    } else {
        -k
    }) by (nonlinear_arith)
        requires
            d == 1 || d == -1,
    ;
}

proof fn lemma_exact_times(v: Value, c: int)
    requires
        exact_product(v, quantity(c)),
    ensures
        units(product(v, quantity(c))) == units(v) * c,
{
    lemma_units_of_quantity(c);
    let w = pow2(1074) as int;
    let u = units(v);
    let r = units(product(v, quantity(c)));
    assert(r == u * c) by (nonlinear_arith)
        requires
            r * w == u * (c * w),
            w > 0,
    ;
}

proof fn lemma_exact_over(v: Value, c: int)
    requires
        exact_quotient(v, quantity(c)),
    ensures
        units(quotient(v, quantity(c))) * c == units(v),
{
    lemma_units_of_quantity(c);
    let w = pow2(1074) as int;
    let u = units(v);
    let r = units(quotient(v, quantity(c)));
    assert(r * c == u) by (nonlinear_arith)
        requires
            r * (c * w) == u * w,
            w > 0,
    ;
}

proof fn lemma_quantity_of_units(v: Value, k: int)
    requires
        v is Finite,
        k != 0,
        units(v) == k * pow2(1074),
    ensures
        v == quantity(k),
{
    lemma_units_of_quantity(k);
    let w = pow2(1074) as int;
    assert(k > 0 ==> k * w > 0) by (nonlinear_arith)
        requires
            w > 0,
    ;
    assert(k < 0 ==> k * w < 0) by (nonlinear_arith)
        requires
            w > 0,
    ;
}

/// Adding whole numbers without rounding leads to a whole number.
proof fn lemma_exact_sum_is_whole(a: int, b: int)
    requires
        b != 0,
        exact_sum(quantity(a), quantity(b)),
    ensures
        sum(quantity(a), quantity(b)) == quantity(a + b),
{
    let w = pow2(1074) as int;
    lemma_units_of_quantity(a);
    lemma_units_of_quantity(b);
    assert(a * w + b * w == (a + b) * w) by (nonlinear_arith);
    if a + b == 0 {
        reveal(sum);
        assert(0 * w == 0) by (nonlinear_arith);
    } else {
        lemma_quantity_of_units(sum(quantity(a), quantity(b)), a + b);
    }
}

/// A side gives a whole number its sign, where nothing is rounded.
proof fn lemma_exact_side(j: int, side: Side)
    requires
        j > 0,
        exact_product(quantity(j), side.factor()),
    ensures
        product(quantity(j), side.factor()) == quantity(course(side) * j),
{
    let w = pow2(1074) as int;
    let d = course(side);
    lemma2_to64_rest();
    lemma_whole_exact(1);
    lemma_units_of_quantity(j);
    lemma_turned(d, j);
    assert(1 * w == w) by (nonlinear_arith);
    let r = units(product(quantity(j), side.factor()));
    assert(r == (d * j) * w) by (nonlinear_arith)
        requires
            r * w == (j * w) * (if d == 1 {
                w
            } else {
                -w
            }),
            d == 1 || d == -1,
            w > 0,
    ;
    lemma_quantity_of_units(product(quantity(j), side.factor()), d * j);
}

/// Which of its cases a fill of whole quantities is.
pub(crate) proof fn lemma_fill_case(p: PositionView, side: Side, k: int, j: int)
    requires
        p.qty == quantity(k),
        0 < j,
        product(quantity(j), side.factor()) == quantity(course(side) * j),
        sum(quantity(k), quantity(course(side) * j)) == quantity(k + course(side) * j),
    ensures
        extends(p, side, quantity(j)) == (course(side) * k >= 0),
        carried(p, side, quantity(j)) == quantity(k + course(side) * j),
        is_flat(quantity(k + course(side) * j)) == (k + course(side) * j == 0),
        is_flat(quantity(k)) == (k == 0),
        absolute(quantity(k)) == quantity(size(k)),
        absolute(quantity(k + course(side) * j)) == quantity(size(k + course(side) * j)),
        smaller(absolute(p.qty), quantity(j)) == quantity(least(size(k), j)),
        less(zero(), p.qty) == (k > 0),
        quantity(0) == zero(),
        k != 0 ==> (equal(sign_of(p.qty), sign_of(quantity(k + course(side) * j))) == ((k < 0) == (k
            + course(side) * j < 0))),
{
    let l = k + course(side) * j;
    let w = pow2(1074);
    lemma_turned(course(side), k);
    lemma_turned(course(side), j);
    lemma_units_of_quantity(k);
    assert(0 * w == 0) by (nonlinear_arith);
    lemma_flat_quantity(k);
    lemma_flat_quantity(l);
    lemma_quantity_order(0, k);
    lemma_quantity_order(size(k), j);
    lemma_quantity_order(j, size(k));
}

/// What an exact fill does to a position, as numbers.
proof fn lemma_exact_fill(p: PositionView, side: Side, k: int, j: int, price: Value)
    requires
        p.qty == quantity(k),
        0 < j,
        exact_fill(p, side, quantity(j), price),
    ensures
        ({
            let d = course(side);
            let l = k + d * j;
            let b = filled(p, side, quantity(j), price);
            let gain = profit(p, side, quantity(j), price);
            &&& b.qty == quantity(l)
            &&& p.average_price is Finite && price is Finite && p.realized_pnl is Finite
            &&& b.average_price is Finite && b.realized_pnl is Finite && gain is Finite
            &&& units(b.realized_pnl) == units(p.realized_pnl) + units(gain)
            &&& booked(
                d,
                k,
                j,
                units(p.average_price),
                units(b.average_price),
                units(price),
                units(gain),
            )
        }),
{
    let d = course(side);
    let l = k + d * j;
    let qty = quantity(j);
    let gain = profit(p, side, qty, price);
    lemma_turned(d, k);
    lemma_turned(d, j);
    lemma_turned(d, l);
    lemma_exact_side(j, side);
    lemma_exact_sum_is_whole(k, d * j);
    lemma_fill_case(p, side, k, j);
    if d * k >= 0 {
        let before = product(p.average_price, absolute(p.qty));
        let cost = product(price, qty);
        lemma_exact_times(p.average_price, size(k));
        lemma_exact_times(price, j);
        lemma_exact_over(sum(before, cost), size(l));
        assert(l != 0);
    } else {
        let c = least(size(k), j);
        let (x, y) = (units(price), units(p.average_price));
        if k > 0 {
            lemma_exact_times(difference(price, p.average_price), c);
            assert(units(gain) == (x - y) * c);
            assert(-d * (x - y) * c == (x - y) * c) by (nonlinear_arith)
                requires
                    d == -1,
            ;
        } else {
            lemma_exact_times(difference(p.average_price, price), c);
            assert(units(gain) == (y - x) * c);
            assert(-d * (x - y) * c == (y - x) * c) by (nonlinear_arith)
                requires
                    d == 1,
            ;
        }
    }
}

proof fn lemma_exact_mark(p: PositionView, k: int, mark: Value)
    requires
        p.qty == quantity(k),
        exact_mark(p, mark),
    ensures
        units(unrealized(p, mark)) == (units(mark) - units(p.average_price)) * k,
{
    lemma_flat_quantity(k);
    let gap = units(mark) - units(p.average_price);
    if k == 0 {
        assert(gap * 0 == 0) by (nonlinear_arith);
    } else {
        lemma_exact_times(difference(mark, p.average_price), k);
    }
}

/// What is gained and what is open add up to the same before and after, apart from what the fill
/// gains or loses against the mark.
proof fn lemma_value_is_kept(
    d: int,
    k: int,
    j: int,
    before: int,
    after: int,
    price: int,
    mark: int,
    gain: int,
)
    requires
        d == 1 || d == -1,
        j > 0,
        booked(d, k, j, before, after, price, gain),
    ensures
        gain + (mark - after) * (k + d * j) == (mark - before) * k + d * j * (mark - price),
{
    let e = d * j;
    let l = k + e;
    lemma_turned(d, k);
    lemma_turned(d, j);
    lemma_turned(d, l);
    lemma_turned(d, least(size(k), j));
    if d * k >= 0 {
        if d == -1 {
            assert(after * l == before * k + price * e) by (nonlinear_arith)
                requires
                    after * (-l) == before * (-k) + price * j,
                    e == -j,
            ;
        }
        assert((mark - after) * l == (mark - before) * k + e * (mark - price))
            by (nonlinear_arith)
            requires
                l == k + e,
                after * l == before * k + price * e,
        ;
    } else if d * l < 0 {
        assert(least(size(k), j) == j);
        assert(gain == -((price - before) * e)) by (nonlinear_arith)
            requires
                gain == -d * (price - before) * j,
                e == d * j,
        ;
        assert(gain + (mark - after) * l == (mark - before) * k + e * (mark - price))
            by (nonlinear_arith)
            requires
                l == k + e,
                gain == -((price - before) * e),
                after == before,
        ;
    } else {
        let c = least(size(k), j);
        assert(d * c == -k);
        assert(gain == (price - before) * k) by (nonlinear_arith)
            requires
                gain == -d * (price - before) * c,
                d * c == -k,
        ;
        if l == 0 {
            assert((mark - after) * l == 0) by (nonlinear_arith)
                requires
                    l == 0,
            ;
            assert(gain == (mark - before) * k + e * (mark - price)) by (nonlinear_arith)
                requires
                    gain == (price - before) * k,
                    e == -k,
            ;
        } else {
            assert(gain + (mark - after) * l == (mark - before) * k + e * (mark - price))
                by (nonlinear_arith)
                requires
                    l == k + e,
                    gain == (price - before) * k,
                    after == price,
            ;
        }
    }
}

/// A fill creates and loses no profit, whether it opens, enlarges, reduces, closes or turns a
/// position: at any mark, what is realized and what is open together change by what the fill is
/// better than the mark, where nothing is rounded.
pub proof fn law_fills_create_no_profit(
    p: PositionView,
    side: Side,
    k: int,
    j: int,
    price: Value,
    mark: Value,
)
    requires
        p.qty == quantity(k),
        0 < j,
        exact_fill(p, side, quantity(j), price),
        exact_mark(p, mark),
        exact_mark(filled(p, side, quantity(j), price), mark),
    ensures
        ({
            let b = filled(p, side, quantity(j), price);
            units(b.realized_pnl) + units(unrealized(b, mark)) == units(p.realized_pnl) + units(
                unrealized(p, mark),
            ) + course(side) * j * (units(mark) - units(price))
        }),
{
    let b = filled(p, side, quantity(j), price);
    lemma_exact_fill(p, side, k, j, price);
    lemma_exact_mark(p, k, mark);
    lemma_exact_mark(b, k + course(side) * j, mark);
    lemma_value_is_kept(
        course(side),
        k,
        j,
        units(p.average_price),
        units(b.average_price),
        units(price),
        units(mark),
        units(profit(p, side, quantity(j), price)),
    );
}

/// Two fills of `i` and `j` units do the same as one of `i + j` units.
proof fn lemma_booked_in_parts(
    d: int,
    k: int,
    i: int,
    j: int,
    before: int,
    between: int,
    after: int,
    at_once: int,
    price: int,
    first: int,
    second: int,
    gain: int,
)
    requires
        d == 1 || d == -1,
        i > 0,
        j > 0,
        booked(d, k, i, before, between, price, first),
        booked(d, k + d * i, j, between, after, price, second),
        booked(d, k, i + j, before, at_once, price, gain),
    ensures
        after == at_once,
        first + second == gain,
{
    let l = k + d * i;
    let m = l + d * j;
    lemma_turned(d, k);
    lemma_turned(d, i);
    lemma_turned(d, j);
    lemma_turned(d, i + j);
    lemma_turned(d, l);
    lemma_turned(d, m);
    assert(k + d * (i + j) == m);
    if d * k >= 0 {
        assert(after == at_once) by (nonlinear_arith)
            requires
                between * size(l) == before * size(k) + price * i,
                after * size(m) == between * size(l) + price * j,
                at_once * size(m) == before * size(k) + price * (i + j),
                size(m) > 0,
        ;
    } else {
        let t = -d * (price - before);
        if d * l < 0 {
            let c = least(size(l), j);
            assert(least(size(k), i) == i);
            assert(least(size(k), i + j) == i + c);
            assert(t * (i + c) == t * i + t * c) by (nonlinear_arith);
        } else {
            assert(least(size(k), i) == size(k));
            assert(least(size(k), i + j) == size(k));
            assert(second == 0);
            assert(size(m) == size(l) + j);
            if l == 0 {
                assert(between * 0 == 0) by (nonlinear_arith);
                assert(after == price) by (nonlinear_arith)
                    requires
                        after * j == price * j,
                        j > 0,
                ;
            } else {
                assert(after == price) by (nonlinear_arith)
                    requires
                        after * (size(l) + j) == price * size(l) + price * j,
                        size(l) + j > 0,
                ;
            }
        }
    }
}

/// Two fills on one side at one price leave the same position as one fill of their sum, and gain
/// the same together, also where they close or turn the position, where nothing is rounded.
pub proof fn law_fills_can_be_split(
    p: PositionView,
    side: Side,
    k: int,
    i: int,
    j: int,
    price: Value,
)
    requires
        p.qty == quantity(k),
        0 < i,
        0 < j,
        exact_fill(p, side, quantity(i), price),
        exact_fill(filled(p, side, quantity(i), price), side, quantity(j), price),
        exact_fill(p, side, quantity(i + j), price),
    ensures
        ({
            let first = filled(p, side, quantity(i), price);
            let both = filled(first, side, quantity(j), price);
            let once = filled(p, side, quantity(i + j), price);
            &&& both.qty == once.qty
            &&& equal(both.average_price, once.average_price)
            &&& equal(both.realized_pnl, once.realized_pnl)
            &&& units(profit(p, side, quantity(i), price)) + units(
                profit(first, side, quantity(j), price),
            ) == units(profit(p, side, quantity(i + j), price))
        }),
{
    let d = course(side);
    let first = filled(p, side, quantity(i), price);
    let both = filled(first, side, quantity(j), price);
    let once = filled(p, side, quantity(i + j), price);
    lemma_turned(d, i);
    lemma_turned(d, j);
    lemma_turned(d, i + j);
    lemma_exact_fill(p, side, k, i, price);
    lemma_exact_fill(first, side, k + d * i, j, price);
    lemma_exact_fill(p, side, k, i + j, price);
    lemma_booked_in_parts(
        d,
        k,
        i,
        j,
        units(p.average_price),
        units(first.average_price),
        units(both.average_price),
        units(once.average_price),
        units(price),
        units(profit(p, side, quantity(i), price)),
        units(profit(first, side, quantity(j), price)),
        units(profit(p, side, quantity(i + j), price)),
    );
}

/// Whether a quantity is none, or large enough to count.
pub open spec fn is_settled(v: Value) -> bool {
    v is Finite && (units(v) == 0 || size(units(v)) >= pow2(1022))
}

/// Whether the quantity after a fill is not rounded, and is none or large enough to count, as are
/// the quantities before.
pub open spec fn exact_quantity(p: PositionView, side: Side, qty: Value) -> bool {
    &&& is_settled(p.qty)
    &&& qty is Finite
    &&& units(qty) > 0
    &&& exact_product(qty, side.factor())
    &&& exact_sum(p.qty, product(qty, side.factor()))
    &&& is_settled(carried(p, side, qty))
}

/// Which of its cases a fill is.
proof fn lemma_any_fill_case(p: PositionView, side: Side, qty: Value)
    requires
        exact_quantity(p, side, qty),
    ensures
        ({
            let d = course(side);
            let (k, j) = (units(p.qty), units(qty));
            let l = k + d * j;
            let left = carried(p, side, qty);
            let closing = smaller(absolute(p.qty), qty);
            &&& extends(p, side, qty) == (d * k >= 0)
            &&& units(left) == l
            &&& is_flat(left) == (l == 0)
            &&& is_flat(p.qty) == (k == 0)
            &&& units(absolute(left)) == size(l)
            &&& units(absolute(p.qty)) == size(k)
            &&& closing is Finite
            &&& units(closing) == least(size(k), j)
            &&& less(zero(), p.qty) == (k > 0)
            &&& k != 0 && l != 0 ==> (equal(sign_of(p.qty), sign_of(left)) == ((k < 0) == (l < 0)))
            &&& d * j == if d == 1 {
                j
            } else {
                -j
            }
        }),
{
    let d = course(side);
    let w = pow2(1074) as int;
    let (k, j) = (units(p.qty), units(qty));
    let signed = product(qty, side.factor());
    lemma2_to64_rest();
    lemma_whole_exact(1);
    lemma_pow2_pos(1074);
    lemma_pow2_pos(1022);
    assert(1 * w == w) by (nonlinear_arith);
    lemma_turned(d, j);
    lemma_turned(d, k);
    let r = units(signed);
    assert(r == d * j) by (nonlinear_arith)
        requires
            r * w == j * (if d == 1 {
                w
            } else {
                -w
            }),
            d == 1 || d == -1,
            w > 0,
    ;
}

/// What an exact fill of any size does to a position, as numbers.
proof fn lemma_any_exact_fill(p: PositionView, side: Side, qty: Value, price: Value)
    requires
        exact_quantity(p, side, qty),
        exact_fill(p, side, qty, price),
    ensures
        ({
            let d = course(side);
            let b = filled(p, side, qty, price);
            let gain = profit(p, side, qty, price);
            &&& b.qty is Finite
            &&& units(b.qty) == units(p.qty) + d * units(qty)
            &&& p.average_price is Finite && price is Finite && p.realized_pnl is Finite
            &&& b.average_price is Finite && b.realized_pnl is Finite && gain is Finite
            &&& units(b.realized_pnl) == units(p.realized_pnl) + units(gain)
            &&& booked(
                d,
                units(p.qty),
                units(qty),
                units(p.average_price),
                units(b.average_price),
                units(price),
                units(gain) * pow2(1074),
            )
        }),
{
    let d = course(side);
    let w = pow2(1074) as int;
    lemma_pow2_pos(1074);
    let (k, j) = (units(p.qty), units(qty));
    let l = k + d * j;
    let gain = profit(p, side, qty, price);
    let b = filled(p, side, qty, price);
    lemma_any_fill_case(p, side, qty);
    lemma_turned(d, k);
    lemma_turned(d, l);
    if d * k >= 0 {
        assert(l != 0);
        let before = product(p.average_price, absolute(p.qty));
        let cost = product(price, qty);
        let s = units(sum(before, cost));
        let (x, y) = (units(before), units(cost));
        assert(s * w == x * w + y * w) by (nonlinear_arith)
            requires
                s == x + y,
        ;
        assert(0 * w == 0) by (nonlinear_arith);
    } else {
        let c = least(size(k), j);
        let (x, y) = (units(price), units(p.average_price));
        let g = units(gain) * w;
        if k > 0 {
            assert(g == (x - y) * c);
            assert(-d * (x - y) * c == (x - y) * c) by (nonlinear_arith)
                requires
                    d == -1,
            ;
        } else {
            assert(g == (y - x) * c);
            assert(-d * (x - y) * c == (y - x) * c) by (nonlinear_arith)
                requires
                    d == 1,
            ;
        }
    }
}

proof fn lemma_any_exact_mark(p: PositionView, mark: Value)
    requires
        is_settled(p.qty),
        exact_mark(p, mark),
    ensures
        units(unrealized(p, mark)) * pow2(1074) == (units(mark) - units(p.average_price)) * units(
            p.qty,
        ),
{
    lemma_pow2_pos(1022);
    let gap = units(mark) - units(p.average_price);
    let w = pow2(1074) as int;
    if units(p.qty) == 0 {
        assert(gap * 0 == 0) by (nonlinear_arith);
        assert(0 * w == 0) by (nonlinear_arith);
    }
}

/// A fill of any size, whole or not, creates and loses no profit: at any mark, what is realized and
/// what is open together change by what the fill is better than the mark, where nothing is rounded.
pub proof fn law_fills_of_any_size_create_no_profit(
    p: PositionView,
    side: Side,
    qty: Value,
    price: Value,
    mark: Value,
)
    requires
        exact_quantity(p, side, qty),
        exact_fill(p, side, qty, price),
        exact_mark(p, mark),
        exact_mark(filled(p, side, qty, price), mark),
    ensures
        ({
            let b = filled(p, side, qty, price);
            let w = pow2(1074);
            (units(b.realized_pnl) + units(unrealized(b, mark))) * w == (units(p.realized_pnl)
                + units(unrealized(p, mark))) * w + course(side) * units(qty) * (units(mark)
                - units(price))
        }),
{
    let b = filled(p, side, qty, price);
    let w = pow2(1074) as int;
    lemma_any_exact_fill(p, side, qty, price);
    lemma_any_fill_case(p, side, qty);
    lemma_any_exact_mark(p, mark);
    lemma_any_exact_mark(b, mark);
    let gain = units(profit(p, side, qty, price));
    lemma_value_is_kept(
        course(side),
        units(p.qty),
        units(qty),
        units(p.average_price),
        units(b.average_price),
        units(price),
        units(mark),
        gain * w,
    );
    let (r, u, v) = (units(p.realized_pnl), units(unrealized(p, mark)), units(unrealized(b, mark)));
    assert((r + gain + v) * w == r * w + gain * w + v * w) by (nonlinear_arith);
    assert((r + u) * w == r * w + u * w) by (nonlinear_arith);
}

/// Two fills of any size on one side at one price leave the same position as one fill of their sum,
/// and gain the same together, where nothing is rounded.
pub proof fn law_fills_of_any_size_can_be_split(
    p: PositionView,
    side: Side,
    first: Value,
    second: Value,
    both: Value,
    price: Value,
)
    requires
        both is Finite,
        units(both) == units(first) + units(second),
        exact_quantity(p, side, first),
        exact_fill(p, side, first, price),
        exact_quantity(filled(p, side, first, price), side, second),
        exact_fill(filled(p, side, first, price), side, second, price),
        exact_quantity(p, side, both),
        exact_fill(p, side, both, price),
    ensures
        ({
            let one = filled(p, side, first, price);
            let two = filled(one, side, second, price);
            let once = filled(p, side, both, price);
            &&& equal(two.qty, once.qty)
            &&& equal(two.average_price, once.average_price)
            &&& equal(two.realized_pnl, once.realized_pnl)
            &&& units(profit(p, side, first, price)) + units(profit(one, side, second, price))
                == units(profit(p, side, both, price))
        }),
{
    let d = course(side);
    let w = pow2(1074) as int;
    lemma_pow2_pos(1074);
    let one = filled(p, side, first, price);
    let two = filled(one, side, second, price);
    let once = filled(p, side, both, price);
    let (i, j) = (units(first), units(second));
    lemma_turned(d, i);
    lemma_turned(d, j);
    lemma_turned(d, i + j);
    lemma_any_exact_fill(p, side, first, price);
    lemma_any_exact_fill(one, side, second, price);
    lemma_any_exact_fill(p, side, both, price);
    let a = units(profit(p, side, first, price));
    let b = units(profit(one, side, second, price));
    let c = units(profit(p, side, both, price));
    lemma_booked_in_parts(
        d,
        units(p.qty),
        i,
        j,
        units(p.average_price),
        units(one.average_price),
        units(two.average_price),
        units(once.average_price),
        units(price),
        a * w,
        b * w,
        c * w,
    );
    assert(a + b == c) by (nonlinear_arith)
        requires
            a * w + b * w == c * w,
            w > 0,
    ;
}

/// What a fill of any size does to a position: the quantity moves by that of the fill. A fill with
/// the position gains nothing; one against it adds its gain to what is realized. The average price
/// stays where the position is reduced, is zero where it is closed, and is the price of the fill
/// where it is turned.
pub proof fn law_fills_of_any_size_by_case(p: PositionView, side: Side, qty: Value, price: Value)
    requires
        exact_quantity(p, side, qty),
    ensures
        ({
            let d = course(side);
            let k = units(p.qty);
            let l = k + d * units(qty);
            let b = filled(p, side, qty, price);
            let gain = profit(p, side, qty, price);
            &&& b.qty is Finite
            &&& units(b.qty) == l
            &&& d * k >= 0 ==> gain == zero() && b.realized_pnl == p.realized_pnl
            &&& d * k < 0 ==> b.realized_pnl == sum(p.realized_pnl, gain)
            &&& d * k < 0 && l == 0 ==> b.average_price == zero()
            &&& d * k < 0 && d * l < 0 ==> b.average_price == p.average_price
            &&& d * k < 0 && d * l > 0 ==> b.average_price == price
        }),
{
    lemma_any_fill_case(p, side, qty);
    lemma_turned(course(side), units(p.qty));
    lemma_turned(course(side), units(p.qty) + course(side) * units(qty));
}

/// Whole amounts are not rounded: not their sums and products as long as these are exact, nor the
/// quotients that are whole.
pub proof fn law_whole_amounts_are_exact(a: int, b: int)
    ensures
        -exact_limit() <= a + b <= exact_limit() ==> exact_sum(quantity(a), quantity(b)),
        -exact_limit() <= a - b <= exact_limit() ==> exact_difference(quantity(a), quantity(b)),
        -exact_limit() <= a * b <= exact_limit() ==> exact_product(quantity(a), quantity(b)),
        -exact_limit() <= a <= exact_limit() && b != 0 ==> exact_quotient(
            quantity(a * b),
            quantity(b),
        ),
{
    let w = pow2(1074) as int;
    lemma_units_of_quantity(a);
    lemma_units_of_quantity(b);
    lemma_units_of_quantity(a + b);
    lemma_units_of_quantity(-b);
    lemma_units_of_quantity(a - b);
    assert((a + b) * w == a * w + b * w) by (nonlinear_arith);
    if -exact_limit() <= a + b <= exact_limit() {
        lemma_sum_of_quantities(a, b);
    }
    if -exact_limit() <= a - b <= exact_limit() {
        assert((a - b) * w == a * w - b * w) by (nonlinear_arith);
        if b != 0 {
            assert(negated(quantity(b)) == quantity(-b));
            lemma_sum_of_quantities(a, -b);
        } else {
            lemma_less_nothing(a);
        }
    }
    if -exact_limit() <= a * b <= exact_limit() {
        lemma_whole_product(a, b);
    }
    if -exact_limit() <= a <= exact_limit() && b != 0 {
        lemma_whole_quotient(a, b);
    }
}

/// Subtracting nothing is exact.
proof fn lemma_less_nothing(a: int)
    requires
        -exact_limit() <= a <= exact_limit(),
    ensures
        exact_difference(quantity(a), quantity(0)),
{
    reveal(sum);
    reveal(rounded);
    assert(0 * pow2(1074) == 0) by (nonlinear_arith);
    lemma_quantity_is_short(a);
    lemma_short_is_exact(quantity(a)->magnitude);
}

proof fn lemma_whole_product(a: int, b: int)
    requires
        -exact_limit() <= a * b <= exact_limit(),
    ensures
        exact_product(quantity(a), quantity(b)),
{
    reveal(product);
    reveal(rounded);
    let w = pow2(1074);
    lemma_units_of_quantity(a);
    lemma_units_of_quantity(b);
    lemma_quantity_is_short(a * b);
    let n = (size(a) * size(b)) as nat;
    assert(n == size(a * b)) by (nonlinear_arith)
        requires
            n == size(a) * size(b),
    ;
    assert((size(a) as nat * w) * (size(b) as nat * w) == (n * w) * w) by (nonlinear_arith)
        requires
            n == size(a) as nat * size(b) as nat,
    ;
    let (x, e) = choose|x: nat, e: nat| x < pow2(53) && n * w == #[trigger] scaled(x, e);
    lemma_round_exact(x, e, w);
    let r = units(product(quantity(a), quantity(b)));
    let c = (a < 0) != (b < 0);
    let v = (n * w) as int;
    assert(r == if c {
        -v
    } else {
        v
    });
    assert(r * w == (a * w) * (b * w)) by (nonlinear_arith)
        requires
            r == if (a < 0) != (b < 0) {
                -v
            } else {
                v
            },
            v == n * w,
            n == size(a) * size(b),
    ;
}

proof fn lemma_whole_quotient(a: int, b: int)
    requires
        -exact_limit() <= a <= exact_limit(),
        b != 0,
    ensures
        exact_quotient(quantity(a * b), quantity(b)),
{
    reveal(quotient);
    reveal(rounded);
    let w = pow2(1074);
    lemma_units_of_quantity(a * b);
    lemma_units_of_quantity(b);
    lemma_quantity_is_short(a);
    let n = size(a) as nat;
    let m = size(b) as nat;
    assert(size(a * b) == n * m) by (nonlinear_arith)
        requires
            n == size(a),
            m == size(b),
    ;
    assert(m * w > 0) by (nonlinear_arith)
        requires
            m > 0,
            w > 0,
    ;
    assert(((n * m) * w) * w == (n * w) * (m * w)) by (nonlinear_arith);
    let (x, e) = choose|x: nat, e: nat| x < pow2(53) && n * w == #[trigger] scaled(x, e);
    lemma_round_exact(x, e, m * w);
    let r = units(quotient(quantity(a * b), quantity(b)));
    let c = (a * b < 0) != (b < 0);
    let v = (n * w) as int;
    assert(r == if c {
        -v
    } else {
        v
    });
    assert(r * (b * w) == ((a * b) * w) * w) by (nonlinear_arith)
        requires
            b != 0,
            r == if (a * b < 0) != (b < 0) {
                -v
            } else {
                v
            },
            v == n * w,
            n == size(a),
            m == size(b),
    ;
}

/// The sum of a list of numbers, as a count of units.
pub open spec fn units_total(s: Seq<Value>) -> int
    decreases s.len(),
{
    if s.len() == 0 {
        0
    } else {
        units_total(s.drop_last()) + units(s.last())
    }
}

/// Whether nothing is rounded when a list is added up.
pub open spec fn exact_total(s: Seq<Value>) -> bool
    decreases s.len(),
{
    s.len() == 0 || {
        &&& exact_total(s.drop_last())
        &&& exact_sum(total(s.drop_last()), s.last())
    }
}

/// A total that is not rounded is the sum of its numbers.
pub proof fn law_exact_totals_are_sums(s: Seq<Value>)
    requires
        exact_total(s),
    ensures
        total(s) is Finite,
        units(total(s)) == units_total(s),
    decreases s.len(),
{
    if s.len() > 0 {
        law_exact_totals_are_sums(s.drop_last());
    }
}

pub(crate) proof fn lemma_units_total_update(s: Seq<Value>, i: int, v: Value)
    requires
        0 <= i < s.len(),
    ensures
        units_total(s.update(i, v)) == units_total(s) - units(s[i]) + units(v),
    decreases s.len(),
{
    let t = s.update(i, v);
    if i == s.len() - 1 {
        assert(t.drop_last() =~= s.drop_last());
    } else {
        assert(t.drop_last() =~= s.drop_last().update(i, v));
        lemma_units_total_update(s.drop_last(), i, v);
    }
}

/// An order moves the total of what is realized by the profit of its trade, where neither the
/// totals nor the profit booked are rounded.
pub proof fn law_orders_move_the_realized_total(a: AppView, side: Side, slippage: Value)
    requires
        a.consistent(),
        exact_total(realized_each(a)),
        exact_total(realized_each(ordered(a, side, slippage))),
        units(ordered(a, side, slippage).held().realized_pnl) == units(a.held().realized_pnl)
            + units(ordered(a, side, slippage).trades[0].realized),
    ensures
        units(total(realized_each(ordered(a, side, slippage)))) == units(total(realized_each(a)))
            + units(ordered(a, side, slippage).trades[0].realized),
{
    let b = ordered(a, side, slippage);
    law_exact_totals_are_sums(realized_each(a));
    law_exact_totals_are_sums(realized_each(b));
    assert(realized_each(b) =~= realized_each(a).update(a.selected, b.held().realized_pnl));
    lemma_units_total_update(realized_each(a), a.selected, b.held().realized_pnl);
}

/// A key that places an order moves the total of what is realized by the profit of the trade,
/// where neither the totals nor the profit booked are rounded.
pub proof fn law_trading_keys_move_the_realized_total(a: AppView, code: KeyCode, slippage: Value)
    requires
        a.consistent(),
        places_order(a, code),
        exact_total(realized_each(a)),
        exact_total(realized_each(pressed(a, code, slippage))),
        units(pressed(a, code, slippage).held().realized_pnl) == units(a.held().realized_pnl)
            + units(pressed(a, code, slippage).trades[0].realized),
    ensures
        units(total(realized_each(pressed(a, code, slippage)))) == units(total(realized_each(a)))
            + units(pressed(a, code, slippage).trades[0].realized),
{
    if code == KeyCode::Char('b') {
        law_orders_move_the_realized_total(a, Side::Buy, slippage);
    } else if code == KeyCode::Char('s') {
        law_orders_move_the_realized_total(a, Side::Sell, slippage);
    } else {
        let qty = a.held().qty;
        let larger = AppView { ticket: absolute(qty), ..a };
        let b = ordered(larger, closing_side(qty), slippage);
        assert(realized_each(larger) =~= realized_each(a));
        assert(realized_each(pressed(a, code, slippage)) =~= realized_each(b));
        law_orders_move_the_realized_total(larger, closing_side(qty), slippage);
    }
}

/// Neither time nor a key that places no order moves the total of what is realized, and it depends
/// neither on the prices nor on what is selected.
pub proof fn law_only_orders_move_the_realized_total(
    a: AppView,
    code: KeyCode,
    slippage: Value,
    noise: Seq<Value>,
    other: AppView,
)
    ensures
        total(realized_each(ticked(a, noise))) == total(realized_each(a)),
        !places_order(a, code) ==> total(realized_each(pressed(a, code, slippage))) == total(
            realized_each(a),
        ),
        other.positions == a.positions ==> total(realized_each(other)) == total(realized_each(a)),
{
}

/// Whether a value is a whole number.
pub open spec fn is_whole(v: Value) -> bool {
    exists|k: int| v == #[trigger] quantity(k)
}

/// Turning a position round does not change what all positions are worth together: what is owned
/// and what is owed add up.
pub proof fn law_exposure_ignores_sides(a: AppView, i: int)
    requires
        0 <= i < a.positions.len(),
    ensures
        ({
            let turned = PositionView { qty: negated(a.positions[i].qty), ..a.positions[i] };
            let b = AppView { positions: a.positions.update(i, turned), ..a };
            total(exposed_each(b)) == total(exposed_each(a))
        }),
{
    let turned = PositionView { qty: negated(a.positions[i].qty), ..a.positions[i] };
    let b = AppView { positions: a.positions.update(i, turned), ..a };
    assert(exposed_each(b) =~= exposed_each(a));
}

/// A sum of what is not negative is zero only if both are.
proof fn lemma_sum_vanishes(a: Value, b: Value)
    requires
        a !is Nan && !less(a, zero()),
        b !is Nan && !less(b, zero()),
    ensures
        sum(a, b) !is Nan,
        !less(sum(a, b), zero()),
        equal(sum(a, b), zero()) == (equal(a, zero()) && equal(b, zero())),
{
    reveal(sum);
    reveal(rounded);
    lemma_pow2_pos(2098);
    if a is Finite && b is Finite && units(a) + units(b) > 0 {
        lemma_rounds_to_something((units(a) + units(b)) as nat, 1);
    }
}

/// What is at least one unit is not rounded to nothing.
proof fn lemma_rounds_to_something(n: nat, d: nat)
    requires
        0 < d <= n,
    ensures
        round_ratio(n, d) >= 1,
{
    lemma2_to64();
    lemma2_to64_rest();
    assert(scaled(1, 0) == 1);
    lemma_round_exact(1, 0, 1);
    lemma_round_monotone(1, 1, n, d);
}

proof fn lemma_total_vanishes(s: Seq<Value>)
    requires
        forall|i: int| 0 <= i < s.len() ==> (#[trigger] s[i]) !is Nan && !less(s[i], zero()),
    ensures
        total(s) !is Nan,
        !less(total(s), zero()),
        equal(total(s), zero()) == (forall|i: int|
            0 <= i < s.len() ==> equal(#[trigger] s[i], zero())),
    decreases s.len(),
{
    if s.len() > 0 {
        let t = s.drop_last();
        let l = s.len() - 1;
        assert forall|i: int| 0 <= i < t.len() implies (#[trigger] t[i]) !is Nan && !less(
            t[i],
            zero(),
        ) by {
            assert(t[i] == s[i]);
        }
        lemma_total_vanishes(t);
        assert(s.last() == s[l]);
        lemma_sum_vanishes(total(t), s.last());
        if equal(total(s), zero()) {
            assert forall|i: int| 0 <= i < s.len() implies equal(#[trigger] s[i], zero()) by {
                if i < l {
                    assert(t[i] == s[i]);
                }
            }
        }
        if forall|i: int| 0 <= i < s.len() ==> equal(#[trigger] s[i], zero()) {
            assert forall|i: int| 0 <= i < t.len() implies equal(#[trigger] t[i], zero()) by {
                assert(t[i] == s[i]);
            }
        }
    }
}

/// A whole position is worth nothing only if it is none.
proof fn lemma_exposure_vanishes(k: int, price: Value)
    requires
        price is Finite,
        less(zero(), price),
    ensures
        product(absolute(quantity(k)), price) !is Nan,
        !less(product(absolute(quantity(k)), price), zero()),
        equal(product(absolute(quantity(k)), price), zero()) == (quantity(k) == zero()),
{
    reveal(product);
    reveal(rounded);
    let w = pow2(1074);
    lemma_pow2_pos(1074);
    lemma_pow2_pos(2098);
    let m = price->magnitude;
    let n = size(k) as nat;
    assert(0 * w == 0) by (nonlinear_arith);
    if k == 0 {
        assert(0 * m == 0) by (nonlinear_arith);
        lemma2_to64_rest();
        assert(scaled(0, 0) == 0);
        lemma_round_exact(0, 0, w);
    } else {
        assert((n * w) * m >= w) by (nonlinear_arith)
            requires
                n >= 1,
                m >= 1,
        ;
        lemma_rounds_to_something((n * w) * m, w);
        assert(n * w > 0) by (nonlinear_arith)
            requires
                n >= 1,
                w > 0,
        ;
    }
}

/// What all positions are worth together is not negative, and zero only if every one of them is
/// none, for whole positions and finite prices above zero.
pub proof fn law_exposure_vanishes_only_without_positions(a: AppView)
    requires
        a.positions.len() == a.instruments.len(),
        forall|i: int| 0 <= i < a.positions.len() ==> is_whole((#[trigger] a.positions[i]).qty),
        forall|i: int|
            0 <= i < a.instruments.len() ==> (#[trigger] a.instruments[i]).price is Finite && less(
                zero(),
                a.instruments[i].price,
            ),
    ensures
        total(exposed_each(a)) !is Nan,
        !less(total(exposed_each(a)), zero()),
        equal(total(exposed_each(a)), zero()) <==> forall|i: int|
            0 <= i < a.positions.len() ==> (#[trigger] a.positions[i]).qty == zero(),
{
    let s = exposed_each(a);
    assert forall|i: int| 0 <= i < s.len() implies {
        &&& (#[trigger] s[i]) !is Nan
        &&& !less(s[i], zero())
        &&& equal(s[i], zero()) == (a.positions[i].qty == zero())
    } by {
        let k = choose|k: int| a.positions[i].qty == #[trigger] quantity(k);
        assert(a.instruments[i].price is Finite);
        lemma_exposure_vanishes(k, a.instruments[i].price);
    }
    lemma_total_vanishes(s);
    if equal(total(s), zero()) {
        assert forall|i: int| 0 <= i < a.positions.len() implies (#[trigger] a.positions[i]).qty
            == zero() by {
            assert(equal(s[i], zero()));
        }
    }
}

/// What a list of trades, the latest first, has brought in of an instrument: purchases less sales,
/// added up in the order in which they were made.
pub open spec fn brought_in(trades: Seq<TradeView>, symbol: Seq<char>) -> Value
    decreases trades.len(),
{
    if trades.len() == 0 {
        zero()
    } else {
        let before = brought_in(trades.drop_first(), symbol);
        let t = trades[0];
        if t.symbol == symbol {
            sum(before, product(t.qty, t.side.factor()))
        } else {
            before
        }
    }
}

/// What a list of trades, the latest first, has gained in an instrument, added up in the order in
/// which they were made.
pub open spec fn gained(trades: Seq<TradeView>, symbol: Seq<char>) -> Value
    decreases trades.len(),
{
    if trades.len() == 0 {
        zero()
    } else {
        let before = gained(trades.drop_first(), symbol);
        if trades[0].symbol == symbol {
            sum(before, trades[0].realized)
        } else {
            before
        }
    }
}

/// Whether the positions are what the listed trades have brought in and gained.
pub open spec fn reconciled(a: AppView) -> bool {
    forall|i: int|
        0 <= i < a.positions.len() ==> {
            &&& (#[trigger] a.positions[i]).qty == brought_in(a.trades, a.instruments[i].symbol)
            &&& a.positions[i].realized_pnl == gained(a.trades, a.instruments[i].symbol)
        }
}

/// The number of orders that a series of events places.
pub open spec fn orders_in(a: AppView, events: Seq<Happening>) -> nat
    decreases events.len(),
{
    if events.len() == 0 {
        0
    } else {
        let rest = events.drop_last();
        orders_in(a, rest) + match events.last() {
            Happening::Key { code, .. } => if places_order(after(a, rest), code) {
                1nat
            } else {
                0nat
            },
            Happening::Tick { .. } => 0nat,
        }
    }
}

/// Whether a value is a number of the format other than a negative zero.
spec fn is_plain(v: Value) -> bool {
    is_number(v) && (v is Finite && v->magnitude == 0 ==> !is_negative(v))
}

/// Whether the books are in order after `n` orders.
#[verifier::opaque]
spec fn in_order(a: AppView, n: nat) -> bool {
    &&& valid(a)
    &&& a.instruments.len() == 4
    &&& a.trades.len() == n
    &&& reconciled(a)
    &&& forall|i: int|
        0 <= i < 4 ==> (#[trigger] a.instruments[i]).symbol == all_listed()[i].symbol
    &&& forall|i: int|
        0 <= i < 4 ==> is_whole_within((#[trigger] a.positions[i]).qty, 250 * n as int)
            && is_plain(a.positions[i].realized_pnl)
}

proof fn lemma_symbols_differ(i: int, j: int)
    requires
        0 <= i < 4,
        0 <= j < 4,
        i != j,
    ensures
        all_listed()[i].symbol != all_listed()[j].symbol,
{
    reveal(listed);
    reveal_strlit("BTCUSDT");
    reveal_strlit("ETHUSDT");
    reveal_strlit("SOLUSDT");
    reveal_strlit("AAPL");
    assert("BTCUSDT"@[0] == 'B');
    assert("ETHUSDT"@[0] == 'E');
    assert("SOLUSDT"@[0] == 'S');
    assert("AAPL"@[0] == 'A');
}

/// Adding to a number other than a negative zero leads to such a number, and adding nothing does
/// not change it.
proof fn lemma_plain_sum(v: Value, s: Value)
    requires
        is_plain(v),
    ensures
        is_plain(sum(v, s)),
        sum(v, zero()) == v,
{
    lemma_sum_is_number(v, s);
    reveal(sum);
    reveal(rounded);
    lemma_pow2_pos(2098);
    if v is Finite {
        if v->magnitude > 0 {
            lemma_short_is_exact(v->magnitude);
        }
        if s is Finite {
            let t = units(v) + units(s);
            if t > 0 {
                lemma_rounds_to_something(t as nat, 1);
            } else if t < 0 {
                lemma_rounds_to_something((-t) as nat, 1);
            }
        }
    }
}

/// An order for `j` units keeps the books in order.
proof fn lemma_order_keeps_books(
    a: AppView,
    n: nat,
    k: int,
    j: int,
    side: Side,
    slippage: Value,
)
    requires
        in_order(a, n),
        n < MAX_TRADES,
        a.held().qty == quantity(k),
        0 < j <= 250 * (n + 1),
        -250 * (n + 1) <= k + course(side) * j <= 250 * (n + 1),
    ensures
        ({
            let b = ordered(AppView { ticket: quantity(j), ..a }, side, slippage);
            &&& b.trades.len() == n + 1
            &&& reconciled(b)
            &&& b.instruments == a.instruments
            &&& forall|i: int|
                0 <= i < 4 ==> is_whole_within(
                    (#[trigger] b.positions[i]).qty,
                    250 * (n + 1) as int,
                ) && is_plain(b.positions[i].realized_pnl)
        }),
{
    reveal(in_order);
    let c = AppView { ticket: quantity(j), ..a };
    let b = ordered(c, side, slippage);
    let p = a.held();
    let d = course(side);
    let price = fill_price(side, a.current().price, slippage);
    let own = a.current().symbol;
    let gain = profit(p, side, quantity(j), price);
    let m = 250 * (n + 1) as int;
    lemma2_to64_rest();
    lemma_turned(d, j);
    lemma_quantity_is_short(j);
    lemma_signed_by_side(quantity(j), side);
    assert(product(quantity(j), side.factor()) == quantity(d * j));
    lemma_sum_of_quantities(k, d * j);
    lemma_fill_case(p, side, k, j);
    lemma_plain_sum(p.realized_pnl, gain);
    assert(b.trades.drop_first() =~= a.trades);
    assert(b.held().qty == quantity(k + d * j));
    assert forall|i: int| 0 <= i < 4 implies {
        &&& (#[trigger] b.positions[i]).qty == brought_in(b.trades, b.instruments[i].symbol)
        &&& b.positions[i].realized_pnl == gained(b.trades, b.instruments[i].symbol)
        &&& is_whole_within(b.positions[i].qty, m)
        &&& is_plain(b.positions[i].realized_pnl)
    } by {
        assert(a.instruments[i].symbol == all_listed()[i].symbol);
        assert(a.instruments[a.selected].symbol == all_listed()[a.selected].symbol);
        let old_qty = a.positions[i].qty;
        assert(old_qty == brought_in(a.trades, a.instruments[i].symbol));
        if i == a.selected {
            assert(b.positions[i].qty == quantity(k + d * j));
        } else {
            lemma_symbols_differ(i, a.selected);
            let l = 250 * n as int;
            let x = choose|x: int| -l <= x <= l && old_qty == #[trigger] quantity(x);
            assert(-m <= x <= m);
        }
    }
}

/// Everything that happens keeps the books in order, as long as every trade is listed.
proof fn lemma_events_keep_books(a: AppView, n: nat, event: Happening)
    requires
        in_order(a, n),
        is_complete(event, 4),
        n < MAX_TRADES || !(event matches Happening::Key { code, .. } && places_order(a, code)),
    ensures
        in_order(
            happened(a, event),
            if event matches Happening::Key { code, .. } && places_order(a, code) {
                n + 1
            } else {
                n
            },
        ),
{
    reveal(in_order);
    match event {
        Happening::Tick { noise } => {
            law_time_keeps_the_state_valid(a, noise);
        },
        Happening::Key { code, slippage } => {
            law_keys_keep_the_state_valid(a, code, slippage);
            if places_order(a, code) {
                lemma_trading_key_keeps_books(a, n, code, slippage);
            }
        },
    }
}

proof fn lemma_trading_key_keeps_books(a: AppView, n: nat, code: KeyCode, slippage: Value)
    requires
        in_order(a, n),
        n < MAX_TRADES,
        places_order(a, code),
    ensures
        in_order(pressed(a, code, slippage), n + 1),
{
    reveal(in_order);
    law_keys_keep_the_state_valid(a, code, slippage);
    let l = 250 * n as int;
    let qty = a.held().qty;
    assert(is_whole_within(a.positions[a.selected].qty, l));
    let k = choose|k: int| -l <= k <= l && qty == #[trigger] quantity(k);
    let j = choose|j: int| 1 <= j <= 250 && a.ticket == #[trigger] quantity(j);
    let b = pressed(a, code, slippage);
    let same = AppView { ticket: quantity(j), ..a };
    assert(same == a);
    if code == KeyCode::Char('b') {
        lemma_order_keeps_books(a, n, k, j, Side::Buy, slippage);
    } else if code == KeyCode::Char('s') {
        lemma_turned(course(Side::Sell), j);
        lemma_order_keeps_books(a, n, k, j, Side::Sell, slippage);
    } else {
        let side = closing_side(qty);
        lemma_flat_quantity(k);
        lemma_quantity_order(0, k);
        assert(0 * pow2(1074) == 0) by (nonlinear_arith);
        assert(absolute(qty) == quantity(size(k)));
        lemma_turned(course(side), size(k));
        lemma_order_keeps_books(a, n, k, size(k), side, slippage);
        let c = ordered(AppView { ticket: quantity(size(k)), ..a }, side, slippage);
        assert(b.positions == c.positions && b.trades == c.trades && b.instruments
            == c.instruments);
    }
}

proof fn lemma_books_start_in_order()
    ensures
        in_order(started(), 0),
{
    reveal(in_order);
    law_start_is_valid();
    lemma_zero_is_number();
    let a = started();
    assert forall|i: int| 0 <= i < 4 implies is_whole_within((#[trigger] a.positions[i]).qty, 0)
        by {
        lemma_started_is_flat(i);
    }
}

proof fn lemma_books_are_in_order(events: Seq<Happening>)
    requires
        forall|k: int| 0 <= k < events.len() ==> is_complete(#[trigger] events[k], 4),
        orders_in(started(), events) <= MAX_TRADES,
    ensures
        in_order(after(started(), events), orders_in(started(), events)),
    decreases events.len(),
{
    if events.len() == 0 {
        lemma_books_start_in_order();
    } else {
        let rest = events.drop_last();
        assert forall|k: int| 0 <= k < rest.len() implies is_complete(#[trigger] rest[k], 4) by {
            assert(rest[k] == events[k]);
        }
        lemma_books_are_in_order(rest);
        assert(is_complete(events[events.len() - 1], 4));
        lemma_events_keep_books(
            after(started(), rest),
            orders_in(started(), rest),
            events.last(),
        );
    }
}

/// As long as every trade is listed, the trades account for the positions: whatever happens to a
/// terminal from its start on, each position is what the trades in its instrument have brought in,
/// and what it has realized is what they have gained, added up in their order.
pub proof fn law_trades_account_for_positions(events: Seq<Happening>)
    requires
        forall|k: int| 0 <= k < events.len() ==> is_complete(#[trigger] events[k], 4),
        orders_in(started(), events) <= MAX_TRADES,
    ensures
        after(started(), events).positions.len() == 4,
        after(started(), events).trades.len() == orders_in(started(), events),
        reconciled(after(started(), events)),
{
    reveal(in_order);
    lemma_books_are_in_order(events);
}

} // verus!
