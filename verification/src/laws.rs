//! What holds of the terminal in every state that it can reach.
use crate::double::{
    absolute, difference, equal, is_negative, less, negated, product, quotient, ratio, rounded,
    sign_of, smaller, sum, units, whole, zero, Double, Value,
};
use crate::exactness::{
    is_short, lemma_double_is_short, lemma_round_exact, lemma_round_monotone,
    lemma_rounding_is_short, lemma_short_is_exact, lemma_whole_exact, scaled,
};
use crate::market::{
    carried, exposed, extends, filled, floor_price, is_flat, listed, moved, profit, stepped_down,
    stepped_up, unrealized, InstrumentView, PositionView, Side, MAX_HISTORY,
};
use crate::panels::{chart_end, chart_start, highest, lowest, margin, price_chart};
use crate::rounding::lemma_pow2_monotone;
use crate::terminal::{
    closed, closing_side, fill_price, ordered, places_order, pressed, slippage_limit, stacked,
    started, ticked, AppView, KeyCode, MAX_LOG_LINES, MAX_TRADES,
};
use vstd::arithmetic::power2::{
    lemma2_to64, lemma2_to64_rest, lemma_pow2_adds, lemma_pow2_pos, lemma_pow2_strictly_increases,
    pow2,
};
use vstd::prelude::*;

verus! {

/// A whole number of units as a value.
pub open spec fn quantity(k: int) -> Value {
    Value::Finite {
        negative: k < 0,
        magnitude: (if k < 0 {
            -k
        } else {
            k
        }) as nat * pow2(1074),
    }
}

/// The largest number up to which all whole numbers are exact.
pub open spec fn exact_limit() -> int {
    pow2(53) as int
}

/// Whether a value is a whole number of at most `limit` units.
pub open spec fn is_whole_within(v: Value, limit: int) -> bool {
    exists|k: int| -limit <= k <= limit && v == #[trigger] quantity(k)
}

pub(crate) proof fn lemma_units_of_quantity(k: int)
    ensures
        units(quantity(k)) == k * pow2(1074),
        pow2(1074) > 0,
{
    lemma_pow2_pos(1074);
    let p = pow2(1074);
    if k < 0 {
        assert(-((-k) * p) == k * p) by (nonlinear_arith);
    }
}

pub(crate) proof fn lemma_quantity_order(a: int, b: int)
    ensures
        less(quantity(a), quantity(b)) == (a < b),
        equal(quantity(a), quantity(b)) == (a == b),
{
    lemma_units_of_quantity(a);
    lemma_units_of_quantity(b);
    let p = pow2(1074);
    assert(a * p < b * p <==> a < b) by (nonlinear_arith)
        requires
            p > 0,
    ;
    assert(b * p < a * p <==> b < a) by (nonlinear_arith)
        requires
            p > 0,
    ;
}

proof fn lemma_whole_quantity(n: nat)
    requires
        n <= exact_limit(),
    ensures
        whole(n) == quantity(n as int),
{
    lemma_whole_exact(n);
}

/// Adding whole numbers is exact where their sum is a number of the format.
pub(crate) proof fn lemma_sum_is_whole(a: int, b: int)
    requires
        is_number(quantity(a + b)),
    ensures
        sum(quantity(a), quantity(b)) == quantity(a + b),
{
    reveal(sum);
    reveal(rounded);
    lemma_units_of_quantity(a);
    lemma_units_of_quantity(b);
    lemma_units_of_quantity(a + b);
    let p = pow2(1074);
    assert((a + b) * p == a * p + b * p) by (nonlinear_arith);
    assert(a + b > 0 ==> (a + b) * p > 0) by (nonlinear_arith)
        requires
            p > 0,
    ;
    assert(a + b < 0 ==> (a + b) * p < 0) by (nonlinear_arith)
        requires
            p > 0,
    ;
    assert(a + b == 0 ==> (a + b) * p == 0) by (nonlinear_arith);
    let n = (if a + b < 0 {
        -(a + b)
    } else {
        a + b
    }) as nat;
    lemma_short_is_exact(n * p);
    assert(a + b < 0 ==> n * p == -((a + b) * p)) by (nonlinear_arith)
        requires
            a + b < 0 ==> n == -(a + b),
    ;
    if a + b == 0 {
        assert(0 * p == 0) by (nonlinear_arith);
    }
}

pub(crate) proof fn lemma_sum_of_quantities(a: int, b: int)
    requires
        -exact_limit() <= a + b <= exact_limit(),
    ensures
        sum(quantity(a), quantity(b)) == quantity(a + b),
{
    lemma_quantity_is_short(a + b);
    lemma_sum_is_whole(a, b);
}

/// Multiplying by a side keeps a number or turns its sign.
pub(crate) proof fn lemma_signed_by_side(v: Value, side: Side)
    requires
        v is Finite,
        is_short(v->magnitude),
        v->magnitude < pow2(2098),
    ensures
        product(v, side.factor()) == (match side {
            Side::Buy => v,
            Side::Sell => negated(v),
        }),
{
    reveal(product);
    reveal(rounded);
    lemma2_to64_rest();
    lemma_whole_exact(1);
    let p = pow2(1074);
    lemma_pow2_pos(1074);
    assert(1 * p == p) by (nonlinear_arith);
    let m = v->magnitude;
    let (a, k) = choose|a: nat, k: nat| a < pow2(53) && m == #[trigger] scaled(a, k);
    lemma_round_exact(a, k, p);
}

pub(crate) proof fn lemma_quantity_is_short(k: int)
    requires
        -exact_limit() <= k <= exact_limit(),
    ensures
        is_short(quantity(k)->magnitude),
        quantity(k)->magnitude < pow2(2098),
{
    let n = (if k < 0 {
        -k
    } else {
        k
    }) as nat;
    lemma_whole_exact(n);
    lemma2_to64_rest();
    lemma_pow2_adds(53, 1074);
    lemma_pow2_strictly_increases(1127, 2098);
    assert(n * pow2(1074) <= pow2(53) * pow2(1074)) by (nonlinear_arith)
        requires
            n <= pow2(53),
    ;
}

pub(crate) proof fn lemma_flat_quantity(k: int)
    ensures
        is_flat(quantity(k)) == (k == 0),
{
    let n = (if k < 0 {
        -k
    } else {
        k
    }) as nat;
    lemma_pow2_strictly_increases(1022, 1074);
    lemma_pow2_pos(1022);
    let p = pow2(1074);
    if n > 0 {
        assert(n * p >= p) by (nonlinear_arith)
            requires
                n >= 1,
        ;
    } else {
        assert(0 * p == 0) by (nonlinear_arith);
    }
}

/// Quantities add up: a fill of a whole number of units changes a whole position by exactly that
/// number, as long as the result is a number of the format.
pub proof fn law_fills_add_up(p: PositionView, side: Side, k: int, j: int, price: Value)
    requires
        p.qty == quantity(k),
        0 < j,
        is_number(quantity(j)),
        side == Side::Buy ==> is_number(quantity(k + j)),
        side == Side::Sell ==> is_number(quantity(k - j)),
    ensures
        filled(p, side, quantity(j), price).qty == (match side {
            Side::Buy => quantity(k + j),
            Side::Sell => quantity(k - j),
        }),
{
    lemma_signed_by_side(quantity(j), side);
    let change = if side == Side::Buy {
        j
    } else {
        -j
    };
    assert(product(quantity(j), side.factor()) == quantity(change));
    lemma_sum_is_whole(k, change);
    lemma_flat_quantity(k + change);
    assert(0 * pow2(1074) == 0) by (nonlinear_arith);
}

/// A fill with the position realizes nothing and one against it does not change the average price,
/// unless it closes or turns the position.
pub proof fn law_averages_move_only_when_positions_grow(
    p: PositionView,
    side: Side,
    qty: Value,
    price: Value,
)
    ensures
        extends(p, side, qty) ==> {
            &&& profit(p, side, qty, price) == zero()
            &&& filled(p, side, qty, price).realized_pnl == p.realized_pnl
        },
        !extends(p, side, qty) ==> {
            let after = filled(p, side, qty, price);
            &&& after.realized_pnl == sum(p.realized_pnl, profit(p, side, qty, price))
            &&& is_flat(carried(p, side, qty)) ==> after.qty == zero() && after.average_price
                == zero()
            &&& !is_flat(carried(p, side, qty)) && equal(sign_of(p.qty), sign_of(after.qty))
                ==> after.average_price == p.average_price
            &&& !is_flat(carried(p, side, qty)) && !equal(sign_of(p.qty), sign_of(after.qty))
                ==> after.average_price == price
        },
{
}

/// Opening a position of a whole number of units sets the average price to the price of the fill,
/// where the cost is exact.
pub proof fn law_opening_sets_the_average(p: PositionView, side: Side, j: int, price: Value)
    requires
        p.qty == zero(),
        p.average_price == zero(),
        0 < j,
        is_number(quantity(j)),
        price is Finite,
        is_number(price),
        !is_negative(price),
        price->magnitude > 0,
        is_short(price->magnitude * j as nat),
        price->magnitude * j < pow2(2098),
    ensures
        filled(p, side, quantity(j), price).average_price == price,
{
    reveal(product);
    reveal(quotient);
    reveal(sum);
    reveal(rounded);
    let m = price->magnitude;
    let w = pow2(1074);
    lemma_pow2_pos(1074);
    assert(0 * w == 0) by (nonlinear_arith);
    assert(zero() == quantity(0));
    lemma_signed_by_side(quantity(j), side);
    let change = if side == Side::Buy {
        j
    } else {
        -j
    };
    lemma_sum_is_whole(0, change);
    lemma_flat_quantity(0);
    lemma_flat_quantity(change);
    let q = quantity(j);
    // The cost so far is zero.
    assert(product(zero(), absolute(zero())) == zero()) by {
        assert(0nat * 0nat == 0) by (nonlinear_arith);
        lemma_round_exact(0, 0, w);
        lemma2_to64_rest();
        assert(scaled(0, 0) == 0);
        assert(0 * w == 0) by (nonlinear_arith);
        lemma_pow2_pos(2098);
    }
    // The cost of the fill is exact.
    let cost = m * j as nat;
    assert(m * (j as nat * w) == cost * w) by (nonlinear_arith)
        requires
            cost == m * j as nat,
    ;
    let (a, k) = choose|a: nat, k: nat| a < pow2(53) && cost == #[trigger] scaled(a, k);
    lemma_round_exact(a, k, w);
    assert(cost > 0) by (nonlinear_arith)
        requires
            cost == m * j as nat,
            m > 0,
            j > 0,
    ;
    assert(product(price, q) == (Value::Finite { negative: false, magnitude: cost }));
    lemma_short_is_exact(cost);
    assert(sum(zero(), product(price, q)) == (Value::Finite {
        negative: false,
        magnitude: cost,
    }));
    // The quotient is exact, too.
    let d = j as nat * w;
    assert(d > 0) by (nonlinear_arith)
        requires
            d == j as nat * w,
            j > 0,
            w > 0,
    ;
    assert(cost * w == m * d) by (nonlinear_arith)
        requires
            cost == m * j as nat,
            d == j as nat * w,
    ;
    let (b, l) = choose|b: nat, l: nat| b < pow2(53) && m == #[trigger] scaled(b, l);
    lemma_round_exact(b, l, d);
}

/// What closes at the average price realizes nothing.
pub proof fn law_closing_at_the_average_realizes_nothing(p: PositionView, side: Side, qty: Value)
    requires
        p.qty is Finite,
        p.average_price is Finite,
        qty is Finite,
    ensures
        equal(profit(p, side, qty, p.average_price), zero()),
{
    reveal(product);
    reveal(sum);
    reveal(rounded);
    let w = pow2(1074);
    lemma_pow2_pos(1074);
    lemma_pow2_pos(2098);
    let none = difference(p.average_price, p.average_price);
    assert(none is Finite && none->magnitude == 0);
    let closing = smaller(absolute(p.qty), qty);
    assert(closing is Finite);
    let m = closing->magnitude;
    assert(0 * m == 0) by (nonlinear_arith);
    lemma2_to64();
    lemma_round_exact(0, 0, w);
    assert(scaled(0, 0) == 0);
    assert(0 * w == 0) by (nonlinear_arith);
}

/// What a position is worth is not negative.
pub proof fn law_exposure_is_not_negative(p: PositionView, mark: Value)
    requires
        !less(mark, zero()),
    ensures
        !less(exposed(p, mark), zero()),
{
    reveal(product);
    reveal(rounded);
    let w = pow2(1074);
    lemma_pow2_pos(1074);
    lemma_pow2_pos(2098);
    if p.qty is Finite && mark is Finite && is_negative(mark) {
        assert(mark->magnitude == 0);
        let m = p.qty->magnitude;
        assert(m * 0 == 0) by (nonlinear_arith);
        lemma2_to64();
        lemma_round_exact(0, 0, w);
        assert(scaled(0, 0) == 0);
        assert(0 * w == 0) by (nonlinear_arith);
    }
}

/// A flat position has nothing to yield.
pub proof fn law_flat_positions_yield_nothing(p: PositionView, mark: Value)
    requires
        is_flat(p.qty),
    ensures
        unrealized(p, mark) == zero(),
{
}

/// Whether a value is one of the format: an infinity, not a number, or short and in range.
pub open spec fn is_number(v: Value) -> bool {
    v is Finite ==> is_short(v->magnitude) && v->magnitude < pow2(2098)
}

/// Adding what is not negative does not lead below a number, nor subtracting it above.
proof fn lemma_sum_order(v: Value, s: Value)
    requires
        is_number(v),
        v !is Nan,
        s is Finite,
        !less(s, zero()),
    ensures
        !less(sum(v, s), v),
        !less(v, difference(v, s)),
        sum(v, s) !is Nan,
        difference(v, s) !is Nan,
{
    reveal(sum);
    reveal(rounded);
    if v is Finite {
        let m = v->magnitude;
        lemma_short_is_exact(m);
        lemma_pow2_pos(2098);
        let up = units(v) + units(s);
        let down = units(v) - units(s);
        let up_size = (if up < 0 {
            -up
        } else {
            up
        }) as nat;
        let down_size = (if down < 0 {
            -down
        } else {
            down
        }) as nat;
        if up_size <= m {
            lemma_round_monotone(up_size, 1, m, 1);
        } else {
            lemma_round_monotone(m, 1, up_size, 1);
        }
        if down_size <= m {
            lemma_round_monotone(down_size, 1, m, 1);
        } else {
            lemma_round_monotone(m, 1, down_size, 1);
        }
    }
}

/// Slippage works against whoever trades: no purchase is below the market and no sale above it.
pub proof fn law_slippage_is_a_cost(mark: Value, slippage: Value)
    requires
        is_number(mark),
        mark !is Nan,
        slippage is Finite,
        !less(slippage, zero()),
    ensures
        !less(fill_price(Side::Buy, mark, slippage), mark),
        !less(mark, fill_price(Side::Sell, mark, slippage)),
        fill_price(Side::Buy, mark, slippage) !is Nan,
        fill_price(Side::Sell, mark, slippage) !is Nan,
{
    lemma_sum_order(mark, slippage);
}

/// Every value that a bit pattern encodes is one of the format.
pub proof fn law_bit_patterns_encode_numbers(x: Double)
    ensures
        is_number(x@),
{
    if x@ is Finite {
        lemma_double_is_short(x);
    }
}

proof fn lemma_rounded_is_number(negative: bool, n: nat, d: nat)
    requires
        d > 0,
    ensures
        is_number(rounded(negative, n, d)),
{
    reveal(rounded);
    lemma2_to64_rest();
    lemma_rounding_is_short(n, d);
}

pub(crate) proof fn lemma_sum_is_number(a: Value, b: Value)
    ensures
        is_number(sum(a, b)),
{
    reveal(sum);
    lemma2_to64();
    lemma_pow2_pos(53);
    lemma_pow2_pos(2098);
    assert(scaled(0, 0) == 0);
    let t = units(a) + units(b);
    if t < 0 {
        lemma_rounded_is_number(true, (-t) as nat, 1);
    } else {
        lemma_rounded_is_number(false, t as nat, 1);
    }
}

pub(crate) proof fn lemma_product_is_number(a: Value, b: Value)
    ensures
        is_number(product(a, b)),
{
    reveal(product);
    lemma_pow2_pos(1074);
    if a is Finite && b is Finite {
        let negative = is_negative(a) != is_negative(b);
        lemma_rounded_is_number(negative, a->magnitude * b->magnitude, pow2(1074));
    }
}

pub(crate) proof fn lemma_zero_is_number()
    ensures
        is_number(zero()),
{
    lemma2_to64();
    lemma_pow2_pos(53);
    lemma_pow2_pos(2098);
    assert(scaled(0, 0) == 0);
}

/// Ticket quantities: a whole number from 1 to 250.
pub open spec fn is_ticket(v: Value) -> bool {
    exists|k: int| 1 <= k <= 250 && v == #[trigger] quantity(k)
}

pub(crate) proof fn lemma_ticket_steps(k: int)
    requires
        1 <= k <= 250,
    ensures
        stepped_up(quantity(k)) == quantity(if k < 250 {
            k + 1
        } else {
            250
        }),
        stepped_down(quantity(k)) == quantity(if k > 1 {
            k - 1
        } else {
            1
        }),
{
    lemma2_to64_rest();
    lemma_whole_quantity(1);
    lemma_whole_quantity(250);
    lemma_sum_of_quantities(k, 1);
    lemma_sum_of_quantities(k, -1);
    assert(negated(quantity(1)) == quantity(-1));
    lemma_quantity_order(k + 1, 250);
    lemma_quantity_order(250, k + 1);
    lemma_quantity_order(k - 1, 1);
    lemma_quantity_order(1, k - 1);
}

/// A step up and a step down of the ticket undo each other, away from the ends of the range.
pub proof fn law_ticket_steps_undo_each_other(k: int)
    requires
        1 <= k <= 250,
    ensures
        k < 250 ==> stepped_down(stepped_up(quantity(k))) == quantity(k),
        k > 1 ==> stepped_up(stepped_down(quantity(k))) == quantity(k),
        k == 250 ==> stepped_up(quantity(k)) == quantity(k),
        k == 1 ==> stepped_down(quantity(k)) == quantity(k),
{
    lemma_ticket_steps(k);
    if k < 250 {
        lemma_ticket_steps(k + 1);
    }
    if k > 1 {
        lemma_ticket_steps(k - 1);
    }
}

/// The time of the `i`-th point of a history when the clock shows `clock`: the points of the start
/// count up from zero, the later ones from one.
pub open spec fn time_at(clock: nat, i: int) -> nat {
    if i + clock < MAX_HISTORY {
        (i + clock) as nat
    } else {
        (i + clock - (MAX_HISTORY - 1)) as nat
    }
}

/// Whether a price is a number of the format that is not below the floor.
pub open spec fn is_price(v: Value) -> bool {
    is_number(v) && v !is Nan && !less(v, floor_price())
}

/// What holds of an instrument when the clock shows `clock`.
pub open spec fn sound(i: InstrumentView, clock: nat) -> bool {
    &&& is_price(i.price)
    &&& i.volatility is Finite && less(zero(), i.volatility)
    &&& i.history.len() == MAX_HISTORY
    &&& i.history.last().1 == i.price
    &&& forall|j: int|
        0 <= j < MAX_HISTORY ==> (#[trigger] i.history[j]).0 == whole(time_at(clock, j))
            && is_price(i.history[j].1)
}

/// What holds in every state of the terminal.
pub open spec fn valid(a: AppView) -> bool {
    &&& a.consistent()
    &&& a.trades.len() <= MAX_TRADES
    &&& 1 <= a.log.len() <= MAX_LOG_LINES
    &&& is_ticket(a.ticket)
    &&& forall|i: int| 0 <= i < a.positions.len() ==> is_number((#[trigger] a.positions[i]).qty)
    &&& forall|i: int| 0 <= i < a.instruments.len() ==> sound(#[trigger] a.instruments[i], a.clock)
}

proof fn lemma_ratio_order(n1: nat, d1: nat, n2: nat, d2: nat)
    requires
        d1 > 0,
        d2 > 0,
        n1 * d2 <= n2 * d1,
    ensures
        !less(ratio(n2, d2), ratio(n1, d1)),
        ratio(n1, d1) !is Nan,
        is_number(ratio(n1, d1)),
{
    reveal(rounded);
    let w = pow2(1074);
    lemma_rounded_is_number(false, n1 * w, d1);
    assert((n1 * w) * d2 <= (n2 * w) * d1) by (nonlinear_arith)
        requires
            n1 * d2 <= n2 * d1,
    ;
    lemma_round_monotone(n1 * w, d1, n2 * w, d2);
}

/// A ratio between `2^-k` and one is a finite number between the two.
proof fn lemma_ratio_range(n: nat, d: nat, k: nat)
    requires
        0 < n <= d,
        k <= 1074,
        d <= n * pow2(k),
    ensures
        ratio(n, d) is Finite,
        !is_negative(ratio(n, d)),
        pow2((1074 - k) as nat) <= ratio(n, d)->magnitude <= pow2(1074),
{
    reveal(rounded);
    lemma2_to64();
    lemma2_to64_rest();
    let w = pow2(1074);
    lemma_pow2_pos(1074);
    lemma_pow2_pos((1074 - k) as nat);
    lemma_pow2_adds(k, (1074 - k) as nat);
    lemma_pow2_strictly_increases(1074, 2098);
    let low = pow2((1074 - k) as nat);
    assert(scaled(1, 1074) == w);
    assert(scaled(1, (1074 - k) as nat) == low);
    lemma_round_exact(1, 1074, 1);
    lemma_round_exact(1, (1074 - k) as nat, 1);
    assert((n * w) * 1 <= w * d) by (nonlinear_arith)
        requires
            n <= d,
    ;
    lemma_round_monotone(n * w, d, w, 1);
    assert(low * d <= (n * w) * 1) by (nonlinear_arith)
        requires
            d <= n * pow2(k),
            w == pow2(k) * low,
    ;
    lemma_round_monotone(low, 1, n * w, d);
}

proof fn lemma_listed_is_sound(
    symbol: Seq<char>,
    price: Value,
    drift: Value,
    n: nat,
    d: nat,
)
    requires
        is_price(price),
        0 < n <= d <= 10000,
    ensures
        sound(listed(symbol, price, drift, ratio(n, d)), 0),
{
    reveal(listed);
    lemma2_to64();
    assert(d <= n * pow2(14)) by (nonlinear_arith)
        requires
            pow2(14) == 16384,
            d <= 10000,
            n >= 1,
    ;
    lemma_ratio_range(n, d, 14);
    lemma_pow2_pos(1060);
}

/// The terminal starts in a valid state.
pub proof fn law_start_is_valid()
    ensures
        valid(started()),
{
    let a = started();
    lemma_ratio_order(1, 10, 64250, 1);
    lemma_ratio_order(1, 10, 3180, 1);
    lemma_ratio_order(1, 10, 142, 1);
    lemma_ratio_order(1, 10, 2014, 10);
    lemma_ratio_order(64250, 1, 64250, 1);
    lemma_ratio_order(3180, 1, 3180, 1);
    lemma_ratio_order(142, 1, 142, 1);
    lemma_ratio_order(2014, 10, 2014, 10);
    lemma_listed_is_sound("BTCUSDT"@, whole(64250), ratio(18, 10000), 12, 1000);
    lemma_listed_is_sound("ETHUSDT"@, whole(3180), ratio(13, 10000), 10, 1000);
    lemma_listed_is_sound("SOLUSDT"@, whole(142), ratio(10, 10000), 17, 1000);
    lemma_listed_is_sound("AAPL"@, ratio(2014, 10), ratio(4, 10000), 4, 1000);
    lemma2_to64_rest();
    lemma_whole_quantity(1);
    assert(a.ticket == quantity(1));
    lemma_zero_is_number();
}

/// Every key keeps the state valid, whatever the slippage.
pub proof fn law_keys_keep_the_state_valid(a: AppView, code: KeyCode, slippage: Value)
    requires
        valid(a),
    ensures
        valid(pressed(a, code, slippage)),
{
    let k = choose|k: int| 1 <= k <= 250 && a.ticket == #[trigger] quantity(k);
    lemma_ticket_steps(k);
    lemma_zero_is_number();
    assert forall|side: Side, qty: Value, price: Value| is_number(
        (#[trigger] filled(a.held(), side, qty, price)).qty,
    ) by {
        lemma_sum_is_number(a.held().qty, product(qty, side.factor()));
    }
}

/// The passing of time keeps the state valid, whatever the noise.
pub proof fn law_time_keeps_the_state_valid(a: AppView, noise: Seq<Value>)
    requires
        valid(a),
        noise.len() == a.instruments.len(),
    ensures
        valid(ticked(a, noise)),
{
    let b = ticked(a, noise);
    lemma_ratio_order(1, 10, 1, 10);
    assert forall|i: int| 0 <= i < b.instruments.len() implies sound(
        #[trigger] b.instruments[i],
        b.clock,
    ) by {
        assert(sound(a.instruments[i], a.clock));
        assert(b.instruments[i] == moved(a.instruments[i], b.clock, noise[i]));
        let growth = sum(sum(whole(1), a.instruments[i].drift), noise[i]);
        lemma_product_is_number(a.instruments[i].price, growth);
    }
}

/// A position stays a whole number of units: each key changes it by at most 250 of them.
pub proof fn law_positions_stay_whole(
    a: AppView,
    code: KeyCode,
    slippage: Value,
    i: int,
    limit: int,
)
    requires
        valid(a),
        0 <= i < a.positions.len(),
        0 <= limit <= exact_limit() - 250,
        is_whole_within(a.positions[i].qty, limit),
    ensures
        is_whole_within(pressed(a, code, slippage).positions[i].qty, limit + 250),
{
    let k = choose|k: int| -limit <= k <= limit && a.positions[i].qty == #[trigger] quantity(k);
    let j = choose|j: int| 1 <= j <= 250 && a.ticket == #[trigger] quantity(j);
    assert(-(limit + 250) <= k <= limit + 250);
    if places_order(a, code) && i == a.selected {
        let price = fill_price(Side::Buy, a.current().price, slippage);
        let other = fill_price(Side::Sell, a.current().price, slippage);
        lemma2_to64_rest();
        lemma_quantity_is_short(j);
        if code == KeyCode::Char('b') {
            lemma_quantity_is_short(k + j);
            law_fills_add_up(a.held(), Side::Buy, k, j, price);
            assert(-(limit + 250) <= k + j <= limit + 250);
        } else if code == KeyCode::Char('s') {
            lemma_quantity_is_short(k - j);
            law_fills_add_up(a.held(), Side::Sell, k, j, other);
            assert(-(limit + 250) <= k - j <= limit + 250);
        } else {
            lemma_flat_quantity(k);
            lemma_closing_fill(a.held(), price);
            lemma_closing_fill(a.held(), other);
            assert(0 * pow2(1074) == 0) by (nonlinear_arith);
            assert(zero() == quantity(0));
            assert(-(limit + 250) <= 0 <= limit + 250);
        }
    }
}

/// The fill that closes a position leaves nothing of it.
proof fn lemma_closing_fill(p: PositionView, price: Value)
    requires
        p.qty is Finite,
        is_number(p.qty),
        !is_flat(p.qty),
    ensures
        ({
            let after = filled(p, closing_side(p.qty), absolute(p.qty), price);
            after.qty == zero() && after.average_price == zero()
        }),
{
    reveal(sum);
    let side = closing_side(p.qty);
    let m = p.qty->magnitude;
    lemma_pow2_pos(1022);
    lemma_pow2_pos(1074);
    assert(m > 0);
    lemma_signed_by_side(absolute(p.qty), side);
    let signed = product(absolute(p.qty), side.factor());
    assert(signed == negated(p.qty));
    assert(!equal(sign_of(p.qty), sign_of(signed)));
    assert(carried(p, side, absolute(p.qty)) == zero());
    assert(is_flat(zero()));
}

/// Closing a position leaves nothing of it, whatever the slippage, and does not change the ticket;
/// closing it once more changes no position.
pub proof fn law_closing_flattens(a: AppView, slippage: Value, again: Value)
    requires
        valid(a),
        a.held().qty is Finite,
    ensures
        is_flat(closed(a, slippage).held().qty),
        !is_flat(a.held().qty) ==> closed(a, slippage).held().qty == zero()
            && closed(a, slippage).held().average_price == zero(),
        closed(a, slippage).ticket == a.ticket,
        closed(closed(a, slippage), again).positions == closed(a, slippage).positions,
        closed(closed(a, slippage), again).trades == closed(a, slippage).trades,
{
    lemma_pow2_pos(1022);
    if !is_flat(a.held().qty) {
        let side = closing_side(a.held().qty);
        lemma_closing_fill(a.held(), fill_price(side, a.current().price, slippage));
    }
}

/// An order changes the position in the selected instrument and no other, and neither the
/// instruments nor the ticket, the selection or the clock. Its trade comes first in the list.
pub proof fn law_orders_touch_one_position(a: AppView, side: Side, slippage: Value, i: int)
    requires
        a.consistent(),
        0 <= i < a.positions.len(),
    ensures
        ({
            let b = ordered(a, side, slippage);
            &&& i != a.selected ==> b.positions[i] == a.positions[i]
            &&& b.instruments == a.instruments
            &&& b.ticket == a.ticket
            &&& b.selected == a.selected
            &&& b.clock == a.clock
            &&& b.trades[0].side == side
            &&& b.trades[0].symbol == a.current().symbol
            &&& b.trades[0].qty == a.ticket
            &&& b.trades[0].time_index == a.clock
        }),
{
}

/// A list with a limit takes a new entry in front, moves the others back by one, and does not
/// outgrow the limit.
pub proof fn law_lists_keep_the_latest<T>(s: Seq<T>, limit: nat, x: T, i: int)
    requires
        0 < limit,
        s.len() <= limit,
        0 <= i < s.len(),
        i + 1 < limit,
    ensures
        stacked(s, limit, x).len() <= limit,
        stacked(s, limit, x)[0] == x,
        stacked(s, limit, x)[i + 1] == s[i],
{
}

/// Switching to the next instrument and back, in either order, changes nothing.
pub proof fn law_switching_back_undoes_switching(a: AppView, slippage: Value)
    requires
        a.consistent(),
    ensures
        pressed(pressed(a, KeyCode::Tab, slippage), KeyCode::BackTab, slippage) == a,
        pressed(pressed(a, KeyCode::BackTab, slippage), KeyCode::Tab, slippage) == a,
        pressed(pressed(a, KeyCode::Right, slippage), KeyCode::Left, slippage) == a,
        pressed(pressed(a, KeyCode::Left, slippage), KeyCode::Right, slippage) == a,
{
}

/// The state after a number of switches to the next instrument.
pub open spec fn switched(a: AppView, count: nat) -> AppView
    decreases count,
{
    if count == 0 {
        a
    } else {
        pressed(switched(a, (count - 1) as nat), KeyCode::Tab, zero())
    }
}

/// Switching as often as there are instruments changes nothing, and on the way each of them is
/// selected.
pub proof fn law_switching_comes_round(a: AppView, i: int)
    requires
        a.consistent(),
        0 <= i < a.instruments.len(),
    ensures
        switched(a, a.instruments.len()) == a,
        exists|count: nat|
            count < a.instruments.len() && (#[trigger] switched(a, count)).selected == i,
{
    let n = a.instruments.len();
    lemma_switched(a, n);
    let count = (if i >= a.selected {
        i - a.selected
    } else {
        i - a.selected + n
    }) as nat;
    lemma_switched(a, count);
    assert(switched(a, count).selected == i);
}

proof fn lemma_switched(a: AppView, count: nat)
    requires
        a.consistent(),
        count <= a.instruments.len(),
    ensures
        switched(a, count) == (AppView {
            selected: if a.selected + count < a.instruments.len() {
                a.selected + count
            } else {
                a.selected + count - a.instruments.len()
            },
            ..a
        }),
    decreases count,
{
    if count > 0 {
        lemma_switched(a, (count - 1) as nat);
    }
}

/// A step of time changes no position, trade, ticket or selection, moves the clock by one, and
/// keeps each instrument's name, opening price, drift and volatility. Its new price ends its
/// history.
pub proof fn law_time_moves_prices_only(a: AppView, noise: Seq<Value>, i: int)
    requires
        a.consistent(),
        noise.len() == a.instruments.len(),
        0 <= i < a.instruments.len(),
    ensures
        ({
            let b = ticked(a, noise);
            &&& b.clock == a.clock + 1
            &&& b.positions == a.positions
            &&& b.trades == a.trades
            &&& b.ticket == a.ticket
            &&& b.selected == a.selected
            &&& b.instruments.len() == a.instruments.len()
            &&& b.instruments[i].symbol == a.instruments[i].symbol
            &&& b.instruments[i].day_open == a.instruments[i].day_open
            &&& b.instruments[i].drift == a.instruments[i].drift
            &&& b.instruments[i].volatility == a.instruments[i].volatility
            &&& b.instruments[i].history.last() == (whole(b.clock), b.instruments[i].price)
            &&& b.clock % 8 != 0 ==> b.log == a.log
        }),
{
}

/// The range from which the slippage of an order is drawn is never empty, and is finite as long as
/// the price is.
pub proof fn law_slippage_has_a_range(a: AppView)
    requires
        valid(a),
    ensures
        less(zero(), slippage_limit(a)),
        a.current().price is Finite ==> slippage_limit(a) is Finite,
{
    reveal(product);
    reveal(rounded);
    assert(sound(a.instruments[a.selected], a.clock));
    lemma2_to64();
    lemma2_to64_rest();
    lemma_ratio_range(15, 10000, 10);
    lemma_ratio_range(1, 10, 4);
    let w = pow2(1074);
    lemma_pow2_pos(1074);
    lemma_pow2_pos(1064);
    lemma_pow2_pos(1070);
    let r = ratio(15, 10000)->magnitude;
    let price = a.current().price;
    if price is Finite {
        let m = price->magnitude;
        assert(!is_negative(price) && m >= pow2(1070));
        // One unit at least.
        lemma_pow2_adds(1070, 1064);
        lemma_pow2_monotone(1074, 2134);
        assert(m * r >= pow2(1070) * pow2(1064)) by (nonlinear_arith)
            requires
                m >= pow2(1070),
                r >= pow2(1064),
        ;
        assert(1 * w <= (m * r) * 1);
        lemma_round_monotone(1, 1, m * r, w);
        assert(scaled(1, 0) == 1);
        lemma_round_exact(1, 0, 1);
        // No more than the price.
        assert((m * r) * 1 <= m * w) by (nonlinear_arith)
            requires
                r <= w,
        ;
        lemma_round_monotone(m * r, w, m, 1);
        lemma_short_is_exact(m);
    }
}

/// The range from which the noise of an instrument is drawn is never empty.
pub proof fn law_noise_has_a_range(a: AppView, i: int)
    requires
        valid(a),
        0 <= i < a.instruments.len(),
    ensures
        less(negated(a.instruments[i].volatility), a.instruments[i].volatility),
        a.instruments[i].volatility is Finite,
{
    assert(sound(a.instruments[i], a.clock));
}

/// Something that happens to the terminal.
pub enum Happening {
    /// A key, with the slippage of its order if it places one.
    Key { code: KeyCode, slippage: Value },
    /// A step of time, with the noise of each instrument.
    Tick { noise: Seq<Value> },
}

/// The state after one thing has happened.
pub open spec fn happened(a: AppView, event: Happening) -> AppView {
    match event {
        Happening::Key { code, slippage } => pressed(a, code, slippage),
        Happening::Tick { noise } => ticked(a, noise),
    }
}

/// The state after a number of things have happened.
pub open spec fn after(a: AppView, events: Seq<Happening>) -> AppView
    decreases events.len(),
{
    if events.len() == 0 {
        a
    } else {
        happened(after(a, events.drop_last()), events.last())
    }
}

/// Whether a step of time comes with a noise for each of `n` instruments.
pub open spec fn is_complete(event: Happening, n: nat) -> bool {
    event matches Happening::Tick { noise } ==> noise.len() == n
}

proof fn lemma_happened(a: AppView, event: Happening, i: int, limit: int)
    requires
        valid(a),
        is_complete(event, a.instruments.len()),
        0 <= i < a.positions.len(),
        0 <= limit <= exact_limit() - 250,
        is_whole_within(a.positions[i].qty, limit),
    ensures
        valid(happened(a, event)),
        happened(a, event).instruments.len() == a.instruments.len(),
        is_whole_within(happened(a, event).positions[i].qty, limit + 250),
{
    match event {
        Happening::Key { code, slippage } => {
            law_keys_keep_the_state_valid(a, code, slippage);
            law_positions_stay_whole(a, code, slippage, i, limit);
        },
        Happening::Tick { noise } => {
            law_time_keeps_the_state_valid(a, noise);
            let q = a.positions[i].qty;
            let k = choose|k: int| -limit <= k <= limit && q == #[trigger] quantity(k);
            assert(-(limit + 250) <= k <= limit + 250);
        },
    }
}

pub(crate) proof fn lemma_started_is_flat(i: int)
    requires
        0 <= i < 4,
    ensures
        started().instruments.len() == 4,
        started().positions.len() == 4,
        is_whole_within(started().positions[i].qty, 0),
{
    assert(0 * pow2(1074) == 0) by (nonlinear_arith);
    assert(zero() == quantity(0));
}

/// Whatever happens to a terminal from its start on, its state is valid and every position is a
/// whole number of units, at most 250 for each thing that happened, as long as that is exact.
pub proof fn law_every_state_is_valid_and_whole(events: Seq<Happening>, i: int)
    requires
        forall|k: int| 0 <= k < events.len() ==> is_complete(#[trigger] events[k], 4),
        250 * events.len() <= exact_limit(),
        0 <= i < 4,
    ensures
        valid(after(started(), events)),
        after(started(), events).instruments.len() == 4,
        is_whole_within(after(started(), events).positions[i].qty, 250 * events.len() as int),
    decreases events.len(),
{
    if events.len() == 0 {
        law_start_is_valid();
        lemma_started_is_flat(i);
    } else {
        let rest = events.drop_last();
        assert forall|k: int| 0 <= k < rest.len() implies is_complete(#[trigger] rest[k], 4) by {
            assert(rest[k] == events[k]);
        }
        law_every_state_is_valid_and_whole(rest, i);
        let before = after(started(), rest);
        assert(before.consistent());
        assert(is_complete(events[events.len() - 1], 4));
        lemma_happened(before, events.last(), i, 250 * rest.len() as int);
    }
}

pub(crate) proof fn lemma_extremes(h: Seq<(Value, Value)>)
    requires
        h.len() > 0,
        forall|j: int| 0 <= j < h.len() ==> (#[trigger] h[j]).1 is Finite,
    ensures
        exists|j: int| 0 <= j < h.len() && lowest(h) == (#[trigger] h[j]).1,
        exists|j: int| 0 <= j < h.len() && highest(h) == (#[trigger] h[j]).1,
        forall|j: int|
            0 <= j < h.len() ==> !less((#[trigger] h[j]).1, lowest(h)) && !less(
                highest(h),
                h[j].1,
            ),
    decreases h.len(),
{
    let t = h.drop_last();
    let l = (h.len() - 1) as int;
    assert(h.last() == h[l]);
    if t.len() > 0 {
        assert forall|j: int| 0 <= j < t.len() implies (#[trigger] t[j]).1 is Finite by {
            assert(t[j] == h[j]);
        }
        lemma_extremes(t);
        let a = choose|j: int| 0 <= j < t.len() && lowest(t) == (#[trigger] t[j]).1;
        let b = choose|j: int| 0 <= j < t.len() && highest(t) == (#[trigger] t[j]).1;
        assert(lowest(t) == h[a].1 && highest(t) == h[b].1);
        assert forall|j: int| 0 <= j < h.len() implies !less((#[trigger] h[j]).1, lowest(h))
            && !less(highest(h), h[j].1) by {
            if j < l {
                assert(t[j] == h[j]);
            }
        }
    }
}

/// The chart has room for every point of the history, as long as the prices are finite.
pub proof fn law_charts_show_every_point(a: AppView, j: int)
    requires
        valid(a),
        forall|i: int|
            0 <= i < MAX_HISTORY ==> (#[trigger] a.current().history[i]).1 is Finite,
        0 <= j < MAX_HISTORY,
    ensures
        ({
            let c = price_chart(a);
            let p = a.current().history[j];
            &&& c.points[j] == p
            &&& !less(p.0, c.x_bounds.0) && !less(c.x_bounds.1, p.0)
            &&& !less(p.1, c.y_bounds.0) && !less(c.y_bounds.1, p.1)
        }),
{
    let h = a.current().history;
    assert(sound(a.instruments[a.selected], a.clock));
    let t = time_at(a.clock, j);
    assert(h[j].0 == whole(t));
    lemma_ratio_order(chart_start(a.clock), 1, t, 1);
    lemma_ratio_order(t, 1, chart_end(a.clock), 1);
    lemma_extremes(h);
    let low = lowest(h);
    let high = highest(h);
    let x = choose|i: int| 0 <= i < h.len() && low == (#[trigger] h[i]).1;
    let y = choose|i: int| 0 <= i < h.len() && high == (#[trigger] h[i]).1;
    assert(is_number(low) && is_number(high));
    let m = margin(low, high);
    lemma2_to64_rest();
    lemma_whole_quantity(1);
    lemma_units_of_quantity(1);
    assert(m !is Nan && !less(m, zero()));
    if m is Finite {
        lemma_sum_order(low, m);
        lemma_sum_order(high, m);
    } else {
        reveal(sum);
    }
}

} // verus!
